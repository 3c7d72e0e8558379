//! Which log files to read.

use vstd::prelude::*;

verus! {

/// What to do with an input named on the command line.
#[derive(Clone, Copy, PartialEq, Eq, Debug, Structural)]
pub enum InputKind {
    /// A directory: take the logs in it.
    Directory,
    /// Something else that exists: take it as it is.
    File,
    /// Nothing of that name: take it as a pattern.
    Pattern,
}

/// What to do with an input, by what is found under its name.
pub fn input_kind(is_dir: bool, exists: bool) -> (res: InputKind)
    ensures
        res == (if is_dir {
            InputKind::Directory
        } else if exists {
            InputKind::File
        } else {
            InputKind::Pattern
        }),
{
    if is_dir {
        InputKind::Directory
    } else if exists {
        InputKind::File
    } else {
        InputKind::Pattern
    }
}

/// The names of logs in a directory, in the order in which they are looked for.
pub fn log_patterns() -> (res: [&'static str; 2])
    ensures
        res@[0]@ == "*.bbl"@,
        res@[1]@ == "*.BBL"@,
{
    ["*.bbl", "*.BBL"]
}

/// Whether `a` comes before `b`: at the first byte in which they differ, or because
/// it ends before that.
pub open spec fn name_before(a: Seq<u8>, b: Seq<u8>) -> bool
    decreases a.len(),
{
    if b.len() == 0 {
        false
    } else if a.len() == 0 {
        true
    } else if a[0] == b[0] {
        name_before(a.drop_first(), b.drop_first())
    } else {
        a[0] < b[0]
    }
}

/// Whether the path `a` comes before `b`: by the first of their parts in which they
/// differ, or because it ends before that.
pub open spec fn path_before(a: Seq<Seq<u8>>, b: Seq<Seq<u8>>) -> bool
    decreases a.len(),
{
    if b.len() == 0 {
        false
    } else if a.len() == 0 {
        true
    } else if a[0] == b[0] {
        path_before(a.drop_first(), b.drop_first())
    } else {
        name_before(a[0], b[0])
    }
}

/// Names are ordered by the first byte in which they differ, `k` places from the start: the
/// lesser byte comes first, and a name that ends there comes before one that goes on.
pub proof fn law_names_are_ordered_by_their_first_difference(a: Seq<u8>, b: Seq<u8>) -> (k: int)
    ensures
        0 <= k <= a.len(),
        k <= b.len(),
        forall|i: int| 0 <= i < k ==> a[i] == b[i],
        k < a.len() && k < b.len() ==> a[k] != b[k],
        name_before(a, b) <==> k < b.len() && (k == a.len() || a[k] < b[k]),
    decreases a.len(),
{
    if a.len() > 0 && b.len() > 0 && a[0] == b[0] {
        let x = a.drop_first();
        let y = b.drop_first();
        let k = law_names_are_ordered_by_their_first_difference(x, y);
        assert forall|i: int| 0 <= i < k + 1 implies a[i] == b[i] by {
            if i > 0 {
                assert(x[i - 1] == y[i - 1]);
            }
        }
        k + 1
    } else {
        0
    }
}

/// Paths are ordered by the first part in which they differ, `k` parts from the start: the
/// one whose part comes first, and a path that ends there before one that goes on.
pub proof fn law_paths_are_ordered_by_their_first_difference(
    a: Seq<Seq<u8>>,
    b: Seq<Seq<u8>>,
) -> (k: int)
    ensures
        0 <= k <= a.len(),
        k <= b.len(),
        forall|i: int| 0 <= i < k ==> a[i] == b[i],
        k < a.len() && k < b.len() ==> a[k] != b[k],
        path_before(a, b) <==> k < b.len() && (k == a.len() || name_before(a[k], b[k])),
    decreases a.len(),
{
    if a.len() > 0 && b.len() > 0 && a[0] == b[0] {
        let x = a.drop_first();
        let y = b.drop_first();
        let k = law_paths_are_ordered_by_their_first_difference(x, y);
        assert forall|i: int| 0 <= i < k + 1 implies a[i] == b[i] by {
            if i > 0 {
                assert(x[i - 1] == y[i - 1]);
            }
        }
        k + 1
    } else {
        0
    }
}

/// Of two names exactly one comes first, unless they are the same.
proof fn lemma_names_differ(a: Seq<u8>, b: Seq<u8>)
    ensures
        a == b ==> !name_before(a, b),
        a != b ==> name_before(a, b) != name_before(b, a),
    decreases a.len(),
{
    if a.len() > 0 && b.len() > 0 && a[0] == b[0] {
        lemma_names_differ(a.drop_first(), b.drop_first());
        if a.drop_first() == b.drop_first() {
            assert(a =~= seq![a[0]] + a.drop_first());
            assert(b =~= seq![b[0]] + b.drop_first());
        }
    } else if a.len() == 0 && b.len() == 0 {
        assert(a =~= b);
    }
}

proof fn lemma_names_chain(a: Seq<u8>, b: Seq<u8>, c: Seq<u8>)
    requires
        name_before(a, b),
        name_before(b, c),
    ensures
        name_before(a, c),
    decreases a.len(),
{
    if a.len() > 0 && a[0] == b[0] && b[0] == c[0] {
        lemma_names_chain(a.drop_first(), b.drop_first(), c.drop_first());
    }
}

/// Of two paths exactly one comes first, unless they are the same.
pub proof fn law_one_path_comes_first(a: Seq<Seq<u8>>, b: Seq<Seq<u8>>)
    ensures
        a == b ==> !path_before(a, b),
        a != b ==> path_before(a, b) != path_before(b, a),
    decreases a.len(),
{
    if a.len() > 0 && b.len() > 0 {
        if a[0] == b[0] {
            law_one_path_comes_first(a.drop_first(), b.drop_first());
            if a.drop_first() == b.drop_first() {
                assert(a =~= seq![a[0]] + a.drop_first());
                assert(b =~= seq![b[0]] + b.drop_first());
            }
        } else {
            lemma_names_differ(a[0], b[0]);
        }
    } else if a.len() == 0 && b.len() == 0 {
        assert(a =~= b);
    }
}

/// What comes before a path comes before all that the path comes before.
pub proof fn law_paths_chain(a: Seq<Seq<u8>>, b: Seq<Seq<u8>>, c: Seq<Seq<u8>>)
    requires
        path_before(a, b),
        path_before(b, c),
    ensures
        path_before(a, c),
    decreases a.len(),
{
    if a.len() > 0 {
        if a[0] == b[0] && b[0] == c[0] {
            law_paths_chain(a.drop_first(), b.drop_first(), c.drop_first());
        } else if a[0] != b[0] && b[0] != c[0] {
            lemma_names_chain(a[0], b[0], c[0]);
            lemma_names_differ(a[0], c[0]);
        }
    }
}

/// How two paths, or two of their parts, stand to each other.
#[derive(Clone, Copy, PartialEq, Eq, Debug, Structural)]
enum Order {
    Before,
    Same,
    After,
}

spec fn orders_names(order: Order, a: Seq<u8>, b: Seq<u8>) -> bool {
    match order {
        Order::Before => name_before(a, b),
        Order::Same => a == b,
        Order::After => name_before(b, a),
    }
}

spec fn orders_paths(order: Order, a: Seq<Seq<u8>>, b: Seq<Seq<u8>>) -> bool {
    match order {
        Order::Before => path_before(a, b),
        Order::Same => a == b,
        Order::After => path_before(b, a),
    }
}

/// The parts of a path.
pub open spec fn parts(path: Seq<Vec<u8>>) -> Seq<Seq<u8>> {
    path.map_values(|part: Vec<u8>| part@)
}

/// Two names that agree up to `n` stand to each other as what is left of them.
proof fn lemma_name_tails(a: Seq<u8>, b: Seq<u8>, n: int)
    requires
        0 <= n <= a.len(),
        n <= b.len(),
        forall|i: int| 0 <= i < n ==> a[i] == b[i],
    ensures
        name_before(a, b) == name_before(a.skip(n), b.skip(n)),
        a == b <==> a.skip(n) == b.skip(n),
    decreases n,
{
    if n == 0 {
        assert(a.skip(0) =~= a);
        assert(b.skip(0) =~= b);
    } else {
        lemma_name_tails(a.drop_first(), b.drop_first(), n - 1);
        assert(a.drop_first().skip(n - 1) =~= a.skip(n));
        assert(b.drop_first().skip(n - 1) =~= b.skip(n));
        assert(a =~= seq![a[0]] + a.drop_first());
        assert(b =~= seq![b[0]] + b.drop_first());
    }
}

/// Two paths that agree up to `n` stand to each other as what is left of them.
proof fn lemma_path_tails(a: Seq<Seq<u8>>, b: Seq<Seq<u8>>, n: int)
    requires
        0 <= n <= a.len(),
        n <= b.len(),
        forall|i: int| 0 <= i < n ==> a[i] == b[i],
    ensures
        path_before(a, b) == path_before(a.skip(n), b.skip(n)),
        a == b <==> a.skip(n) == b.skip(n),
    decreases n,
{
    if n == 0 {
        assert(a.skip(0) =~= a);
        assert(b.skip(0) =~= b);
    } else {
        lemma_path_tails(a.drop_first(), b.drop_first(), n - 1);
        assert(a.drop_first().skip(n - 1) =~= a.skip(n));
        assert(b.drop_first().skip(n - 1) =~= b.skip(n));
        assert(a =~= seq![a[0]] + a.drop_first());
        assert(b =~= seq![b[0]] + b.drop_first());
    }
}

fn order_names(a: &[u8], b: &[u8]) -> (res: Order)
    ensures
        orders_names(res, a@, b@),
{
    let m: usize = a.len();
    let n: usize = b.len();
    let mut i: usize = 0;
    while i < m && i < n && a[i] == b[i]
        invariant
            m == a@.len(),
            n == b@.len(),
            i <= m,
            i <= n,
            forall|j: int| 0 <= j < i ==> a@[j] == b@[j],
        decreases m - i,
    {
        i += 1;
    }
    proof {
        lemma_name_tails(a@, b@, i as int);
        lemma_name_tails(b@, a@, i as int);
        if i == m && i == n {
            assert(a@ =~= b@);
        }
    }
    if i == m && i == n {
        Order::Same
    } else if i == m || (i < n && a[i] < b[i]) {
        Order::Before
    } else {
        Order::After
    }
}

fn order_paths(a: &[Vec<u8>], b: &[Vec<u8>]) -> (res: Order)
    ensures
        orders_paths(res, parts(a@), parts(b@)),
{
    let m: usize = a.len();
    let n: usize = b.len();
    let mut i: usize = 0;
    while i < m && i < n
        invariant
            m == a@.len(),
            n == b@.len(),
            i <= m,
            i <= n,
            forall|j: int| 0 <= j < i ==> parts(a@)[j] == parts(b@)[j],
        decreases m - i,
    {
        let order = order_names(a[i].as_slice(), b[i].as_slice());
        match order {
            Order::Same => {},
            _ => {
                proof {
                    lemma_path_tails(parts(a@), parts(b@), i as int);
                    lemma_path_tails(parts(b@), parts(a@), i as int);
                    lemma_names_differ(a@[i as int]@, b@[i as int]@);
                }
                return order;
            },
        }
        i += 1;
    }
    proof {
        lemma_path_tails(parts(a@), parts(b@), i as int);
        lemma_path_tails(parts(b@), parts(a@), i as int);
        if i == m && i == n {
            assert(parts(a@) =~= parts(b@));
        }
    }
    if i == m && i == n {
        Order::Same
    } else if i == m {
        Order::Before
    } else {
        Order::After
    }
}

/// The path that stands at `index` of a list.
pub open spec fn path_at(paths: Seq<Vec<Vec<u8>>>, index: int) -> Seq<Seq<u8>> {
    parts(paths[index]@)
}

/// Whether no earlier path of the list is the one at `index`.
pub open spec fn is_first(paths: Seq<Vec<Vec<u8>>>, index: int) -> bool {
    forall|j: int| 0 <= j < index ==> path_at(paths, j) != #[trigger] path_at(paths, index)
}

/// Whether `picked` holds, of the first `n` paths, each different one once, where
/// it first stands, and these in order.
pub open spec fn is_merged(paths: Seq<Vec<Vec<u8>>>, n: int, picked: Seq<usize>) -> bool {
    &&& forall|k: int|
        0 <= k < picked.len() ==> (#[trigger] picked[k]) < n && is_first(paths, picked[k] as int)
    &&& forall|i: int|
        0 <= i < n ==> exists|k: int|
            0 <= k < picked.len() && path_at(paths, (#[trigger] picked[k]) as int)
                == #[trigger] path_at(paths, i)
    &&& forall|k: int, l: int|
        0 <= k < l < picked.len() ==> path_before(
            path_at(paths, (#[trigger] picked[k]) as int),
            path_at(paths, (#[trigger] picked[l]) as int),
        )
}

/// A path that equals the one at `k` is already picked.
proof fn lemma_already_picked(paths: Seq<Vec<Vec<u8>>>, n: int, picked: Seq<usize>, k: int)
    requires
        is_merged(paths, n, picked),
        0 <= k < picked.len(),
        path_at(paths, picked[k] as int) == path_at(paths, n),
    ensures
        is_merged(paths, n + 1, picked),
{
    assert forall|i: int| 0 <= i < n + 1 implies exists|l: int|
        0 <= l < picked.len() && path_at(paths, (#[trigger] picked[l]) as int)
            == #[trigger] path_at(paths, i) by {
        if i == n {
            assert(path_at(paths, picked[k] as int) == path_at(paths, i));
        }
    }
}

/// A path that comes after the ones picked before `k` and before the one at `k` is
/// picked there.
#[verifier::spinoff_prover]
#[verifier::rlimit(40)]
proof fn lemma_picked(paths: Seq<Vec<Vec<u8>>>, n: usize, picked: Seq<usize>, k: int)
    requires
        is_merged(paths, n as int, picked),
        0 <= k <= picked.len(),
        forall|l: int|
            0 <= l < k ==> path_before(
                path_at(paths, (#[trigger] picked[l]) as int),
                path_at(paths, n as int),
            ),
        k < picked.len() ==> path_before(
            path_at(paths, n as int),
            path_at(paths, picked[k] as int),
        ),
    ensures
        is_merged(paths, n + 1, picked.insert(k, n)),
{
    let after = picked.insert(k, n);
    let here = path_at(paths, n as int);
    assert forall|l: int| k <= l < picked.len() implies path_before(
        here,
        path_at(paths, (#[trigger] picked[l]) as int),
    ) by {
        if l > k {
            law_paths_chain(
                here,
                path_at(paths, picked[k] as int),
                path_at(paths, picked[l] as int),
            );
        }
    }
    assert forall|l: int| 0 <= l < picked.len() implies path_at(
        paths,
        (#[trigger] picked[l]) as int,
    ) != here by {
        law_one_path_comes_first(path_at(paths, picked[l] as int), here);
        law_one_path_comes_first(here, path_at(paths, picked[l] as int));
    }
    assert(is_first(paths, n as int)) by {
        assert forall|j: int| 0 <= j < n implies path_at(paths, j) != #[trigger] path_at(
            paths,
            n as int,
        ) by {
            assert(path_at(paths, j) == path_at(paths, j));
            let l = choose|l: int|
                0 <= l < picked.len() && path_at(paths, (#[trigger] picked[l]) as int) == path_at(
                    paths,
                    j,
                );
            assert(path_at(paths, picked[l] as int) != here);
        }
    }
    assert forall|i: int| 0 <= i < n + 1 implies exists|l: int|
        0 <= l < after.len() && path_at(paths, (#[trigger] after[l]) as int)
            == #[trigger] path_at(paths, i) by {
        if i == n {
            assert(after[k] == n);
        } else {
            let l = choose|l: int|
                0 <= l < picked.len() && path_at(paths, (#[trigger] picked[l]) as int) == path_at(
                    paths,
                    i,
                );
            if l < k {
                assert(after[l] == picked[l]);
            } else {
                assert(after[l + 1] == picked[l]);
            }
        }
    }
}

/// Which of the paths to read, in order: each different one once. A path is given
/// by its parts, and the result by where a path first stands in the list.
pub fn merge_inputs(paths: &[Vec<Vec<u8>>]) -> (res: Vec<usize>)
    ensures
        is_merged(paths@, paths@.len() as int, res@),
{
    let mut picked: Vec<usize> = Vec::new();
    let n: usize = paths.len();
    for i in 0..n
        invariant
            n == paths@.len(),
            is_merged(paths@, i as int, picked@),
    {
        let count: usize = picked.len();
        let mut k: usize = 0;
        let mut known = false;
        while k < count && !known
            invariant_except_break
                !known,
            invariant
                i < n == paths@.len(),
                k <= count == picked@.len(),
                is_merged(paths@, i as int, picked@),
                forall|l: int|
                    0 <= l < k ==> path_before(
                        path_at(paths@, (#[trigger] picked@[l]) as int),
                        path_at(paths@, i as int),
                    ),
            ensures
                known ==> k < count && path_at(paths@, picked@[k as int] as int) == path_at(
                    paths@,
                    i as int,
                ),
                !known && k < count ==> path_before(
                    path_at(paths@, i as int),
                    path_at(paths@, picked@[k as int] as int),
                ),
            decreases count - k,
        {
            match order_paths(paths[picked[k]].as_slice(), paths[i].as_slice()) {
                Order::Before => k += 1,
                Order::Same => {
                    known = true;
                    break;
                },
                Order::After => break,
            }
        }
        proof {
            if known {
                lemma_already_picked(paths@, i as int, picked@, k as int);
            } else {
                lemma_picked(paths@, i, picked@, k as int);
            }
        }
        if !known {
            picked.insert(k, i);
        }
    }
    picked
}

/// The result of merging names places of the list whose paths come one before the other. For
/// every path of the list it names exactly one place, which is the first of those that hold
/// this path: `at` leads from each path to it.
pub proof fn law_merging_keeps_each_path_once(
    paths: Seq<Vec<Vec<u8>>>,
    picked: Seq<usize>,
) -> (at: Seq<int>)
    requires
        is_merged(paths, paths.len() as int, picked),
    ensures
        forall|k: int, l: int|
            0 <= k < l < picked.len() ==> path_before(
                parts(paths[(#[trigger] picked[k]) as int]@),
                parts(paths[(#[trigger] picked[l]) as int]@),
            ),
        forall|k: int|
            0 <= k < picked.len() ==> (#[trigger] picked[k]) < paths.len() && forall|j: int|
                0 <= j < picked[k] ==> parts((#[trigger] paths[j])@) != parts(
                    paths[picked[k] as int]@,
                ),
        at.len() == paths.len(),
        forall|i: int|
            0 <= i < at.len() ==> 0 <= #[trigger] at[i] < picked.len() && parts(
                paths[picked[at[i]] as int]@,
            ) == parts(paths[i]@),
        forall|i: int, j: int|
            0 <= i < paths.len() && 0 <= j < paths[i]@.len() ==> (#[trigger] parts(paths[i]@)[j])
                == paths[i]@[j]@ && parts(paths[i]@).len() == paths[i]@.len(),
{
    assert forall|k: int, l: int| 0 <= k < l < picked.len() implies path_before(
        parts(paths[(#[trigger] picked[k]) as int]@),
        parts(paths[(#[trigger] picked[l]) as int]@),
    ) by {
        assert(path_before(path_at(paths, picked[k] as int), path_at(paths, picked[l] as int)));
    }
    assert forall|k: int| 0 <= k < picked.len() implies (#[trigger] picked[k]) < paths.len()
        && forall|j: int|
        0 <= j < picked[k] ==> parts((#[trigger] paths[j])@) != parts(
            paths[picked[k] as int]@,
        ) by {
        assert(is_first(paths, picked[k] as int));
        assert forall|j: int| 0 <= j < picked[k] implies parts((#[trigger] paths[j])@) != parts(
            paths[picked[k] as int]@,
        ) by {
            assert(path_at(paths, j) != path_at(paths, picked[k] as int));
        }
    }
    let at = Seq::new(
        paths.len(),
        |i: int|
            choose|k: int|
                0 <= k < picked.len() && path_at(paths, (#[trigger] picked[k]) as int) == path_at(
                    paths,
                    i,
                ),
    );
    assert forall|i: int| 0 <= i < at.len() implies 0 <= #[trigger] at[i] < picked.len() && parts(
        paths[picked[at[i]] as int]@,
    ) == parts(paths[i]@) by {
        assert(path_at(paths, i) == parts(paths[i]@));
        assert(path_at(paths, picked[at[i]] as int) == path_at(paths, i));
    }
    at
}

/// Merging leaves nothing to choose: there is only one result.
pub proof fn law_merging_is_determined(
    paths: Seq<Vec<Vec<u8>>>,
    n: int,
    a: Seq<usize>,
    b: Seq<usize>,
)
    requires
        is_merged(paths, n, a),
        is_merged(paths, n, b),
    ensures
        a == b,
{
    lemma_merged_is_prefix(paths, n, a, b, a.len() as int);
    lemma_merged_is_prefix(paths, n, b, a, b.len() as int);
    assert(a =~= b);
}

/// The first `m` picks of one merge are those of every other.
proof fn lemma_merged_is_prefix(
    paths: Seq<Vec<Vec<u8>>>,
    n: int,
    a: Seq<usize>,
    b: Seq<usize>,
    m: int,
)
    requires
        is_merged(paths, n, a),
        is_merged(paths, n, b),
        0 <= m <= a.len(),
    ensures
        m <= b.len(),
        forall|i: int| 0 <= i < m ==> a[i] == b[i],
    decreases m,
{
    if m > 0 {
        lemma_merged_is_prefix(paths, n, a, b, m - 1);
        let at = m - 1;
        let x = a[at];
        // Where `b` has the path that `a` has here.
        let l = choose|l: int|
            0 <= l < b.len() && path_at(paths, (#[trigger] b[l]) as int) == path_at(
                paths,
                x as int,
            );
        lemma_same_pick(paths, n, a, b, at, l);
        if l < at {
            assert(a[l] == b[l]);
            law_one_path_comes_first(path_at(paths, a[l] as int), path_at(paths, a[at] as int));
        } else if l > at {
            let y = b[at];
            let k = choose|k: int|
                0 <= k < a.len() && path_at(paths, (#[trigger] a[k]) as int) == path_at(
                    paths,
                    y as int,
                );
            lemma_same_pick(paths, n, a, b, k, at);
            if k < at {
                assert(a[k] == b[k]);
                law_one_path_comes_first(path_at(paths, b[k] as int), path_at(paths, b[at] as int));
            } else if k == at {
                law_one_path_comes_first(path_at(paths, b[at] as int), path_at(paths, b[l] as int));
            } else {
                law_one_path_comes_first(path_at(paths, b[at] as int), path_at(paths, b[l] as int));
                law_one_path_comes_first(path_at(paths, a[at] as int), path_at(paths, a[k] as int));
                law_one_path_comes_first(path_at(paths, a[k] as int), path_at(paths, a[at] as int));
            }
        }
    }
}

/// Two merges pick the same place for the same path.
proof fn lemma_same_pick(
    paths: Seq<Vec<Vec<u8>>>,
    n: int,
    a: Seq<usize>,
    b: Seq<usize>,
    k: int,
    l: int,
)
    requires
        is_merged(paths, n, a),
        is_merged(paths, n, b),
        0 <= k < a.len(),
        0 <= l < b.len(),
        path_at(paths, a[k] as int) == path_at(paths, b[l] as int),
    ensures
        a[k] == b[l],
{
    assert(is_first(paths, a[k] as int));
    assert(is_first(paths, b[l] as int));
}

} // verus!
