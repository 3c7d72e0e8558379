use stickoverlay::inputs::input_kind;
use stickoverlay::inputs::log_patterns;
use stickoverlay::inputs::merge_inputs;
use stickoverlay::inputs::InputKind;

fn path(text: &str) -> Vec<Vec<u8>> {
    text.split('/').map(|part| part.as_bytes().to_vec()).collect()
}

fn merged(texts: &[&str]) -> Vec<usize> {
    let paths: Vec<Vec<Vec<u8>>> = texts.iter().map(|text| path(text)).collect();
    merge_inputs(&paths)
}

#[test]
fn an_input_is_what_is_found_under_its_name() {
    assert_eq!(input_kind(true, true), InputKind::Directory);
    assert_eq!(input_kind(true, false), InputKind::Directory);
    assert_eq!(input_kind(false, true), InputKind::File);
    assert_eq!(input_kind(false, false), InputKind::Pattern);
}

#[test]
fn logs_are_looked_for_under_two_names() {
    assert_eq!(log_patterns(), ["*.bbl", "*.BBL"]);
}

#[test]
fn each_path_is_taken_once_and_in_order() {
    assert_eq!(merged(&[]), Vec::<usize>::new());
    assert_eq!(merged(&["b", "a", "b", "c", "a"]), vec![1, 0, 3]);
    assert_eq!(merged(&["x/2", "x/10", "x/1"]), vec![2, 1, 0]);
    assert_eq!(merged(&["a/b", "a", "a/b/c", "a"]), vec![1, 0, 2]);
}

#[test]
fn paths_are_ordered_part_by_part() {
    let texts = ["a-b/x", "a/z", "a", "a/b", "A/b", "a.b/c", "a/b/c"];
    let mut sorted: Vec<std::path::PathBuf> = texts.iter().map(std::path::PathBuf::from).collect();
    sorted.sort();
    let ours: Vec<std::path::PathBuf> =
        merged(&texts).into_iter().map(|i| std::path::PathBuf::from(texts[i])).collect();
    assert_eq!(ours, sorted);
    assert_eq!(ours[1], std::path::PathBuf::from("a"));
}

#[test]
fn the_order_does_not_depend_on_how_the_paths_come() {
    let texts = ["d", "b", "a/x", "a", "c"];
    let mut turned = texts;
    turned.reverse();
    let one: Vec<&str> = merged(&texts).into_iter().map(|i| texts[i]).collect();
    let two: Vec<&str> = merged(&turned).into_iter().map(|i| turned[i]).collect();
    assert_eq!(one, two);
    assert_eq!(one, vec!["a", "a/x", "b", "c", "d"]);
}
