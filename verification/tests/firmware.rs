use stickoverlay::firmware::normalize_firmware;
use stickoverlay::firmware::rewrite_fw_value;

fn rewritten(value: &str) -> Option<String> {
    let (new, original) = rewrite_fw_value(value.as_bytes());
    match (new, original) {
        (Some(new), Some(original)) => {
            assert_eq!(original, value);
            Some(new)
        }
        (None, None) => None,
        _ => panic!("one without the other"),
    }
}

#[test]
fn dated_versions_are_rewritten() {
    assert_eq!(
        rewritten("Betaflight 2025.12.2 (abc123) STM32F7X2"),
        Some("Betaflight 4.5.0 (abc123) STM32F7X2".to_string())
    );
    assert_eq!(rewritten("INAV 9.0.1 board"), Some("INAV 8.0.0 board".to_string()));
    assert_eq!(rewritten("betaflight 3.5.7"), Some("betaflight 4.5.0".to_string()));
    assert_eq!(rewritten("Betaflight  4.5.0"), Some("Betaflight 4.5.0 4.5.0".to_string()));
    assert_eq!(rewritten("Betaflight x"), Some("Betaflight 4.5.0".to_string()));
    for version in ["4.0.6", "4.1.0", "4.6.0", "4.9", "4", "4.", "4.x.1", "4.2-rc1", "5.2.0"] {
        let value = format!("Betaflight {version} (hash) BOARD");
        assert_eq!(rewritten(&value), Some("Betaflight 4.5.0 (hash) BOARD".to_string()));
    }
    assert_eq!(rewritten("INAV 4.0.0  two"), Some("INAV 8.0.0  two".to_string()));
}

#[test]
fn supported_versions_stay() {
    for value in [
        "Betaflight 4.5.1 (77d01ba3b) STM32F7X2",
        "Betaflight 4.2.0",
        "Betaflight 4.3.1 x",
        "BETAFLIGHT 4.5",
        "Betaflight +4.2",
        "INAV 5.0.0",
        "inav 8",
        "EmuFlight 0.4.1",
        "Betaflight",
        "",
        " Betaflight 2025.12.2",
    ] {
        assert_eq!(rewritten(value), None, "{value:?}");
    }
}

#[test]
fn broken_text_is_left_alone() {
    let (new, original) = rewrite_fw_value(b"Betaflight 2025.12.2 \xff");
    assert!(new.is_none() && original.is_none());
}

#[test]
fn rewriting_a_second_time_changes_nothing() {
    for value in ["Betaflight 2025.12.2 (abc123) X", "INAV 9.0.1", "Betaflight  4"] {
        let once = rewritten(value).unwrap();
        assert_eq!(rewritten(&once), None);
    }
}

#[test]
fn revision_lines_are_normalized_wherever_they_stand() {
    let bytes = b"a\nH Firmware revision:Betaflight 2025.12.2 x\nb H Firmware revision:INAV 9.1.0";
    let (out, original) = normalize_firmware(bytes);
    assert_eq!(
        out,
        b"a\nH Firmware revision:Betaflight 4.5.0 x\nb H Firmware revision:INAV 8.0.0".to_vec()
    );
    assert_eq!(original, Some("INAV 9.1.0".to_string()));
}

#[test]
fn the_last_rewritten_revision_is_reported() {
    let bytes = b"H Firmware revision:Betaflight 2025.12.2\nH Firmware revision:Betaflight 4.5.1\n";
    let (out, original) = normalize_firmware(bytes);
    assert_eq!(
        out,
        b"H Firmware revision:Betaflight 4.5.0\nH Firmware revision:Betaflight 4.5.1\n".to_vec()
    );
    assert_eq!(original, Some("Betaflight 2025.12.2".to_string()));
}

#[test]
fn bytes_without_a_revision_line_stay() {
    for bytes in [&b""[..], b"H Firmware revisio", b"\xff\x00H Firmware date:x\n", b"\n\n"] {
        let (out, original) = normalize_firmware(bytes);
        assert_eq!(out, bytes.to_vec());
        assert!(original.is_none());
    }
}

#[test]
fn normalizing_a_second_time_changes_nothing() {
    let bytes = b"H Firmware revision:Betaflight 2025.12.2 x\n\x01H Firmware revision:H Firmware revision:INAV 1\n";
    let (once, _) = normalize_firmware(bytes);
    let (twice, original) = normalize_firmware(&once);
    assert_eq!(once, twice);
    assert!(original.is_none());
}
