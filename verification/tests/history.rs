use kelaunch::history::{parse_u32, EntryHistory};

fn cs(s: &str) -> Vec<char> {
    s.chars().collect()
}

#[test]
fn reads_counts_and_skips_malformed_lines() {
    let text = "3 Firefox\n  12   Visual Studio Code \r\nbad line\n+7 Foo\n-1 Bar\n4294967296 Big\n\n4294967295 Max\nnospace\n";
    let h = EntryHistory::parse(text);
    assert_eq!(h.usage("Firefox"), 3);
    assert_eq!(h.usage("Visual Studio Code"), 12);
    assert_eq!(h.usage("Foo"), 7);
    assert_eq!(h.usage("Bar"), 0);
    assert_eq!(h.usage("Big"), 0);
    assert_eq!(h.usage("Max"), u32::MAX);
    assert_eq!(h.usage("line"), 0);
    assert_eq!(h.usage("Unknown"), 0);
}

#[test]
fn later_lines_override_earlier_ones() {
    let h = EntryHistory::parse("1 A\n2 B\n5 A\n");
    assert_eq!(h.usage("A"), 5);
    assert_eq!(h.usage("B"), 2);
    assert_eq!(h.to_text(), "5 A\n2 B\n");
}

#[test]
fn text_lists_each_record_once() {
    let h = EntryHistory::parse("10 Files\n0 Terminal Emulator\n");
    assert_eq!(h.to_text(), "10 Files\n0 Terminal Emulator\n");
    assert_eq!(EntryHistory::parse("").to_text(), "");
}

#[test]
fn increment_counts_one_more_launch() {
    let mut h = EntryHistory::parse("4 A\n");
    h.increment("A");
    h.increment("B");
    h.increment("B");
    assert_eq!(h.usage("A"), 5);
    assert_eq!(h.usage("B"), 2);
    assert_eq!(h.to_text(), "5 A\n2 B\n");
}

#[test]
fn text_round_trip_keeps_the_counts() {
    let mut h = EntryHistory::parse("7 Image Viewer\n1 x\n");
    h.increment("Café ☕");
    h.increment("x");
    let back = EntryHistory::parse(&h.to_text());
    for name in ["Image Viewer", "x", "Café ☕", "nothing"] {
        assert_eq!(back.usage(name), h.usage(name));
    }
    assert_eq!(back.to_text(), h.to_text());
}

#[test]
fn reads_numbers_as_u32_from_str_does() {
    for s in ["0", "7", "+7", "007", "4294967295", "", "+", "-1", "4294967296", "1a", " 1", "99999999999999999999"] {
        assert_eq!(parse_u32(&cs(s)), s.parse::<u32>().ok(), "input {s:?}");
    }
}

#[test]
fn history_file_is_under_the_cache_directory() {
    assert_eq!(EntryHistory::file_path("/home/u", None), "/home/u/.cache/kedesktop/kelaunch");
    assert_eq!(EntryHistory::file_path("/home/u", Some("/tmp/c".to_string())), "/tmp/c/kedesktop/kelaunch");
}
