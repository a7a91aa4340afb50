use kelaunch::collection::{match_span, EntryCollection};
use kelaunch::entry::parse;
use kelaunch::history::EntryHistory;
use kelaunch::locale::Locale;

fn collection(apps: &[(&str, &str)]) -> EntryCollection {
    let l = Locale::new("en_US.UTF-8");
    let entries = apps
        .iter()
        .map(|(name, keywords)| {
            let text = format!("[Desktop Entry]\nName={name}\nExec=run-{}\nKeywords={keywords}\n", name.len());
            parse(&text, &l).unwrap()
        })
        .collect();
    EntryCollection::from_entries(entries)
}

#[test]
fn span_is_the_distance_of_the_greedy_match() {
    assert_eq!(match_span("Firefox", "fire"), Some(3));
    assert_eq!(match_span("Firefox", "ffx"), Some(6));
    assert_eq!(match_span("a x a b", "ab"), Some(6));
    assert_eq!(match_span("Firefox", "xf"), None);
    assert_eq!(match_span("Firefox", ""), Some(0));
    assert_eq!(match_span("   ", ""), None);
    assert_eq!(match_span("", "a"), None);
    assert_eq!(match_span("ÉCRAN", "écr"), Some(2));
}

#[test]
fn fuzzy_match_is_subsequence_matching() {
    let h = "Visual Studio Code";
    for q in ["vsc", "code", "studio", "vs code", "sdc", "v"] {
        assert!(match_span(h, q).is_some(), "{q}");
    }
    for q in ["cv", "codes", "zz"] {
        assert!(match_span(h, q).is_none(), "{q}");
    }
}

#[test]
fn empty_query_picks_the_last_most_launched_entry() {
    let c = collection(&[("A", ""), ("B", ""), ("C", "")]);
    let h = EntryHistory::parse("3 A\n3 C\n1 B\n");
    assert_eq!(c.search("", &h), Some(2));
    let h = EntryHistory::parse("");
    assert_eq!(c.search("", &h), Some(2));
    let empty = EntryCollection::from_entries(Vec::new());
    assert_eq!(empty.search("", &h), None);
    assert_eq!(empty.search("a", &h), None);
}

#[test]
fn tighter_match_wins_and_ties_keep_the_first() {
    let c = collection(&[("Terminal", ""), ("Text Editor", ""), ("Tetris", "")]);
    let h = EntryHistory::parse("");
    assert_eq!(c.search("te", &h), Some(0));
    assert_eq!(c.search("tet", &h), Some(2));
    assert_eq!(c.search("edit", &h), Some(1));
    assert_eq!(c.search("qqq", &h), None);
}

#[test]
fn keywords_match_too() {
    let c = collection(&[("Firefox", "web;browser"), ("Files", "folder;explorer")]);
    let h = EntryHistory::parse("");
    assert_eq!(c.search("browser", &h), Some(0));
    assert_eq!(c.search("explorer", &h), Some(1));
}

#[test]
fn launches_outweigh_looser_matches() {
    let c = collection(&[("Gedit", ""), ("Google Earth", "")]);
    let none = EntryHistory::parse("");
    assert_eq!(c.search("ge", &none), Some(0));
    // "Google Earth": span 5 -> 500 - 20 * 30 = 0 (not below 0), beats "Gedit" at 100.
    let used = EntryHistory::parse("20 Google Earth\n");
    assert_eq!(c.search("ge", &used), Some(1));
}

#[test]
fn only_the_first_entry_of_a_name_is_searched() {
    let c = collection(&[("Editor", "alpha"), ("Editor", "beta"), ("Other", "beta")]);
    let h = EntryHistory::parse("");
    assert_eq!(c.search("beta", &h), Some(2));
    assert_eq!(c.search("editor", &h), Some(0));
}

#[test]
fn query_is_lower_cased_as_a_whole() {
    let c = collection(&[("Firefox", "")]);
    let h = EntryHistory::parse("");
    assert_eq!(c.search("FIRE", &h), Some(0));
    // "İ" lower-cases to "i" followed by a combining dot, which "ix" lacks.
    let d = collection(&[("ix", "")]);
    assert_eq!(d.search("İ", &h), None);
    assert_eq!(d.search("I", &h), Some(0));
}

#[test]
fn collection_keeps_the_entries_in_order() {
    let c = collection(&[("A", ""), ("B", "")]);
    assert_eq!(c.len(), 2);
    assert_eq!(c.get(1).get_name(), "B");
    assert_eq!(c.get(0).get_exec(), "run-1");
}

#[test]
fn application_dirs_follow_the_xdg_variables() {
    let dirs = EntryCollection::applications_dirs("/home/u", None, None);
    assert_eq!(
        dirs,
        vec![
            "/home/u/.local/share/applications",
            "/usr/local/share/applications",
            "/usr/share/applications",
            "/var/lib/flatpak/exports/share/applications",
            "/home/u/.local/share/flatpak/exports/share/applications",
        ]
    );
    let dirs = EntryCollection::applications_dirs(
        "/h",
        Some("/usr/share".to_string()),
        Some(":/usr/share::/opt/share:/var/lib/flatpak/exports/share:".to_string()),
    );
    assert_eq!(
        dirs,
        vec![
            "/usr/share/applications",
            "/opt/share/applications",
            "/var/lib/flatpak/exports/share/applications",
            "/h/.local/share/flatpak/exports/share/applications",
        ]
    );
    let dirs = EntryCollection::applications_dirs("/h", Some(String::new()), Some(String::new()));
    assert_eq!(
        dirs,
        vec![
            "/var/lib/flatpak/exports/share/applications",
            "/h/.local/share/flatpak/exports/share/applications",
        ]
    );
}

#[test]
fn search_ignores_case_of_the_query() {
    let c = collection(&[("Files", ""), ("Firefox", ""), ("Fish", "")]);
    let h = EntryHistory::parse("4 Fish\n");
    for (a, b) in [("FI", "fi"), ("FiR", "fir"), ("FISH", "fish"), ("", "")] {
        assert_eq!(c.search(a, &h), c.search(b, &h), "{a} {b}");
    }
}

#[test]
fn prefixes_of_a_matching_query_match() {
    let q = "vscd";
    assert!(match_span("Visual Studio Code", q).is_some());
    for k in 0..=q.len() {
        assert!(match_span("Visual Studio Code", &q[..k]).is_some());
    }
}
