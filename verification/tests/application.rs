use kelaunch::application::{is_word_bound, Application, KeyCode, KeyInput, LaunchAction};
use kelaunch::collection::EntryCollection;
use kelaunch::entry::parse;
use kelaunch::history::EntryHistory;
use kelaunch::locale::Locale;
use kelaunch::theme::Theme;
use kelaunch::ui::AppUI;

fn app(history: &str) -> Application {
    let l = Locale::new("en_US.UTF-8");
    let files = [
        "[Desktop Entry]\nName=Firefox Web Browser\nExec=firefox %u\n",
        "[Desktop Entry]\nName=htop\nExec=htop\nTerminal=true\n",
        "[Desktop Entry]\nName=Files\nExec=nautilus\n",
    ];
    let entries = files.iter().map(|f| parse(f, &l).unwrap()).collect();
    Application::new(Theme::default(), EntryCollection::from_entries(entries), EntryHistory::parse(history))
}

fn key(c: char) -> KeyInput {
    KeyInput { code: KeyCode::Char(c), control: false }
}

fn ctrl(code: KeyCode) -> KeyInput {
    KeyInput { code, control: true }
}

fn plain(code: KeyCode) -> KeyInput {
    KeyInput { code, control: false }
}

#[test]
fn typing_searches() {
    let mut a = app("");
    assert_eq!(a.query(), "");
    assert_eq!(a.result(), None);
    assert!(a.handle_key(key('h')));
    assert!(a.handle_key(key('t')));
    assert_eq!(a.query(), "ht");
    assert_eq!(a.result(), Some(1));
    assert!(a.handle_key(plain(KeyCode::Backspace)));
    assert_eq!(a.query(), "h");
    assert!(a.handle_key(plain(KeyCode::Backspace)));
    assert!(a.handle_key(plain(KeyCode::Backspace)));
    assert_eq!(a.query(), "");
    assert_eq!(a.result(), Some(2));
}

#[test]
fn control_keys_edit_the_query() {
    let mut a = app("");
    for c in "web brow".chars() {
        a.handle_key(key(c));
    }
    assert!(a.handle_key(ctrl(KeyCode::Char('h'))));
    assert_eq!(a.query(), "web ");
    assert!(a.handle_key(ctrl(KeyCode::Backspace)));
    assert_eq!(a.query(), "web");
    assert!(a.handle_key(ctrl(KeyCode::Char('x'))));
    assert_eq!(a.query(), "web");
    assert!(a.handle_key(ctrl(KeyCode::Char('u'))));
    assert_eq!(a.query(), "");
}

#[test]
fn tab_completes_the_selected_name() {
    let mut a = app("");
    a.handle_key(key('f'));
    a.handle_key(key('i'));
    a.handle_key(key('r'));
    assert_eq!(a.result(), Some(0));
    assert!(a.handle_key(plain(KeyCode::Tab)));
    assert_eq!(a.query(), "Firefox Web Browser");
    assert_eq!(a.result(), Some(0));
    let mut b = app("");
    b.handle_key(key('z'));
    assert_eq!(b.result(), None);
    assert!(b.handle_key(plain(KeyCode::Tab)));
    assert_eq!(b.query(), "z");
}

#[test]
fn closing_keys() {
    let mut a = app("");
    a.handle_key(key('h'));
    assert_eq!(a.result(), Some(1));
    assert!(!a.handle_key(plain(KeyCode::Enter)));
    assert_eq!(a.result(), Some(1));
    assert!(!a.handle_key(plain(KeyCode::Esc)));
    assert_eq!(a.result(), None);
    let mut b = app("");
    b.handle_key(key('h'));
    assert!(!b.handle_key(ctrl(KeyCode::Char('q'))));
    assert_eq!(b.result(), None);
    assert!(b.handle_key(plain(KeyCode::Other)));
    assert_eq!(b.query(), "h");
}

#[test]
fn launch_action_depends_on_terminal() {
    let mut a = app("");
    assert!(!a.launch_action().exits_launcher());
    match a.launch_action() {
        LaunchAction::Nothing => {}
        _ => panic!("nothing is selected"),
    }
    a.handle_key(key('h'));
    match a.launch_action() {
        LaunchAction::ReplaceProcess { command } => assert_eq!(command, "htop"),
        _ => panic!("htop runs in a terminal"),
    }
    assert!(!a.launch_action().exits_launcher());
    a.handle_key(ctrl(KeyCode::Char('u')));
    a.handle_key(key('f'));
    a.handle_key(key('i'));
    a.handle_key(key('r'));
    match a.launch_action() {
        LaunchAction::Spawn { command } => assert_eq!(command, "firefox"),
        _ => panic!("firefox is spawned"),
    }
    assert!(a.launch_action().exits_launcher());
    assert_eq!(a.theme().prompt_str, "> ");
}

#[test]
fn recording_a_launch_counts_it() {
    let mut a = app("2 Files\n");
    a.handle_key(key('f'));
    a.handle_key(key('i'));
    a.handle_key(key('l'));
    assert_eq!(a.result(), Some(2));
    a.record_launch();
    assert_eq!(a.history().usage("Files"), 3);
    assert_eq!(a.history().to_text(), "3 Files\n");
    let mut b = app("");
    b.record_launch();
    assert_eq!(b.history().to_text(), "");
}

#[test]
fn word_bounds_are_spaces_and_punctuation() {
    for c in [' ', '\t', '\u{3000}', '.', '-', '_', '/', '~'] {
        assert!(is_word_bound(c), "{c:?}");
    }
    for c in ['a', 'Z', '0', 'é', '€'] {
        assert!(!is_word_bound(c), "{c:?}");
    }
}

#[test]
fn delete_last_word_removes_one_run() {
    let mut a = app("");
    for c in "foo.bar--".chars() {
        a.handle_key(key(c));
    }
    a.delete_last_word();
    assert_eq!(a.query(), "foo.bar");
    a.delete_last_word();
    assert_eq!(a.query(), "foo.");
    a.delete_last_word();
    assert_eq!(a.query(), "foo");
    a.delete_last_word();
    assert_eq!(a.query(), "");
    a.delete_last_word();
    assert_eq!(a.query(), "");
}

#[test]
fn theme_defaults_and_cursor() {
    let t = Theme::default();
    assert_eq!(t.prompt_str, "> ");
    assert_eq!(t.placeholder_str, "search...");
    assert_eq!(t.prompt.fg, 0x768fa2);
    assert!(t.prompt.bold);
    assert_eq!(t.padding_list, (3, 3, 1, 0));
    assert_eq!(t.padding_search, (2, 2, 1, 0));
    assert_eq!(t.search_bar_height, 2);
    let ui = AppUI::new();
    assert_eq!(ui.cursor_position(0, 22, &t, "héllo"), (9, 23));
}

#[test]
fn plan_lays_out_the_screen() {
    let a = app("");
    let t = Theme::default();
    let ui = AppUI::new();
    let p = ui.plan((0, 0, 80, 24), &t, a.entries(), Some(1), "hé").unwrap();
    assert_eq!(p.list_area, (0, 0, 80, 22));
    assert_eq!(p.search_area, (0, 22, 80, 2));
    assert_eq!(p.item.as_deref(), Some("htop"));
    assert!(!p.show_placeholder);
    assert_eq!(p.cursor, (6, 23));
    let empty = ui.plan((0, 0, 80, 24), &t, a.entries(), None, "").unwrap();
    assert!(empty.item.is_none());
    assert!(empty.show_placeholder);
    assert_eq!(empty.cursor, (4, 23));
    assert!(ui.plan((65530, 0, 80, 24), &t, a.entries(), None, "hé").is_none());
}
