use kelaunch::entry::{exec_candidates, exec_command, parse, parse_keywords, parse_localized_key, strip_field_codes};
use kelaunch::locale::Locale;

fn cs(s: &str) -> Vec<char> {
    s.chars().collect()
}

fn st(v: &[char]) -> String {
    v.iter().collect()
}

fn en() -> Locale {
    Locale::new("en_US.UTF-8")
}

#[test]
fn parses_a_plain_application() {
    let content = "[Desktop Entry]\nType=Application\nName=Firefox\nExec=firefox %u\nKeywords=web;browser;\nTerminal=false\n";
    let e = parse(content, &en()).unwrap();
    assert_eq!(e.get_name(), "Firefox");
    assert_eq!(e.get_localized_name(), "Firefox");
    assert_eq!(e.get_exec(), "firefox");
    let kws: Vec<&str> = e.get_keywords().iter().map(|k| k.as_str()).collect();
    assert_eq!(kws, vec!["web", "browser", ""]);
    assert!(!e.is_terminal());
}

#[test]
fn trims_lines_keys_and_values() {
    let content = "  [Desktop Entry]  \r\n  Name  =  Htop Viewer \r\n Exec = htop \r\n Terminal = true\r\n";
    let e = parse(content, &en()).unwrap();
    assert_eq!(e.get_name(), "Htop Viewer");
    assert_eq!(e.get_exec(), "htop");
    assert!(e.is_terminal());
}

#[test]
fn ignores_other_groups_and_comments() {
    let content = "[Desktop Entry]\nName=Files\n# Name=Comment\nExec=nautilus\n[Desktop Action new-window]\nName=New Window\nExec=nautilus --new-window\n";
    let e = parse(content, &en()).unwrap();
    assert_eq!(e.get_name(), "Files");
    assert_eq!(e.get_exec(), "nautilus");
}

#[test]
fn keys_before_the_group_are_ignored() {
    let content = "Name=Early\nExec=early\n[Desktop Entry]\nName=Late\nExec=late\n";
    let e = parse(content, &en()).unwrap();
    assert_eq!(e.get_name(), "Late");
    assert!(parse("Name=A\nExec=a\n", &en()).is_none());
}

#[test]
fn rejects_what_cannot_be_launched() {
    let l = en();
    assert!(parse("[Desktop Entry]\nType=Link\nName=A\nExec=a\n", &l).is_none());
    assert!(parse("[Desktop Entry]\nName=A\nExec=a\nNoDisplay=true\n", &l).is_none());
    assert!(parse("[Desktop Entry]\nName=A\nExec=\n", &l).is_none());
    assert!(parse("[Desktop Entry]\nName=A\n", &l).is_none());
    assert!(parse("[Desktop Entry]\nExec=a\n", &l).is_none());
    assert!(parse("[Desktop Entry]\nName=\nExec=a\n", &l).is_none());
    assert!(parse("[Desktop Entry]\nName=A\nExec=%f\n", &l).is_none());
    assert!(parse("[Desktop Entry]\nName=A\nExec=\"\"\n", &l).is_none());
    assert!(parse("", &l).is_none());
    assert!(parse("[Desktop Entry]\nName=A\nExec=a\nNoDisplay=false\nType=Application\n", &l).is_some());
}

#[test]
fn later_keys_override_earlier_ones() {
    let e = parse("[Desktop Entry]\nName=A\nExec=a\nName=B\nExec=b --x\n", &en()).unwrap();
    assert_eq!(e.get_name(), "B");
    assert_eq!(e.get_exec(), "b --x");
}

#[test]
fn localized_keywords_replace_plain_ones_by_priority() {
    let l = Locale::new("de_DE.UTF-8");
    let content = "[Desktop Entry]\nName=Calculator\nName[de]=Rechner\nExec=calc\nKeywords[de]=rechnen;\nKeywords=math;\nKeywords[de_DE]=zahlen;\nKeywords[fr]=calcul;\n";
    let e = parse(content, &l).unwrap();
    let kws: Vec<&str> = e.get_keywords().iter().map(|k| k.as_str()).collect();
    assert_eq!(kws, vec!["zahlen", ""]);
    assert_eq!(e.get_name(), "Calculator");
    assert_eq!(e.get_localized_name(), "Calculator");
}

#[test]
fn exec_field_codes_and_quotes_are_removed() {
    let e = parse("[Desktop Entry]\nName=A\nExec=\"/opt/my app/run\" %F --name=%c %%x %z\n", &en()).unwrap();
    assert_eq!(e.get_exec(), "/opt/my app/run\"  --name= %x %z");
    assert_eq!(st(&strip_field_codes(&cs("app %u %U %%d %"))), "app   %d %");
    assert_eq!(st(&strip_field_codes(&cs("plain"))), "plain");
}

#[test]
fn keywords_are_split_at_semicolons_and_trimmed() {
    let kws = parse_keywords(&cs(" a ; b c ;;"));
    assert_eq!(kws, vec!["a".to_string(), "b c".to_string(), String::new(), String::new()]);
}

#[test]
fn localized_keys_split_into_base_and_tag() {
    let (base, tag) = parse_localized_key(&cs("Name[fr_FR]")).unwrap();
    assert_eq!(st(&base), "Name");
    assert_eq!(st(&tag), "fr_FR");
    let (base, tag) = parse_localized_key(&cs("Name[]")).unwrap();
    assert_eq!(st(&base), "Name");
    assert_eq!(st(&tag), "");
    assert!(parse_localized_key(&cs("Name[fr")).is_none());
    assert!(parse_localized_key(&cs("Name")).is_none());
}

#[test]
fn command_is_the_first_word() {
    assert_eq!(exec_command("  /usr/bin/env  FOO=1 app"), Some("/usr/bin/env".to_string()));
    assert_eq!(exec_command("firefox"), Some("firefox".to_string()));
    assert_eq!(exec_command(" \t "), None);
    assert_eq!(exec_command(""), None);
}

#[test]
fn commands_are_looked_up_on_the_path() {
    assert_eq!(exec_candidates("/bin/sh", "/usr/bin"), vec!["/bin/sh".to_string()]);
    assert_eq!(
        exec_candidates("sh", "/usr/bin:/bin/:"),
        vec!["/usr/bin/sh".to_string(), "/bin/sh".to_string(), "sh".to_string()]
    );
    assert_eq!(exec_candidates("sh", ""), vec!["sh".to_string()]);
}

#[test]
fn text_outside_the_entry_group_changes_nothing() {
    let l = en();
    let c = "[Desktop Entry]\nName=Mail\nExec=mail-client %U\nKeywords=email;\n";
    let wrapped = format!("Name=Before\nExec=before\n\n{c}\n[Desktop Action compose]\nName=Compose\nExec=mail-client --compose\nNoDisplay=true\n");
    let a = parse(c, &l).unwrap();
    let b = parse(&wrapped, &l).unwrap();
    assert_eq!(a.get_name(), b.get_name());
    assert_eq!(a.get_exec(), b.get_exec());
    assert_eq!(a.get_keywords(), b.get_keywords());
    assert_eq!(a.is_terminal(), b.is_terminal());
}
