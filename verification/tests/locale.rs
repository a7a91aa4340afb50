use kelaunch::locale::Locale;

#[test]
fn priority_prefers_the_most_specific_match() {
    let l = Locale::new("fr_FR.UTF-8");
    assert_eq!(l.priority("fr_FR.UTF-8"), Some(2));
    assert_eq!(l.priority("fr_FR"), Some(1));
    assert_eq!(l.priority("fr_FR.ISO-8859-1"), Some(1));
    assert_eq!(l.priority("fr"), Some(0));
    assert_eq!(l.priority("fr_CA"), Some(0));
    assert_eq!(l.priority("de"), None);
    assert_eq!(l.priority(""), None);
}

#[test]
fn own_locale_tag_has_top_priority() {
    let l = Locale::new("de_AT@euro");
    assert_eq!(l.priority("de_AT@euro"), Some(2));
    assert_eq!(l.priority("de"), Some(0));
}

#[test]
fn empty_locale_matches_only_the_empty_tag() {
    let l = Locale::new("");
    assert_eq!(l.priority(""), Some(2));
    assert_eq!(l.priority("en"), None);
}

#[test]
fn from_values_takes_the_first_non_empty_value() {
    let l = Locale::from_values(&[None, Some(String::new()), Some("pt_BR.UTF-8".to_string())]);
    assert_eq!(l.priority("pt_BR"), Some(1));
    assert_eq!(l.priority("pt"), Some(0));
    let none = Locale::from_values(&[None, None, None]);
    assert_eq!(none.priority(""), Some(2));
    assert_eq!(none.priority("pt"), None);
    let first = Locale::from_values(&[Some("C".to_string()), Some("de_DE".to_string())]);
    assert_eq!(first.priority("C"), Some(2));
    assert_eq!(first.priority("de"), None);
}
