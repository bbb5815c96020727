use quiet::icon::desktop::{
    desktop_candidates, is_fallback_match, lookup_desktop_entry, parse_desktop_content, reverse_dns_suffix,
    resolve_identity, unescape_desktop_val, xdg_application_dirs, DesktopCache, DesktopEntry,
};
use std::cell::Cell;

#[test]
fn test_reverse_dns_desktop_entry_resolution() {
    assert_eq!(reverse_dns_suffix("org.gnome.Calculator.desktop"), "calculator");
}

#[test]
fn test_parse_desktop_file_with_escapes() {
    let content = r#"
[Desktop Entry]
Name=Slack\sDesktop
Comment=Slack Desktop App
Exec=/usr/bin/slack %U
Icon=slack
Type=Application
StartupWMClass=Slack
"#;
    let entry = parse_desktop_content(content).expect("Failed to parse desktop file");
    assert_eq!(entry.name, "Slack Desktop");
    assert_eq!(entry.icon, "slack");
    assert_eq!(entry.startup_wm_class.as_deref(), Some("Slack"));
}

#[test]
fn test_hidden_desktop_file_ignored() {
    let content = "\n[Desktop Entry]\nName=OldApp\nIcon=old-icon\nHidden=true\n";
    assert!(parse_desktop_content(content).is_none());
}

#[test]
fn other_groups_and_later_keys_are_ignored() {
    let content = "# comment\nName=Outside\n[Desktop Action new]\nName=Action\n[Desktop Entry]\nName = First \nName=Second\nIcon=\"quoted\"\nHidden=FALSE\n";
    let e = parse_desktop_content(content).unwrap();
    assert_eq!(e.name, "First");
    assert_eq!(e.icon, "quoted");
    assert_eq!(e.startup_wm_class, None);
    assert!(parse_desktop_content("[Desktop Entry]\nName=NoIcon\n").is_none());
    assert!(parse_desktop_content("[Desktop Entry]\r\nName=A\r\nIcon=b\r\nHidden=TRUE\r\n").is_none());
}

#[test]
fn unescape_decodes_in_one_pass() {
    assert_eq!(unescape_desktop_val("  \"a\\sb\"  "), "a b");
    assert_eq!(unescape_desktop_val("Slack\\sDesktop"), "Slack Desktop");
    assert_eq!(unescape_desktop_val("x\\ny\\tz\\r"), "x\ny\tz\r");
    // `\\` is one backslash and does not start a following `\s`
    assert_eq!(unescape_desktop_val(r"a\\s"), r"a\s");
    assert_eq!(unescape_desktop_val("back\\\\slash"), "back\\slash");
    assert_eq!(unescape_desktop_val("a\\\\b"), "a\\b");
    // an unknown escape and a final backslash stand for themselves
    assert_eq!(unescape_desktop_val(r"a\xb\"), r"a\xb\");
    assert_eq!(unescape_desktop_val("\"\"\""), "");
}

#[test]
fn candidate_names() {
    let c = desktop_candidates("Google Chrome");
    assert_eq!(c.filename, "Google Chrome.desktop");
    assert_eq!(c.lower_name, "google chrome.desktop");
    assert_eq!(c.hyphenated, "google-chrome.desktop");
    assert_eq!(c.stripped_filename, "google chrome.desktop");
    let c = desktop_candidates("org.gnome.Calculator.desktop");
    assert_eq!(c.filename, "org.gnome.Calculator.desktop");
    assert_eq!(c.stripped_filename, "calculator.desktop");
    assert!(is_fallback_match(&c, "Calculator.desktop"));
    assert!(!is_fallback_match(&c, "calc.desktop"));
}

#[test]
fn lookups_are_remembered_misses_included() {
    let calls = Cell::new(0);
    let resolve = |id: &str| {
        calls.set(calls.get() + 1);
        if id == "slack" {
            Some(DesktopEntry { name: "Slack".into(), icon: "slack".into(), startup_wm_class: None })
        } else {
            None
        }
    };
    let mut cache = DesktopCache::new();
    assert_eq!(lookup_desktop_entry(&mut cache, "", &resolve), None);
    assert_eq!(calls.get(), 0);
    let e = lookup_desktop_entry(&mut cache, " slack ", &resolve).unwrap();
    assert_eq!(e.name, "Slack");
    assert_eq!(calls.get(), 1);
    let e = lookup_desktop_entry(&mut cache, "slack", &resolve).unwrap();
    assert_eq!(e.icon, "slack");
    assert_eq!(calls.get(), 1);
    assert_eq!(lookup_desktop_entry(&mut cache, "nope", &resolve), None);
    assert_eq!(lookup_desktop_entry(&mut cache, "nope", &resolve), None);
    assert_eq!(calls.get(), 2);
}

#[test]
fn xdg_data_dirs_give_their_application_folders() {
    assert_eq!(
        xdg_application_dirs("/usr/local/share:/usr/share/"),
        vec!["/usr/local/share/applications".to_string(), "/usr/share/applications".to_string()]
    );
    assert_eq!(xdg_application_dirs("::/opt/data::"), vec!["/opt/data/applications".to_string()]);
    assert!(xdg_application_dirs("").is_empty());
    assert!(xdg_application_dirs(":::").is_empty());
    assert_eq!(xdg_application_dirs("relative"), vec!["relative/applications".to_string()]);
}

fn known_entries(id: &str) -> Option<DesktopEntry> {
    match id {
        "org.gnome.Calc" => Some(DesktopEntry { name: "Calculator".into(), icon: "calc-icon".into(), startup_wm_class: None }),
        "Slack" => Some(DesktopEntry { name: "Slack".into(), icon: "slack".into(), startup_wm_class: None }),
        _ => None,
    }
}

fn resolve(app: &str, icon: &str, raw: Option<&str>, hint: Option<&str>, path: Option<&str>) -> (String, String) {
    resolve_identity(
        app.into(),
        icon.into(),
        raw.map(String::from),
        hint.map(String::from),
        path.map(String::from),
        &known_entries,
    )
}

#[test]
fn identity_of_incoming_notifications() {
    assert_eq!(resolve("X", "", Some("raw-image:5"), Some("org.gnome.Calc"), None), ("X".into(), "raw-image:5".into()));
    assert_eq!(resolve("", "", None, Some("org.gnome.Calc"), None), ("Calculator".into(), "calc-icon".into()));
    assert_eq!(resolve("", "given", None, Some("org.gnome.Calc"), None), ("Calculator".into(), "given".into()));
    assert_eq!(resolve("Slack", "", None, None, None), ("Slack".into(), "slack".into()));
    assert_eq!(resolve("Slack", "", None, Some("nothing.here"), Some("/tmp/i.png")), ("Slack".into(), "slack".into()));
    assert_eq!(resolve("Unknown", "", None, None, Some("/tmp/i.png")), ("Unknown".into(), "/tmp/i.png".into()));
    assert_eq!(resolve("", "", None, None, None), ("".into(), "".into()));
    assert_eq!(resolve("App", "icon", None, Some("org.gnome.Calc"), Some("/tmp/i.png")), ("App".into(), "icon".into()));
}
