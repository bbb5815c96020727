use quiet::config::{Config, RuleConfig};
use quiet::data::notification::Notification;

#[test]
fn test_gmail_rule_match_and_apply() {
    let config = Config::default();
    let mut notif = Notification::new(
        10,
        "Google Chrome".into(),
        "".into(),
        "New email from Alice".into(),
        "mail.google.com\nImportant meeting tomorrow".into(),
        vec![],
        1,
        -1,
    );

    let keys = config.apply_and_get_keys(&mut notif);
    assert_eq!(notif.app_name, "Gmail");
    assert_eq!(notif.app_icon, "gmail");
    assert_eq!(notif.body, "Important meeting tomorrow");
    assert!(notif.ignore_close);
    assert_eq!(keys, vec!["Gmail", "Important meeting tomorrow"]);
}

#[test]
fn test_notify_send_rule_match_and_apply() {
    let config = Config::default();
    let mut notif = Notification::new(
        11,
        "notify-send".into(),
        "".into(),
        "System Update".into(),
        "All packages upgraded".into(),
        vec![],
        1,
        -1,
    );

    let keys = config.apply_and_get_keys(&mut notif);
    assert_eq!(notif.app_name, "System Update");
    assert_eq!(notif.app_icon, "plugin-notification");
    assert!(notif.expires);
    assert_eq!(keys, vec!["System Update", "All packages upgraded"]);
    assert!(notif.expires_at.is_some());
}

#[test]
fn test_chrome_general_fallback_extraction() {
    let config = Config::default();
    let mut notif = Notification::new(
        12,
        "Google Chrome".into(),
        "".into(),
        "New PR Review".into(),
        "github.com\n\nUser requested review on PR #42".into(),
        vec![],
        1,
        -1,
    );

    let keys = config.apply_and_get_keys(&mut notif);
    assert_eq!(notif.app_name, "github.com");
    assert_eq!(notif.app_icon, "google-chrome");
    assert_eq!(notif.body, "User requested review on PR #42");
    assert_eq!(keys, vec!["github.com"]);
}

#[test]
fn test_independent_strip_body_lines() {
    let rule = RuleConfig {
        app_name: Some("test-app".into()),
        strip_body_lines: Some(2),
        ..Default::default()
    };
    let mut notif = Notification::new(
        13,
        "test-app".into(),
        "".into(),
        "Title".into(),
        "Line 1\nLine 2\nActual Message Here".into(),
        vec![],
        1,
        -1,
    );
    rule.apply(&mut notif);
    assert_eq!(notif.body, "Actual Message Here");
}

#[test]
fn unmatched_notification_is_grouped_by_app_and_body() {
    let config = Config::default();
    let mut notif = Notification::new(20, "slack".into(), "".into(), "Hi".into(), "there".into(), vec![], 1, -1);
    let keys = config.apply_and_get_keys(&mut notif);
    assert_eq!(notif.app_name, "slack");
    assert!(!notif.expires);
    assert_eq!(keys, vec!["slack", "there"]);
}

#[test]
fn empty_grouping_fields_become_placeholders() {
    let config = Config::default();
    let mut notif = Notification::new(21, "".into(), "".into(), "".into(), "".into(), vec![], 1, -1);
    let keys = config.apply_and_get_keys(&mut notif);
    assert_eq!(keys, vec!["_", "_"]);
}

#[test]
fn whatsapp_groups_by_sender_oldest_first() {
    let config = Config::default();
    let mut notif = Notification::new(
        22,
        "Google Chrome".into(),
        "".into(),
        "Mom".into(),
        "web.whatsapp.com\nDinner?".into(),
        vec![],
        1,
        -1,
    );
    let keys = config.apply_and_get_keys(&mut notif);
    assert_eq!(notif.app_name, "WhatsApp");
    assert_eq!(keys, vec!["WhatsApp", "Mom"]);
    assert_eq!(notif.sort_order, quiet::data::notification::SortOrder::OldestToNewest);
}

#[test]
fn the_builtin_rule_table() {
    let cfg = Config::default();
    assert_eq!(cfg.rules.len(), 8);
    let sites = [
        ("mail.google.com", "Gmail", "gmail", false),
        ("web.whatsapp.com", "WhatsApp", "whatsapp", true),
        ("chat.google.com", "Google Chat", "google-chat", true),
        ("meet.google.com", "Google Meet", "google-meet", false),
        ("x.com", "X", "twitter", false),
        ("www.instagram.com", "Instagram", "instagram", false),
    ];
    for (i, (site, name, icon, by_sender)) in sites.iter().enumerate() {
        let r = &cfg.rules[i];
        assert_eq!(r.app_name.as_deref(), Some("Google Chrome"));
        assert_eq!(r.body_prefix.as_deref(), Some(*site));
        assert_eq!(r.set_app_name.as_deref(), Some(*name));
        assert_eq!(r.set_app_icon.as_deref(), Some(*icon));
        assert_eq!(r.strip_body_lines, Some(1));
        assert_eq!(r.ignore_close, Some(true));
        assert_eq!(r.group_by.is_some(), *by_sender);
    }
    let chrome = &cfg.rules[6];
    assert_eq!(chrome.app_name.as_deref(), Some("Google Chrome"));
    assert_eq!(chrome.set_app_name_from_body_line, Some(0));
    assert_eq!(chrome.set_app_icon.as_deref(), Some("google-chrome"));
    assert_eq!(chrome.ignore_close, None);
    let ns = &cfg.rules[7];
    assert_eq!(ns.app_name.as_deref(), Some("notify-send"));
    assert_eq!(ns.set_app_name_from_summary, Some(true));
    assert_eq!(ns.set_expires, Some(true));
    assert_eq!(ns.expire_timeout_ms, Some(5000));
}
