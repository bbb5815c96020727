// Requests as the daemon makes them: the id is chosen, the hints are read, the
// notification is built and filed; effects stand for the signals and commands the
// daemon performs.
use quiet::config::Config;
use quiet::data::notification::Notification;
use quiet::data::urgency::{extract_urgency, hint_flag, HintValue};
use quiet::engine::{capabilities, server_information, Effect, Engine, UiEvent};
use quiet::icon::{decode_image_data, raw_image_key, IconCache};

struct Hints {
    urgency: Option<HintValue>,
    resident: Option<HintValue>,
    transient: Option<HintValue>,
}

fn no_hints() -> Hints {
    Hints { urgency: None, resident: None, transient: None }
}

fn urgency_hint(u: u8) -> Hints {
    Hints { urgency: Some(HintValue::U8(u)), resident: None, transient: None }
}

#[allow(clippy::too_many_arguments)]
fn notify(
    e: &mut Engine,
    app_name: &str,
    replaces_id: u32,
    app_icon: &str,
    summary: &str,
    body: &str,
    actions: Vec<String>,
    hints: Hints,
    expire_timeout: i32,
) -> (u32, Vec<Effect>) {
    let urgency = extract_urgency(hints.urgency.as_ref());
    let id = e.allocate_id(replaces_id);
    let mut n = Notification::new(id, app_name.into(), app_icon.into(), summary.into(), body.into(), actions, urgency, expire_timeout);
    n.resident = hint_flag(hints.resident.as_ref());
    n.transient = hint_flag(hints.transient.as_ref());
    let now = n.created_at;
    let effects = e.notify(n, now);
    (id, effects)
}

fn dump_texts(e: &Engine) -> Vec<String> {
    e.dump_list()
        .iter()
        .map(|n| format!("{} | {} | {} | {:?}", n.app_name, n.summary, n.body, n.keys))
        .collect()
}

fn dump_contains(e: &Engine, s: &str) -> bool {
    dump_texts(e).iter().any(|t| t.contains(s))
}

#[test]
fn test_engine_full_lifecycle() {
    let mut e = Engine::new(Config::default(), true);

    let (name, vendor, version, spec) = server_information();
    assert_eq!(name, "quiet");
    assert_eq!(vendor, "quiet-project");
    assert_eq!(spec, "1.2");
    assert!(!version.is_empty());

    let caps = capabilities();
    assert!(caps.contains(&"actions".to_string()));
    assert!(caps.contains(&"body".to_string()));
    assert!(caps.contains(&"persistence".to_string()));

    let (notif1_id, _) = notify(&mut e, "slack", 0, "", "Alice", "Hello from Slack", vec!["default".into(), "Open".into()], urgency_hint(1), -1);
    assert_eq!(notif1_id, 1);
    assert_eq!(e.count(), (1, 1));

    let (notif2_id, _) = notify(&mut e, "monitor", 0, "", "High CPU", "CPU reached 99%", vec![], urgency_hint(2), -1);
    assert_eq!(notif2_id, 2);
    assert_eq!(e.count(), (2, 2));

    let (notif3_id, _) = notify(&mut e, "Google Chrome", 0, "", "Meeting", "mail.google.com\nCalendar invite", vec![], no_hints(), -1);
    assert_eq!(notif3_id, 3);

    assert!(dump_contains(&e, "Hello from Slack"));
    assert!(dump_contains(&e, "CPU reached 99%"));
    assert!(dump_contains(&e, "Gmail"));

    e.close_notification(notif2_id, 3);
    assert_eq!(e.count(), (2, 1));

    let (timed_id, effects) = notify(&mut e, "notify-send", 0, "", "Transient", "Will expire quickly", vec![], no_hints(), 150);
    assert_eq!(timed_id, 4);
    assert!(effects.iter().any(|x| matches!(x, Effect::ScheduleExpiry { id: 4, delay_ms: 150 })));
    assert_eq!(e.count().0, 3);
    e.expire(timed_id);
    assert_eq!(e.count().0, 2);

    let (notif_id, _) = notify(&mut e, "", 0, "", "Direct Mention", "Hello from Slack thread", vec![], no_hints(), -1);
    assert_eq!(notif_id, 5);
}

#[test]
fn test_replaces_id_preservation_and_update() {
    let mut e = Engine::new(Config::default(), true);
    let (id1, _) = notify(&mut e, "custom", 100, "", "Initial", "Initial body", vec![], no_hints(), -1);
    assert_eq!(id1, 100);
    let (id2, _) = notify(&mut e, "custom", 100, "", "Updated", "Updated body", vec![], no_hints(), -1);
    assert_eq!(id2, 100);
    assert_eq!(e.count().0, 1);
    assert!(dump_contains(&e, "Updated body"));
    assert!(!dump_contains(&e, "Initial body"));
    let (id3, _) = notify(&mut e, "custom", 0, "", "Another", "Another body", vec![], no_hints(), -1);
    assert_eq!(id3, 1);
    assert_eq!(e.count().0, 2);
}

#[test]
fn test_ignore_close_client_dismiss() {
    let mut e = Engine::new(Config::default(), true);
    let (notif_id, _) = notify(&mut e, "Google Chrome", 0, "", "Gmail Notification", "mail.google.com\nNew message received", vec![], no_hints(), -1);
    assert_eq!(e.count().0, 1);
    e.close_notification(notif_id, 3);
    assert_eq!(e.count().0, 1, "Notification with ignore_close should not be closed with reason 3");
    e.close_notification(notif_id, 2);
    assert_eq!(e.count().0, 0, "Notification should be closed when reason is not 3");
}

#[test]
fn test_delete_group_auto_descended() {
    let mut e = Engine::new(Config::default(), true);
    for i in 1..=2 {
        notify(&mut e, "slack", 0, "", &format!("msg {i}"), "body", vec![], no_hints(), -1);
    }
    assert_eq!(e.count().0, 2);
    e.handle_ui_event(UiEvent::DeleteGroup("slack".into()));
    assert_eq!(e.count().0, 0, "Deleting group should remove all items in the auto-descended branch");
}

#[test]
fn test_image_data_hint_decoding() {
    let raw_pixels: Vec<u8> = vec![255, 0, 0, 255, 0, 255, 0, 255, 0, 0, 255, 255, 255, 255, 255, 255];
    let pixels = decode_image_data(2, 2, 8, true, 8, 4, &raw_pixels).expect("2x2 RGBA image must decode");
    assert_eq!(pixels, vec![(255, 0, 0, 255), (0, 255, 0, 255), (0, 0, 255, 255), (255, 255, 255, 255)]);

    let mut e = Engine::new(Config::default(), true);
    let mut icons = IconCache::new(None, 32);
    let id = e.allocate_id(0);
    let key = raw_image_key(id);
    let pixmap = tiny_skia::Pixmap::new(icons.target_size(), icons.target_size()).unwrap();
    icons.insert_pixmap(key.clone(), pixmap);
    let n = Notification::new(id, "test-app".into(), key.clone(), "Raw Image Test".into(), "Has custom image-data".into(), vec![], 1, -1);
    e.notify(n, 0);
    let cached = icons.get(&format!("raw-image:{}", id), &|_: &str, _: Option<&str>, _: u32| None);
    assert!(cached.is_some(), "Raw image should be decoded and inserted into icon cache");
    let pixmap = cached.unwrap();
    assert_eq!(pixmap.width(), 32);
    assert_eq!(pixmap.height(), 32);
}

#[test]
fn test_resident_hint_preserves_notification() {
    let mut e = Engine::new(Config::default(), true);
    let hints = Hints { urgency: None, resident: Some(HintValue::Bool(true)), transient: None };
    let (id, _) = notify(&mut e, "player", 0, "", "Now Playing", "Song title", vec!["pause".into(), "Pause".into()], hints, -1);
    assert_eq!(e.count().0, 1);
    e.handle_ui_event(UiEvent::ActionInvoked { id, action_key: "pause".into() });
    assert_eq!(e.count().0, 1, "Resident notification must not be closed on action invocation");
    e.close_notification(id, 2);
    assert_eq!(e.count().0, 0);
}

#[test]
fn test_transient_hint_dump_exclusion() {
    let mut e = Engine::new(Config::default(), true);
    notify(&mut e, "normal-app", 0, "", "Persistent Notification", "Should be saved to dump", vec![], no_hints(), -1);
    let hints = Hints { urgency: None, resident: None, transient: Some(HintValue::Bool(true)) };
    notify(&mut e, "transient-app", 0, "", "Ephemeral Alert", "Must not be saved to disk", vec![], hints, -1);
    assert!(dump_contains(&e, "Persistent Notification"), "Persistent notification must be in dump");
    assert!(!dump_contains(&e, "Ephemeral Alert"), "Transient notification must be excluded from dump");
}

#[test]
fn test_max_notifications_eviction() {
    let mut config = Config::default();
    config.behavior.max_notifications = 5;
    let mut e = Engine::new(config, true);
    for i in 1..=7 {
        notify(&mut e, "burst", 0, "", &format!("Notification {}", i), &format!("Body {}", i), vec![], no_hints(), -1);
    }
    assert_eq!(e.count().0, 5, "Notification count must be bounded by max_notifications (5)");
    assert!(!dump_contains(&e, "Notification 1"), "Oldest notification 1 should be evicted");
    assert!(!dump_contains(&e, "Notification 2"), "Oldest notification 2 should be evicted");
    assert!(dump_contains(&e, "Notification 7"), "Latest notification 7 should be present");
}

#[test]
fn test_populate_gmail_whatsapp_ungrouped() {
    let mut e = Engine::new(Config::default(), true);
    let samples: Vec<(&str, &str, &str, &str, u8)> = vec![
        ("Google Chrome", "gmail", "Alice Smith", "mail.google.com\nHey, let's review the Q4 architecture plan.", 1),
        ("Google Chrome", "gmail", "Bob Jones", "mail.google.com\nTeam sync tomorrow at 10:00 AM", 1),
        ("Google Chrome", "gmail", "GitHub Notifications", "mail.google.com\n[quiet] 3 new comments on PR #42", 1),
        ("Google Chrome", "whatsapp", "Mom", "web.whatsapp.com\nAre you coming over for dinner on Sunday?", 1),
        ("Google Chrome", "whatsapp", "Mom", "web.whatsapp.com\nLet me know so I can cook your favorites!", 1),
        ("Google Chrome", "whatsapp", "Dev Team", "web.whatsapp.com\nDeployment to production is complete", 1),
        ("Spotify", "spotify", "Daft Punk", "Get Lucky (feat. Pharrell Williams)", 1),
        ("Alacritty", "utilities-terminal", "Cargo Build", "Finished release target(s)", 1),
        ("Power Manager", "battery-caution", "Battery Low", "Battery level is at 18%", 2),
    ];
    for (app, icon, summary, body, urgency) in samples {
        notify(&mut e, app, 0, icon, summary, body, vec![], urgency_hint(urgency), -1);
    }
    assert_eq!(e.count().0, 9, "Expected 9 total notifications");
    assert_eq!(e.count().1, 2, "Expected highest urgency = 2 (critical)");

    let effects = e.toggle_ui();
    assert!(matches!(effects[0], Effect::OpenUi));
    let (items, context) = e.ui_snapshot();
    assert!(context.is_empty(), "Initial context should be root");
    let gmail = items.iter().find(|i| i.app_name.contains("Gmail")).expect("Gmail group must exist at root");
    assert!(gmail.is_group, "Gmail should be displayed as group");
    assert_eq!(gmail.count, 3, "Gmail group must have count 3");
    let whatsapp = items.iter().find(|i| i.app_name.contains("WhatsApp")).expect("WhatsApp group must exist at root");
    assert!(whatsapp.is_group, "WhatsApp should be displayed as group");
    assert_eq!(whatsapp.count, 3, "WhatsApp group must have count 3");
    let spotify = items.iter().find(|i| i.app_name == "Spotify").expect("Spotify leaf must exist at root");
    assert!(!spotify.is_group, "Spotify should NOT be a group");
    assert_eq!(spotify.count, 1);
    let alacritty = items.iter().find(|i| i.app_name == "Alacritty").expect("Alacritty leaf must exist at root");
    assert!(!alacritty.is_group);
    let power = items.iter().find(|i| i.app_name == "Power Manager").expect("Power Manager leaf must exist at root");
    assert!(!power.is_group);
    assert_eq!(power.urgency, 2, "Power Manager notification must have urgency 2");

    let effects = e.handle_ui_event(UiEvent::EnterGroup("Gmail".into()));
    assert!(matches!(effects[0], Effect::RefreshUi));
    let (items, context) = e.ui_snapshot();
    assert_eq!(context, vec!["Gmail".to_string()]);
    assert_eq!(items.len(), 3, "Descending into Gmail should show all 3 emails");
    for item in &items {
        assert_eq!(item.app_name, "Gmail");
    }
}

#[test]
fn test_single_group_auto_expand_and_backspace_to_delete() {
    let mut e = Engine::new(Config::default(), true);
    for i in 1..=3 {
        notify(&mut e, "Google Chrome", 0, "gmail", &format!("Sender {}", i), &format!("mail.google.com\nEmail body {}", i), vec![], no_hints(), -1);
    }
    let effects = e.toggle_ui();
    assert!(matches!(effects[0], Effect::OpenUi));
    let (items, context) = e.ui_snapshot();
    assert_eq!(context, vec!["Gmail".to_string()], "Single group must auto-expand on open");
    assert_eq!(items.len(), 3, "Opened view must show the 3 individual notifications inside the group");
    for item in &items {
        assert_eq!(item.app_name, "Gmail");
        assert!(!item.is_group);
    }

    let effects = e.handle_ui_event(UiEvent::LeaveGroup);
    assert!(matches!(effects[0], Effect::RefreshUi));
    let (items, context) = e.ui_snapshot();
    assert!(context.is_empty(), "Backspace must come a level up to root");
    assert_eq!(items.len(), 1, "Root should display the single group");
    assert!(items[0].is_group, "Root item must be a group");
    assert_eq!(items[0].key, "Gmail");
    assert_eq!(items[0].count, 3);
    assert!(items[0].app_name.contains("Gmail (3)"));

    let effects = e.handle_ui_event(UiEvent::DeleteGroup("Gmail".into()));
    assert!(matches!(effects.last(), Some(Effect::CloseUi)));
    assert_eq!(e.count().0, 0, "All notifications in group must be deleted");
}
