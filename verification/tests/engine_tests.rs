use quiet::config::Config;
use quiet::data::notification::Notification;
use quiet::engine::{capabilities, fill_times, server_information, Effect, Engine, UiEvent};

fn post(engine: &mut Engine, app: &str, summary: &str, body: &str, urgency: u8, at: u64) -> (u32, Vec<Effect>) {
    let id = engine.allocate_id(0);
    let n = Notification::new_at(id, app.into(), "".into(), summary.into(), body.into(), vec![], urgency, -1, at);
    let effects = engine.notify(n, at);
    (id, effects)
}

fn engine() -> Engine {
    Engine::new(Config::default(), true)
}

#[test]
fn test_py3status_single_line_only_on_mode_0_arrival() {
    let mut e = engine();
    assert_eq!(e.compute_single_line(0), "");
    assert_eq!(e.compute_single_line(1), "");
    post(&mut e, "Chrome", "Alice", "Hello world", 1, 1_000);
    assert_eq!(e.compute_single_line(0), "Alice : Hello world");
    assert_eq!(e.compute_single_line(1), "");
    assert_eq!(e.compute_single_line(2), "");
}

#[test]
fn ids_count_and_signals_of_a_notification() {
    let mut e = engine();
    let (id, effects) = post(&mut e, "slack", "Alice", "Hello from Slack", 1, 1_000);
    assert_eq!(id, 1);
    assert_eq!(e.count(), (1, 1));
    assert!(matches!(effects.last(), Some(Effect::NotificationsUpdated { mode: 0 })));
    let (id2, _) = post(&mut e, "monitor", "High CPU", "CPU reached 99%", 2, 2_000);
    assert_eq!(id2, 2);
    assert_eq!(e.count(), (2, 2));
}

#[test]
fn replacing_keeps_the_id_and_the_count() {
    let mut e = engine();
    let (id, _) = post(&mut e, "custom", "Initial", "Initial body", 1, 1_000);
    let id_again = e.allocate_id(id);
    assert_eq!(id_again, id);
    let n = Notification::new_at(id, "custom".into(), "".into(), "Updated".into(), "Updated body".into(), vec![], 1, -1, 2_000);
    let effects = e.notify(n, 2_000);
    assert!(matches!(effects[0], Effect::ForgetImage { id: x } if x == id));
    assert_eq!(e.count().0, 1);
    assert_eq!(e.compute_single_line(0), "Updated : Updated body");
    let (other, _) = post(&mut e, "custom", "Another", "Another body", 1, 3_000);
    assert_ne!(other, id);
    assert_eq!(e.count().0, 2);
}

#[test]
fn ignore_close_refuses_client_dismissal_only() {
    let mut e = engine();
    let (id, _) = post(&mut e, "Google Chrome", "Gmail Notification", "mail.google.com\nNew message received", 1, 1_000);
    assert_eq!(e.count().0, 1);
    let effects = e.close_notification(id, 3);
    assert!(effects.is_empty());
    assert_eq!(e.count().0, 1, "Notification with ignore_close should not be closed with reason 3");
    let effects = e.close_notification(id, 2);
    assert!(effects.iter().any(|x| matches!(x, Effect::NotificationClosed { id: i, reason: 2 } if *i == id)));
    assert_eq!(e.count().0, 0, "Notification should be closed when reason is not 3");
}

#[test]
fn deleting_a_group_removes_its_notifications() {
    let mut e = engine();
    post(&mut e, "slack", "msg 1", "body", 1, 1_000);
    post(&mut e, "slack", "msg 2", "body", 1, 2_000);
    assert_eq!(e.count().0, 2);
    e.handle_ui_event(UiEvent::DeleteGroup("slack".into()));
    assert_eq!(e.count().0, 0, "Deleting group should remove all items in the auto-descended branch");
}

#[test]
fn eviction_keeps_the_newest_up_to_the_limit() {
    let mut config = Config::default();
    config.behavior.max_notifications = 5;
    let mut e = Engine::new(config, false);
    let mut ids = vec![];
    for i in 1..=7u64 {
        let (id, _) = post(&mut e, "burst", &format!("Notification {}", i), &format!("Body {}", i), 1, i * 1_000);
        ids.push(id);
    }
    assert_eq!(e.count().0, 5, "Notification count must be bounded by max_notifications (5)");
    let kept: Vec<u32> = e.dump_list().iter().map(|n| n.id).collect();
    assert!(!kept.contains(&ids[0]), "Oldest notification 1 should be evicted");
    assert!(!kept.contains(&ids[1]), "Oldest notification 2 should be evicted");
    assert!(kept.contains(&ids[6]), "Latest notification 7 should be present");
}

#[test]
fn urgent_notifications_survive_eviction() {
    let mut config = Config::default();
    config.behavior.max_notifications = 1;
    let mut e = Engine::new(config, false);
    let (urgent, _) = post(&mut e, "a", "urgent", "x", 2, 1_000);
    let (low, effects) = post(&mut e, "b", "low", "y", 0, 2_000);
    assert!(effects.iter().any(|x| matches!(x, Effect::NotificationClosed { id, reason: 4 } if *id == low)));
    let kept: Vec<u32> = e.dump_list().iter().map(|n| n.id).collect();
    assert_eq!(kept, vec![urgent]);
}

#[test]
fn resident_notifications_stay_after_their_action() {
    let mut e = engine();
    let id = e.allocate_id(0);
    let mut n = Notification::new_at(id, "player".into(), "".into(), "Now Playing".into(), "Song title".into(), vec!["pause".into(), "Pause".into()], 1, -1, 1_000);
    n.resident = true;
    e.notify(n, 1_000);
    let effects = e.handle_ui_event(UiEvent::ActionInvoked { id, action_key: "pause".into() });
    assert_eq!(e.count().0, 1, "Resident notification must not be closed on action invocation");
    assert!(effects.iter().any(|x| matches!(x, Effect::FocusThenInvoke { close_after: false, .. })));
    let (other, _) = post(&mut e, "app", "s", "b", 1, 2_000);
    e.handle_ui_event(UiEvent::ActionInvoked { id: other, action_key: "default".into() });
    assert_eq!(e.count().0, 1);
}

#[test]
fn transient_notifications_are_not_dumped() {
    let mut e = engine();
    let (keep, _) = post(&mut e, "normal-app", "Persistent Notification", "Should be saved to dump", 1, 1_000);
    let id = e.allocate_id(0);
    let mut t = Notification::new_at(id, "transient-app".into(), "".into(), "Ephemeral Alert".into(), "Must not be saved to disk".into(), vec![], 1, -1, 2_000);
    t.transient = true;
    e.notify(t, 2_000);
    let dumped: Vec<u32> = e.dump_list().iter().map(|n| n.id).collect();
    assert!(dumped.contains(&keep), "Persistent notification must be in dump");
    assert!(!dumped.contains(&id), "Transient notification must be excluded from dump");
    let kept = e.dump_list();
    assert_eq!(kept[0].keys, Some(vec!["normal-app".to_string(), "Should be saved to dump".to_string()]));
}

#[test]
fn single_group_auto_expands_and_backspace_goes_up() {
    let mut e = engine();
    for i in 1..=3u64 {
        post(&mut e, "Google Chrome", &format!("Sender {}", i), &format!("mail.google.com\nEmail body {}", i), 1, i * 1_000);
    }
    let effects = e.toggle_ui();
    assert!(matches!(effects[0], Effect::OpenUi));
    let (items, ctx) = e.ui_snapshot();
    assert_eq!(ctx, vec!["Gmail".to_string()], "Single group must auto-expand on open");
    assert_eq!(items.len(), 3, "Opened view must show the 3 individual notifications inside the group");
    e.handle_ui_event(UiEvent::LeaveGroup);
    let (items, ctx) = e.ui_snapshot();
    assert!(ctx.is_empty(), "Backspace must come a level up to root");
    assert_eq!(items.len(), 1, "Root should display the single group");
    assert!(items[0].is_group, "Root item must be a group");
    assert_eq!(items[0].title, "Gmail (3)");
    let effects = e.handle_ui_event(UiEvent::DeleteGroup(items[0].key.clone()));
    assert!(effects.iter().any(|x| matches!(x, Effect::CloseUi)));
    assert_eq!(e.count().0, 0, "All notifications in group must be deleted");
}

#[test]
fn items_are_sorted_newest_first_and_urgent_first() {
    let mut e = engine();
    post(&mut e, "a", "old", "x", 1, 1_000);
    post(&mut e, "b", "new", "y", 1, 2_000);
    post(&mut e, "c", "crit", "z", 2, 500);
    let items = e.generate_ui_items(&[]);
    let titles: Vec<String> = items.iter().map(|i| i.title.clone()).collect();
    assert_eq!(titles, vec!["c", "b", "a"]);
}

#[test]
fn clock_times_are_filled_in_for_notifications() {
    let mut e = engine();
    post(&mut e, "a", "s", "b", 1, 3_723 * 1_000_000_000);
    let mut items = e.generate_ui_items(&[]);
    assert_eq!(items[0].time_str, "");
    fill_times(&mut items, &|_secs: i64| Some((8, 5)));
    assert_eq!(items[0].time_str, "08:05");
    fill_times(&mut items, &|_secs: i64| None);
    assert_eq!(items[0].time_str, "01:02");
}

#[test]
fn clear_all_empties_and_closes() {
    let mut e = engine();
    post(&mut e, "a", "s", "b", 1, 1_000);
    post(&mut e, "b", "s", "b", 1, 2_000);
    e.toggle_ui();
    let effects = e.handle_ui_event(UiEvent::ClearAll);
    assert_eq!(e.count(), (0, 0));
    assert_eq!(effects.iter().filter(|x| matches!(x, Effect::NotificationClosed { reason: 2, .. })).count(), 2);
    assert!(matches!(effects.last(), Some(Effect::CloseUi)));
    assert!(e.toggle_ui().is_empty());
}

#[test]
fn expiry_removes_and_reports_reason_one() {
    let mut e = engine();
    let (id, _) = post(&mut e, "a", "s", "b", 1, 1_000);
    let effects = e.expire(id);
    assert!(effects.iter().any(|x| matches!(x, Effect::NotificationClosed { id: i, reason: 1 } if *i == id)));
    assert_eq!(e.count().0, 0);
    assert_eq!(e.expire(id).len(), 1);
}

#[test]
fn restore_skips_expired_and_continues_ids() {
    let mut e = engine();
    let mut a = Notification::new_at(40, "a".into(), "".into(), "s".into(), "b".into(), vec![], 1, -1, 1_000);
    a.keys = Some(vec!["a".into()]);
    let mut b = Notification::new_at(7, "b".into(), "".into(), "s".into(), "b".into(), vec![], 1, 1, 1_000);
    b.expires = true;
    b.keys = Some(vec!["b".into()]);
    let effects = e.restore_dump(vec![a, b], 10_000_000);
    assert!(effects.is_empty());
    assert_eq!(e.count().0, 1);
    assert_eq!(e.allocate_id(0), 41);
}

#[test]
fn restore_applies_the_rules_to_notifications_without_a_path() {
    let mut e = engine();
    // without a stored path the rules run again, and their defaults decide the expiry
    let mut b = Notification::new_at(7, "b".into(), "".into(), "s".into(), "b".into(), vec![], 1, 1, 1_000);
    b.expires = true;
    e.restore_dump(vec![b], 10_000_000);
    assert_eq!(e.count().0, 1);
    assert_eq!(e.dump_list()[0].keys, Some(vec!["b".to_string(), "b".to_string()]));
}

#[test]
fn server_identity() {
    let (name, vendor, _version, spec) = server_information();
    assert_eq!(name, "quiet");
    assert_eq!(vendor, "quiet-project");
    assert_eq!(spec, "1.2");
    let caps = capabilities();
    assert!(caps.contains(&"actions".to_string()));
    assert!(caps.contains(&"body".to_string()));
    assert!(caps.contains(&"persistence".to_string()));
}

#[test]
fn closing_a_notification_removes_exactly_one() {
    let mut e = engine();
    post(&mut e, "slack", "one", "a", 1, 1_000);
    let (id, _) = post(&mut e, "slack", "two", "b", 1, 2_000);
    post(&mut e, "mail", "three", "c", 1, 3_000);
    assert_eq!(e.count().0, 3);
    let effects = e.close_notification(id, 2);
    assert_eq!(e.count().0, 2);
    assert!(effects.iter().any(|x| matches!(x, Effect::NotificationClosed { id: i, reason: 2 } if *i == id)));
    let again = e.close_notification(id, 2);
    assert_eq!(e.count().0, 2);
    assert!(!again.iter().any(|x| matches!(x, Effect::NotificationClosed { .. })));
}

#[test]
fn every_notification_stays_reachable_by_its_id() {
    let mut e = engine();
    post(&mut e, "slack", "a", "1", 1, 1_000);
    let (b, _) = post(&mut e, "slack", "b", "2", 1, 2_000);
    post(&mut e, "Google Chrome", "Alice", "mail.google.com\nHi", 1, 3_000);
    let (d, _) = post(&mut e, "Google Chrome", "Mom", "web.whatsapp.com\nDinner?", 1, 4_000);
    post(&mut e, "mail", "c", "3", 1, 5_000);
    let replacement = Notification::new_at(b, "slack".into(), "".into(), "b2".into(), "2b".into(), vec![], 1, -1, 6_000);
    e.notify(replacement, 6_000);
    e.expire(d);
    assert_eq!(e.count().0, 4);
    let ids: Vec<u32> = e.dump_list().iter().map(|n| n.id).collect();
    assert_eq!(ids.len(), 4);
    for (k, id) in ids.iter().enumerate() {
        e.close_notification(*id, 2);
        assert_eq!(e.count().0 as usize, 3 - k, "closing {} must remove exactly one notification", id);
    }
}

#[test]
fn saved_notifications_restore_under_their_paths() {
    let mut e = engine();
    post(&mut e, "Google Chrome", "Mom", "web.whatsapp.com\nDinner?", 1, 1_000);
    post(&mut e, "Google Chrome", "Alice", "mail.google.com\nHi", 2, 2_000);
    post(&mut e, "slack", "a", "b", 0, 3_000);
    let saved = e.dump_list();
    let mut restored = engine();
    restored.restore_dump(e.dump_list(), 4_000);
    let again = restored.dump_list();
    assert_eq!(again.len(), saved.len());
    for (a, b) in saved.iter().zip(again.iter()) {
        assert_eq!(a.id, b.id);
        assert_eq!(a.keys, b.keys);
        assert_eq!(a.body, b.body);
        assert_eq!(a.app_name, b.app_name);
    }
    assert_eq!(restored.count(), e.count());
}

#[test]
fn filing_through_a_notification_then_closing_it_drops_both() {
    let mut e = engine();
    // The generic Chrome rule files this one under ["Foo"], keyed "1".
    let (a, _) = post(&mut e, "Google Chrome", "s", "Foo\nbar", 1, 1_000);
    assert_eq!(a, 1);
    // No rule matches: filed under ["Foo", "1"], through the notification keyed "1".
    let (b, _) = post(&mut e, "Foo", "t", "1", 1, 2_000);
    assert_eq!(b, 2);
    assert_eq!(e.count().0, 2);
    // Removal along ["Foo"] finds a group keyed "1" and drops it whole.
    e.close_notification(a, 2);
    assert_eq!(e.count().0, 0);
}
