use quiet::data::notification::Notification;
use quiet::data::persistence::retain_active;
use quiet::data::urgency::{extract_urgency, hint_flag, hint_str, HintValue};

#[test]
fn test_extract_urgency() {
    assert_eq!(extract_urgency(None), 1);
    assert_eq!(extract_urgency(Some(&HintValue::U8(2))), 2);
    assert_eq!(extract_urgency(Some(&HintValue::I32(0))), 0);
    assert_eq!(extract_urgency(Some(&HintValue::U8(255))), 2);
}

#[test]
fn urgency_is_clamped_and_other_values_are_normal() {
    assert_eq!(extract_urgency(Some(&HintValue::I64(-5))), 0);
    assert_eq!(extract_urgency(Some(&HintValue::U64(9))), 2);
    assert_eq!(extract_urgency(Some(&HintValue::Str("2".into()))), 1);
    assert_eq!(extract_urgency(Some(&HintValue::Bool(true))), 1);
}

#[test]
fn flags_and_strings() {
    assert!(hint_flag(Some(&HintValue::Bool(true))));
    assert!(!hint_flag(Some(&HintValue::U8(1))));
    assert!(!hint_flag(None));
    assert_eq!(hint_str(Some(&HintValue::Str("im.received".into()))), Some("im.received".to_string()));
    assert_eq!(hint_str(Some(&HintValue::U8(1))), None);
}

#[test]
fn expired_saved_notifications_are_dropped() {
    let keep = Notification::new_at(1, "a".into(), "".into(), "s".into(), "b".into(), vec![], 1, 5000, 1_000);
    let gone = Notification::new_at(2, "a".into(), "".into(), "s".into(), "b".into(), vec![], 1, 1, 1_000);
    let forever = Notification::new_at(3, "a".into(), "".into(), "s".into(), "b".into(), vec![], 1, -1, 1_000);
    let mut expiring = forever.clone();
    expiring.expires = true;
    let now = 1_000 + 1_000_000;
    let mut keep2 = keep.clone();
    keep2.expires = true;
    let mut gone2 = gone.clone();
    gone2.expires = true;
    let out = retain_active(vec![keep2, gone2, forever, expiring], now);
    let ids: Vec<u32> = out.iter().map(|n| n.id).collect();
    assert_eq!(ids, vec![1, 3, 3]);
}
