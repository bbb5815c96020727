use quiet::data::notification::{strip_markup, format_hh_mm, Notification};

#[test]
fn test_single_line() {
    let notif = Notification::new(
        1,
        "slack".into(),
        "".into(),
        "<b>Alice</b>".into(),
        "<i>Hello world</i>".into(),
        vec![],
        1,
        -1,
    );
    assert_eq!(notif.single_line(), "Alice : Hello world");
}

#[test]
fn test_strip_markup() {
    assert_eq!(strip_markup("<span color=\"red\">Alert &amp; Warning</span>"), "Alert & Warning");
    assert_eq!(strip_markup("x < 5 and y > 2"), "x < 5 and y > 2");
    assert_eq!(strip_markup("&amp;lt;"), "&lt;");
    assert_eq!(strip_markup("No tags here"), "No tags here");
    assert_eq!(strip_markup("Don&#39;t worry &nbsp; &quot;quote&quot;"), "Don't worry   \"quote\"");
    assert_eq!(strip_markup("Curly &#8217;apostrophe&#x2019;"), "Curly ’apostrophe’");
    assert_eq!(strip_markup("Wait&hellip; here &mdash; now &bull; done &copy;"), "Wait… here — now • done ©");
}

#[test]
fn single_line_falls_back_to_app_name_then_one_part() {
    let n = Notification::new(1, "App".into(), "".into(), "".into(), "".into(), vec![], 1, -1);
    assert_eq!(n.single_line(), "App");
    let n = Notification::new(1, "App".into(), "".into(), "Only summary".into(), " ".into(), vec![], 1, -1);
    assert_eq!(n.single_line(), "Only summary");
    let n = Notification::new(1, "App".into(), "".into(), "".into(), "line1\nline2".into(), vec![], 1, -1);
    assert_eq!(n.single_line(), "line1 line2");
}

#[test]
fn new_at_sets_expiry_from_timeout() {
    let n = Notification::new_at(7, "a".into(), "".into(), "s".into(), "b".into(), vec![], 1, 5000, 1_000);
    assert_eq!(n.created_at, 1_000);
    assert_eq!(n.expires_at, Some(1_000 + 5_000_000_000));
    let n = Notification::new_at(7, "a".into(), "".into(), "s".into(), "b".into(), vec![], 1, -1, 1_000);
    assert_eq!(n.expires_at, None);
}

#[test]
fn clock_times_are_zero_padded() {
    assert_eq!(format_hh_mm(7, 5), "07:05");
    assert_eq!(format_hh_mm(23, 59), "23:59");
    let n = Notification::new_at(1, "a".into(), "".into(), "s".into(), "b".into(), vec![], 1, -1, 3_723 * 1_000_000_000);
    assert_eq!(n.time_str(None), "01:02");
    assert_eq!(n.time_str(Some((9, 30))), "09:30");
    assert_eq!(n.created_secs(), 3_723);
}

#[test]
fn strip_markup_leaves_unknown_entities_and_unclosed_tags() {
    assert_eq!(strip_markup("a &unknown; b"), "a &unknown; b");
    assert_eq!(strip_markup("<b>bold"), "bold");
    assert_eq!(strip_markup("1 <2"), "1 <2");
}

#[test]
fn test_local_time_format() {
    let n = Notification::new_at(1, "a".into(), "".into(), "s".into(), "b".into(), vec![], 1, -1, 1789771415 * 1_000_000_000);
    for local in [None, Some((0, 5)), Some((23, 59))] {
        let t = n.time_str(local);
        assert_eq!(t.len(), 5);
        assert_eq!(&t[2..3], ":");
        let hours: u32 = t[0..2].parse().unwrap();
        let minutes: u32 = t[3..5].parse().unwrap();
        assert!(hours < 24);
        assert!(minutes < 60);
    }
    assert_eq!(n.time_str(None), "22:43");
    assert_eq!(n.time_str(Some((0, 5))), "00:05");
}

#[test]
fn text_without_markup_characters_is_left_alone() {
    for s in ["", "plain words", "x > 5; y = \"q\"", "ünïcödé — text", "tab\tand\nnewline"] {
        assert_eq!(strip_markup(s), s);
    }
}
