use quiet::engine::{UiEvent, UiItem};
use quiet::ui::card::{card_heading, card_meta, card_preview, card_tone, CardTone};
use quiet::ui::color::parse_hex_color;
use quiet::ui::{activation_event, press_key, scroll_step, Key, KeyAction, NavState};

// Layout of the default notification center: padding 10, cards 98 high, 10 apart, at
// most 8 visible.
fn calc_target_height(count: usize) -> u32 {
    let (padding, card_height, card_spacing, max_visible) = (10.0f32, 98.0f32, 10.0f32, 8usize);
    let count = count.max(1);
    let visible_count = count.min(max_visible);
    let h = padding * 2.0 + (visible_count as f32) * card_height + ((visible_count - 1) as f32) * card_spacing;
    h.round() as u32
}

fn calc_max_visible_cards(height: u32) -> usize {
    let (padding, card_height, card_spacing) = (10.0f32, 98.0f32, 10.0f32);
    let available = (height as f32 - padding * 2.0).max(card_height);
    (((available + card_spacing) / (card_height + card_spacing)).floor() as usize).max(1)
}

fn open(nav: &mut NavState, n: usize, ctx: Vec<String>) {
    nav.open_ui(n, ctx, calc_target_height(n));
}

fn update(nav: &mut NavState, n: usize, ctx: Vec<String>) {
    let h = calc_target_height(n);
    nav.update_items(n, ctx, h, calc_max_visible_cards(h));
}

fn adjust(nav: &mut NavState, n: usize) {
    let mv = calc_max_visible_cards(nav.height);
    nav.adjust_scroll(n, mv);
}

#[test]
fn test_nav_selection_reset_on_descend_to_child_group() {
    let mut nav = NavState::new(calc_target_height(0));
    open(&mut nav, 5, vec![]);
    assert_eq!(nav.selected_index, 0);
    nav.selected_index = 1;
    assert_eq!(nav.selected_index, 1);
    update(&mut nav, 2, vec!["WhatsApp".to_string()]);
    assert_eq!(nav.selected_index, 0, "Entering a child group must select the top item (Dev Team at 0), not inherit index 1 (Mom)");
    assert_eq!(nav.scroll_offset, 0);
    nav.selected_index = 1;
    update(&mut nav, 3, vec!["WhatsApp".to_string(), "Mom".to_string()]);
    assert_eq!(nav.selected_index, 0, "Entering Mom's conversation must select the first message (index 0)");
}

#[test]
fn test_nav_selection_restore_on_ascend() {
    let mut nav = NavState::new(calc_target_height(0));
    open(&mut nav, 5, vec![]);
    nav.selected_index = 2;
    update(&mut nav, 3, vec!["Gmail".to_string()]);
    assert_eq!(nav.selected_index, 0, "Descend starts at 0");
    nav.selected_index = 2;
    update(&mut nav, 5, vec![]);
    assert_eq!(nav.selected_index, 2, "Ascending back to root must restore the previously selected Gmail card at index 2");
}

#[test]
fn test_nav_height_recalculated_and_scroll_offset_zero_on_ascend() {
    let mut nav = NavState::new(calc_target_height(0));
    open(&mut nav, 5, vec![]);
    assert_eq!(nav.height, 550);
    assert_eq!(calc_max_visible_cards(nav.height), 5);
    assert_eq!(nav.scroll_offset, 0);

    nav.selected_index = 2;
    adjust(&mut nav, 5);
    assert_eq!(nav.scroll_offset, 0);

    update(&mut nav, 3, vec!["Gmail".to_string()]);
    assert_eq!(nav.height, 334);
    assert_eq!(calc_max_visible_cards(nav.height), 3);
    assert_eq!(nav.selected_index, 0);
    assert_eq!(nav.scroll_offset, 0);

    let h = calc_target_height(3);
    nav.handle_configure(3, h, calc_max_visible_cards(h));
    assert_eq!(nav.height, 334);

    update(&mut nav, 5, vec![]);
    assert_eq!(nav.height, 550, "Returning to 5 root items must recompute height to 550, not remain stuck at 334");
    assert_eq!(nav.selected_index, 2);
    assert_eq!(nav.scroll_offset, 0, "Returning to root must keep scroll_offset at 0 so all 5 items are visible without scrolling");
    assert!(nav.scroll_offset + calc_max_visible_cards(nav.height) >= 5, "All 5 items must be completely visible in viewport");

    let h = calc_target_height(5);
    nav.handle_configure(5, h, calc_max_visible_cards(h));
    assert_eq!(nav.height, 550, "Stale configure height (334) must NOT overwrite target height (550)");
    assert_eq!(nav.scroll_offset, 0);
}

#[test]
fn test_nav_scroll_adjustment_when_scrolling_past_viewport() {
    let mut nav = NavState::new(calc_target_height(0));
    open(&mut nav, 10, vec![]);
    assert_eq!(calc_max_visible_cards(nav.height), 8);
    assert_eq!(nav.scroll_offset, 0);

    nav.selected_index = 7;
    adjust(&mut nav, 10);
    assert_eq!(nav.scroll_offset, 0);

    nav.selected_index = 8;
    adjust(&mut nav, 10);
    assert_eq!(nav.scroll_offset, 1);

    nav.selected_index = 9;
    adjust(&mut nav, 10);
    assert_eq!(nav.scroll_offset, 2);

    nav.selected_index = 1;
    adjust(&mut nav, 10);
    assert_eq!(nav.scroll_offset, 1);

    nav.selected_index = 0;
    adjust(&mut nav, 10);
    assert_eq!(nav.scroll_offset, 0);
}

fn item(id: Option<u32>, key: &str, is_group: bool, count: usize, actions: Vec<String>) -> UiItem {
    UiItem {
        id,
        is_group,
        key: key.into(),
        title: key.into(),
        subtitle: String::new(),
        summary: String::new(),
        app_name: String::new(),
        body: String::new(),
        time_str: String::new(),
        urgency: 1,
        count,
        icon: String::new(),
        actions,
        created_at: 0,
    }
}

#[test]
fn keys_move_the_selection_with_wrap_around() {
    let items = vec![item(Some(1), "1", false, 1, vec![]), item(Some(2), "2", false, 1, vec![]), item(Some(3), "3", false, 1, vec![])];
    assert!(matches!(press_key(Key::J, false, false, &items, 2, true, 8), KeyAction::Select(0)));
    assert!(matches!(press_key(Key::K, false, false, &items, 0, true, 8), KeyAction::Select(2)));
    assert!(matches!(press_key(Key::N, true, false, &items, 0, true, 8), KeyAction::Select(1)));
    assert!(matches!(press_key(Key::N, false, false, &items, 0, true, 8), KeyAction::Nothing));
    assert!(matches!(press_key(Key::End, false, false, &items, 0, true, 8), KeyAction::Select(2)));
    assert!(matches!(press_key(Key::PageDown, false, false, &items, 0, true, 2), KeyAction::Select(2)));
    assert!(matches!(press_key(Key::PageUp, false, false, &items, 2, true, 0), KeyAction::Select(1)));
    assert!(matches!(press_key(Key::J, false, false, &vec![], 0, true, 8), KeyAction::Nothing));
}

#[test]
fn keys_delete_activate_and_leave() {
    let items = vec![item(None, "Gmail", true, 3, vec![]), item(Some(7), "7", false, 1, vec!["open".into()])];
    match press_key(Key::LowerD, false, false, &items, 0, true, 8) {
        KeyAction::Send(UiEvent::DeleteGroup(k)) => assert_eq!(k, "Gmail"),
        _ => panic!("group deletion expected"),
    }
    assert!(matches!(press_key(Key::Delete, true, false, &items, 0, true, 8), KeyAction::Nothing));
    assert!(matches!(press_key(Key::LowerD, false, false, &items, 1, true, 8), KeyAction::Send(UiEvent::DeleteItem(7))));
    assert!(matches!(press_key(Key::UpperD, false, true, &items, 1, true, 8), KeyAction::Send(UiEvent::ClearAll)));
    match press_key(Key::Return, false, true, &items, 1, true, 8) {
        KeyAction::Send(UiEvent::ActionInvoked { id, action_key }) => {
            assert_eq!(id, 7);
            assert_eq!(action_key, "open");
        }
        _ => panic!("action expected"),
    }
    assert!(matches!(press_key(Key::Space, false, false, &items, 1, true, 8), KeyAction::Activate));
    assert!(matches!(press_key(Key::Escape, false, false, &items, 1, true, 8), KeyAction::SendAndClose(UiEvent::CloseUi)));
    assert!(matches!(press_key(Key::Escape, false, false, &items, 1, false, 8), KeyAction::Send(UiEvent::LeaveGroup)));
    assert!(matches!(press_key(Key::BracketLeft, false, false, &items, 1, false, 8), KeyAction::Nothing));
    assert!(matches!(press_key(Key::BackSpace, true, false, &items, 1, false, 8), KeyAction::SendAndClose(UiEvent::CloseUi)));
    assert!(matches!(press_key(Key::Q, false, false, &items, 1, false, 8), KeyAction::SendAndClose(UiEvent::CloseUi)));
}

#[test]
fn activation_enters_groups_and_invokes_defaults() {
    let items = vec![item(None, "Gmail", true, 3, vec![]), item(Some(7), "7", false, 1, vec![])];
    match activation_event(&items, 0, 1000) {
        Some(UiEvent::EnterGroup(k)) => assert_eq!(k, "Gmail"),
        _ => panic!("enter expected"),
    }
    match activation_event(&items, 1, 1000) {
        Some(UiEvent::ActionInvoked { id, action_key }) => {
            assert_eq!(id, 7);
            assert_eq!(action_key, "default");
        }
        _ => panic!("action expected"),
    }
    assert!(activation_event(&items, 1, 10).is_none());
    assert!(activation_event(&items, 5, 1000).is_none());
}

#[test]
fn wheel_steps_stop_at_the_ends() {
    assert_eq!(scroll_step(3, 2, 1), Some(2));
    assert_eq!(scroll_step(3, 0, -1), Some(0));
    assert_eq!(scroll_step(3, 1, 1), Some(2));
    assert_eq!(scroll_step(0, 0, 1), None);
    assert_eq!(scroll_step(3, 1, 0), None);
}

#[test]
fn hex_colors_read_as_rgb_or_rgba() {
    assert_eq!(parse_hex_color(b"ff8000", 0), Some((255, 128, 0, 255)));
    assert_eq!(parse_hex_color(b"6495ED", 0), Some((100, 149, 237, 255)));
    assert_eq!(parse_hex_color(b"00000000", 0), Some((0, 0, 0, 0)));
    assert_eq!(parse_hex_color(b"4c4c6c80", 0), Some((76, 76, 108, 128)));
}

#[test]
fn hex_colors_with_bad_pairs_or_lengths() {
    assert_eq!(parse_hex_color(b"zz8000", 0), Some((0, 128, 0, 255)));
    assert_eq!(parse_hex_color(b"zzzzzz", 240), Some((240, 240, 240, 255)));
    assert_eq!(parse_hex_color(b"ffffffzz", 0), Some((255, 255, 255, 255)));
    assert_eq!(parse_hex_color(b"+f0000", 0), Some((15, 0, 0, 255)));
    assert_eq!(parse_hex_color(b"-f0000", 0), Some((0, 0, 0, 255)));
    assert_eq!(parse_hex_color(b"fff", 0), None);
    assert_eq!(parse_hex_color(b"", 0), None);
    assert_eq!(parse_hex_color(b"1234567", 0), None);
}

#[test]
fn card_tones_follow_selection_urgency_and_grouping() {
    let mut it = item(Some(1), "a", false, 1, vec![]);
    assert_eq!(card_tone(&it, false), CardTone::Normal);
    assert_eq!(card_tone(&it, true), CardTone::Selected);
    it.is_group = true;
    assert_eq!(card_tone(&it, false), CardTone::Group);
    assert_eq!(card_tone(&it, true), CardTone::SelectedGroup);
    it.urgency = 2;
    assert_eq!(card_tone(&it, false), CardTone::Urgent);
    assert_eq!(card_tone(&it, true), CardTone::SelectedUrgent);
}

#[test]
fn card_texts() {
    let mut it = item(Some(1), "Gmail", false, 1, vec![]);
    assert_eq!(card_heading(&it), "Gmail");
    it.summary = "Alice".into();
    assert_eq!(card_heading(&it), "Alice");
    assert_eq!(card_meta(&it), "");
    it.app_name = "Chrome".into();
    assert_eq!(card_meta(&it), "Chrome");
    it.time_str = "09:05".into();
    assert_eq!(card_meta(&it), "09:05 Chrome");
    it.app_name = String::new();
    assert_eq!(card_meta(&it), "09:05");
    it.subtitle = "sub".into();
    assert_eq!(card_preview(&it), "sub");
    it.body = "  line one\nline two \n".into();
    assert_eq!(card_preview(&it), "line one line two");
    it.body = " \n ".into();
    it.subtitle = String::new();
    assert_eq!(card_preview(&it), "");
    let mut g = item(None, "WhatsApp", true, 3, vec![]);
    assert_eq!(card_preview(&g), "3 notification(s)");
    g.body = "Mom: dinner?".into();
    assert_eq!(card_preview(&g), "Mom: dinner?");
}
