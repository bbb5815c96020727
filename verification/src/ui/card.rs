//! What a card of the notification center shows: its tone and its three texts.
use vstd::prelude::*;
use crate::engine::{UiItem, UiItemView};
use crate::text::{
    chars_of, string_from_chars, trim_chars, replace_newlines, trim_spec, newlines_to_spaces, u64_to_decimal,
    decimal, push_str_chars,
};

verus! {

/// How a card is coloured.
#[derive(Debug, Clone, Copy, PartialEq, Eq, Structural)]
pub enum CardTone {
    SelectedUrgent,
    SelectedGroup,
    Selected,
    Urgent,
    Group,
    Normal,
}

/// The tone of a card: urgency (critical, 2) first, then whether it is a group; a
/// selected card has the selected variant.
pub open spec fn card_tone_spec(item: UiItemView, selected: bool) -> CardTone {
    if selected {
        if item.urgency == 2 {
            CardTone::SelectedUrgent
        } else if item.is_group {
            CardTone::SelectedGroup
        } else {
            CardTone::Selected
        }
    } else if item.urgency == 2 {
        CardTone::Urgent
    } else if item.is_group {
        CardTone::Group
    } else {
        CardTone::Normal
    }
}

/// The first line's bold text: the summary, or the title when there is none.
pub open spec fn card_heading_spec(item: UiItemView) -> Seq<char> {
    if item.summary.len() > 0 {
        item.summary
    } else {
        item.title
    }
}

/// The small text beside it: the time and the application, whichever are there.
pub open spec fn card_meta_spec(item: UiItemView) -> Seq<char> {
    if item.time_str.len() > 0 && item.app_name.len() > 0 {
        item.time_str + seq![' '] + item.app_name
    } else if item.time_str.len() > 0 {
        item.time_str
    } else {
        item.app_name
    }
}

/// The second line: the body (else the subtitle) on one line and trimmed; when that is
/// empty, for a group, how many notifications it holds.
pub open spec fn card_preview_spec(item: UiItemView) -> Seq<char> {
    let source = if item.body.len() > 0 {
        item.body
    } else {
        item.subtitle
    };
    let line = trim_spec(newlines_to_spaces(source));
    if line.len() > 0 {
        line
    } else if item.is_group {
        decimal(item.count as nat) + " notification(s)"@
    } else {
        Seq::empty()
    }
}

/// See `card_tone_spec`.
pub fn card_tone(item: &UiItem, selected: bool) -> (r: CardTone)
    ensures
        r == card_tone_spec(item@, selected),
{
    if selected {
        if item.urgency == 2 {
            CardTone::SelectedUrgent
        } else if item.is_group {
            CardTone::SelectedGroup
        } else {
            CardTone::Selected
        }
    } else if item.urgency == 2 {
        CardTone::Urgent
    } else if item.is_group {
        CardTone::Group
    } else {
        CardTone::Normal
    }
}

/// See `card_heading_spec`.
pub fn card_heading(item: &UiItem) -> (r: String)
    ensures
        r@ == card_heading_spec(item@),
{
    if !item.summary.as_str().is_empty() {
        item.summary.clone()
    } else {
        item.title.clone()
    }
}

/// See `card_meta_spec`.
pub fn card_meta(item: &UiItem) -> (r: String)
    ensures
        r@ == card_meta_spec(item@),
{
    let has_time = !item.time_str.as_str().is_empty();
    let has_app = !item.app_name.as_str().is_empty();
    if has_time && has_app {
        let mut v = chars_of(item.time_str.as_str());
        v.push(' ');
        push_str_chars(&mut v, item.app_name.as_str());
        string_from_chars(&v)
    } else if has_time {
        item.time_str.clone()
    } else {
        item.app_name.clone()
    }
}

/// See `card_preview_spec`.
pub fn card_preview(item: &UiItem) -> (r: String)
    ensures
        r@ == card_preview_spec(item@),
{
    let source = if !item.body.as_str().is_empty() {
        chars_of(item.body.as_str())
    } else {
        chars_of(item.subtitle.as_str())
    };
    let line = trim_chars(&replace_newlines(&source));
    if line.len() > 0 {
        string_from_chars(&line)
    } else if item.is_group {
        let n = u64_to_decimal(item.count as u64);
        let mut v = chars_of(n.as_str());
        push_str_chars(&mut v, " notification(s)");
        string_from_chars(&v)
    } else {
        String::new()
    }
}

} // verus!
