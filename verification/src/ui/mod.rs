//! The notification center's navigation: selection, scrolling, what a key does, and what
//! is remembered of each view.
use vstd::prelude::*;
use crate::engine::{UiEvent, UiEventView, UiItem, UiItemView, items_view};
use crate::data::cluster::strs_view;
use crate::text::chars_eq;

pub mod card;
pub mod color;

verus! {

// ---------------------------------------------------------------------------
// Selection and scrolling
// ---------------------------------------------------------------------------

/// Navigation state of the notification center. `context_history` keeps, for each view
/// left, the selection and scroll position it had; no view occurs twice.
pub struct NavState {
    pub selected_index: usize,
    pub scroll_offset: usize,
    pub height: u32,
    pub context: Vec<String>,
    pub context_history: Vec<(Vec<String>, (usize, usize))>,
}

pub struct NavView {
    pub selected_index: usize,
    pub scroll_offset: usize,
    pub height: u32,
    pub context: Seq<Seq<char>>,
    pub history: Seq<(Seq<Seq<char>>, (usize, usize))>,
}

pub open spec fn history_view(h: Seq<(Vec<String>, (usize, usize))>) -> Seq<(Seq<Seq<char>>, (usize, usize))> {
    h.map_values(|e: (Vec<String>, (usize, usize))| (strs_view(e.0@), e.1))
}

impl View for NavState {
    type V = NavView;

    open spec fn view(&self) -> NavView {
        NavView {
            selected_index: self.selected_index,
            scroll_offset: self.scroll_offset,
            height: self.height,
            context: strs_view(self.context@),
            history: history_view(self.context_history@),
        }
    }
}

/// Selection and scroll position once the selection is kept within `len` rows and
/// visible in a viewport of `max_vis` rows.
pub open spec fn adjust_spec(sel: usize, off: usize, len: usize, max_vis: usize) -> (usize, usize) {
    if len == 0 {
        (0, 0)
    } else {
        let s = if sel >= len {
            (len - 1) as usize
        } else {
            sel
        };
        if s < off {
            (s, s)
        } else if s >= off + max_vis {
            (s, (s - max_vis + 1) as usize)
        } else {
            (s, off)
        }
    }
}

/// The entry for `ctx` in a history.
pub open spec fn history_get(h: Seq<(Seq<Seq<char>>, (usize, usize))>, ctx: Seq<Seq<char>>) -> Option<(usize, usize)> {
    if exists|i: int| 0 <= i < h.len() && h[i].0 == ctx {
        Some(h[choose|i: int| 0 <= i < h.len() && h[i].0 == ctx].1)
    } else {
        None
    }
}

/// The history with `ctx` recorded at `pos`.
pub open spec fn history_put(h: Seq<(Seq<Seq<char>>, (usize, usize))>, ctx: Seq<Seq<char>>, pos: (usize, usize)) -> Seq<
    (Seq<Seq<char>>, (usize, usize)),
> {
    if exists|i: int| 0 <= i < h.len() && h[i].0 == ctx {
        h.update(choose|i: int| 0 <= i < h.len() && h[i].0 == ctx, (ctx, pos))
    } else {
        h.push((ctx, pos))
    }
}

pub open spec fn history_unique(h: Seq<(Seq<Seq<char>>, (usize, usize))>) -> bool {
    forall|i: int, j: int| 0 <= i < j < h.len() ==> (#[trigger] h[i]).0 != (#[trigger] h[j]).0
}

/// The navigation after new rows arrive for `new_ctx` with a viewport of `height` showing
/// `max_vis` rows: on a change of view the old view's position is remembered and the new
/// view's remembered one restored (the selection kept within the rows), else the top.
pub open spec fn update_spec(v: NavView, len: usize, new_ctx: Seq<Seq<char>>, height: u32, max_vis: usize) -> NavView {
    let changed = v.context != new_ctx;
    let history = if changed {
        history_put(v.history, v.context, (v.selected_index, v.scroll_offset))
    } else {
        v.history
    };
    let (sel, off) = if changed {
        match history_get(history, new_ctx) {
            Some((i, o)) => (if len == 0 {
                0usize
            } else if i < len {
                i
            } else {
                (len - 1) as usize
            }, o),
            None => (0usize, 0usize),
        }
    } else {
        (v.selected_index, v.scroll_offset)
    };
    let (s2, o2) = adjust_spec(sel, off, len, max_vis);
    NavView { selected_index: s2, scroll_offset: o2, height, context: new_ctx, history }
}

/// Law: leaving a view for another remembers where the selection and scroll position
/// of the view left were.
pub proof fn lemma_leaving_a_view_remembers_it(
    v: NavView,
    len: usize,
    new_ctx: Seq<Seq<char>>,
    height: u32,
    max_vis: usize,
)
    requires
        history_unique(v.history),
        new_ctx != v.context,
    ensures
        history_unique(update_spec(v, len, new_ctx, height, max_vis).history),
        history_get(update_spec(v, len, new_ctx, height, max_vis).history, v.context) == Some(
            (v.selected_index, v.scroll_offset),
        ),
{
    let h = v.history;
    let pos = (v.selected_index, v.scroll_offset);
    let h2 = history_put(h, v.context, pos);
    if exists|i: int| 0 <= i < h.len() && h[i].0 == v.context {
        let i = choose|i: int| 0 <= i < h.len() && h[i].0 == v.context;
        assert(h2 == h.update(i, (v.context, pos)));
        assert forall|a: int, b: int| 0 <= a < b < h2.len() implies (#[trigger] h2[a]).0 != (#[trigger] h2[b]).0 by {
            assert(h[a].0 != h[b].0);
        }
        assert(h2[i].0 == v.context);
        let j = choose|j: int| 0 <= j < h2.len() && h2[j].0 == v.context;
        if j != i {
            if j < i {
                assert(h2[j].0 != h2[i].0);
            } else {
                assert(h2[i].0 != h2[j].0);
            }
        }
    } else {
        assert(h2 == h.push((v.context, pos)));
        assert forall|a: int, b: int| 0 <= a < b < h2.len() implies (#[trigger] h2[a]).0 != (#[trigger] h2[b]).0 by {
            if b == h.len() {
                assert(h[a].0 != v.context);
            } else {
                assert(h[a].0 != h[b].0);
            }
        }
        assert(h2[h.len() as int].0 == v.context);
        let j = choose|j: int| 0 <= j < h2.len() && h2[j].0 == v.context;
        if j < h.len() {
            assert(h[j].0 == v.context);
        }
    }
}

fn strs_eq(a: &Vec<String>, b: &Vec<String>) -> (r: bool)
    ensures
        r == (strs_view(a@) == strs_view(b@)),
{
    if a.len() != b.len() {
        return false;
    }
    let mut i: usize = 0;
    while i < a.len()
        invariant
            i <= a@.len(),
            a@.len() == b@.len(),
            forall|k: int| 0 <= k < i ==> a@[k]@ == b@[k]@,
        decreases a@.len() - i,
    {
        let x = crate::text::chars_of(a[i].as_str());
        let y = crate::text::chars_of(b[i].as_str());
        if !chars_eq(&x, &y) {
            assert(strs_view(a@)[i as int] != strs_view(b@)[i as int]);
            return false;
        }
        i = i + 1;
    }
    assert(strs_view(a@) =~= strs_view(b@));
    true
}

impl NavState {
    pub open spec fn wf(&self) -> bool {
        history_unique(self@.history)
    }

    /// A closed view at the top, `height` pixels high.
    pub fn new(height: u32) -> (r: Self)
        ensures
            r.wf(),
            r@.selected_index == 0,
            r@.scroll_offset == 0,
            r@.height == height,
            r@.context.len() == 0,
            r@.history.len() == 0,
    {
        let r = NavState {
            selected_index: 0,
            scroll_offset: 0,
            height,
            context: Vec::new(),
            context_history: Vec::new(),
        };
        assert(r@.history =~= Seq::<(Seq<Seq<char>>, (usize, usize))>::empty());
        r
    }

    /// Keeps the selection within `items_len` rows and visible in a viewport of
    /// `max_visible` rows; see `adjust_spec`.
    pub fn adjust_scroll(&mut self, items_len: usize, max_visible: usize)
        ensures
            (final(self)@.selected_index, final(self)@.scroll_offset) == adjust_spec(
                old(self)@.selected_index,
                old(self)@.scroll_offset,
                items_len,
                max_visible,
            ),
            final(self)@.height == old(self)@.height,
            final(self)@.context == old(self)@.context,
            final(self)@.history == old(self)@.history,
            final(self).wf() == old(self).wf(),
    {
        if items_len == 0 {
            self.selected_index = 0;
            self.scroll_offset = 0;
            return;
        }
        if self.selected_index >= items_len {
            self.selected_index = items_len - 1;
        }
        if self.selected_index < self.scroll_offset {
            self.scroll_offset = self.selected_index;
        } else if self.selected_index - self.scroll_offset >= max_visible {
            self.scroll_offset = self.selected_index - max_visible + 1;
        }
    }

    /// Opens a view of `items_len` rows at `context`, `height` pixels high: at the top, with
    /// nothing remembered.
    pub fn open_ui(&mut self, items_len: usize, context: Vec<String>, height: u32)
        ensures
            final(self).wf(),
            final(self)@ == (NavView {
                selected_index: 0,
                scroll_offset: 0,
                height,
                context: strs_view(context@),
                history: Seq::empty(),
            }),
    {
        self.context = context;
        self.selected_index = 0;
        self.scroll_offset = 0;
        self.context_history.clear();
        self.height = height;
        assert(self@.history =~= Seq::<(Seq<Seq<char>>, (usize, usize))>::empty());
    }

    fn history_find(&self, ctx: &Vec<String>) -> (r: Option<usize>)
        requires
            self.wf(),
        ensures
            r matches Some(i) ==> i < self@.history.len() && self@.history[i as int].0 == strs_view(ctx@) && (forall|j: int|
                0 <= j < self@.history.len() && self@.history[j].0 == strs_view(ctx@) ==> j == i),
            r is None ==> forall|j: int| 0 <= j < self@.history.len() ==> self@.history[j].0 != strs_view(ctx@),
    {
        let n = self.context_history.len();
        for i in 0..n
            invariant
                n == self.context_history@.len(),
                self@.history.len() == n,
                history_unique(self@.history),
                forall|j: int| 0 <= j < i ==> self@.history[j].0 != strs_view(ctx@),
        {
            if strs_eq(&self.context_history[i].0, ctx) {
                proof {
                    assert forall|j: int| 0 <= j < self@.history.len() && self@.history[j].0 == strs_view(ctx@) implies j
                        == i by {
                        if j != i {
                            if j < i {
                            } else {
                                assert(self@.history[i as int].0 != self@.history[j].0);
                            }
                        }
                    }
                }
                return Some(i);
            }
        }
        None
    }

    /// Shows `items_len` new rows for `new_context` in a viewport `height` pixels high
    /// holding `max_visible` rows; see `update_spec`.
    pub fn update_items(&mut self, items_len: usize, new_context: Vec<String>, height: u32, max_visible: usize)
        requires
            old(self).wf(),
        ensures
            final(self).wf(),
            final(self)@ == update_spec(old(self)@, items_len, strs_view(new_context@), height, max_visible),
    {
        let ghost v0 = self@;
        let changed = !strs_eq(&self.context, &new_context);
        let mut old_context = new_context;
        std::mem::swap(&mut old_context, &mut self.context);
        self.height = height;
        if changed {
            let pos = (self.selected_index, self.scroll_offset);
            let ghost h0 = self@.history;
            match self.history_find(&old_context) {
                Some(i) => {
                    let mut slot = (old_context, pos);
                    std::mem::swap(&mut slot, &mut self.context_history[i]);
                    proof {
                        assert(self@.history =~= h0.update(i as int, (v0.context, pos)));
                        assert forall|a: int, b: int| 0 <= a < b < self@.history.len() implies (#[trigger] self@.history[a]).0
                            != (#[trigger] self@.history[b]).0 by {
                            assert(h0[a].0 != h0[b].0);
                        }
                        assert(history_put(h0, v0.context, pos) == h0.update(i as int, (v0.context, pos)));
                    }
                },
                None => {
                    self.context_history.push((old_context, pos));
                    proof {
                        assert(self@.history =~= h0.push((v0.context, pos)));
                        assert forall|a: int, b: int| 0 <= a < b < self@.history.len() implies (#[trigger] self@.history[a]).0
                            != (#[trigger] self@.history[b]).0 by {
                            if b == h0.len() {
                                assert(h0[a].0 != v0.context);
                            }
                        }
                    }
                },
            }
            let ghost h1 = self@.history;
            let found = self.history_find(&self.context);
            match found {
                Some(i) => {
                    let (idx, offset) = self.context_history[i].1;
                    self.selected_index = if items_len == 0 {
                        0
                    } else if idx < items_len {
                        idx
                    } else {
                        items_len - 1
                    };
                    self.scroll_offset = offset;
                    proof {
                        assert(history_get(h1, strs_view(self.context@)) == Some((idx, offset)));
                    }
                },
                None => {
                    self.selected_index = 0;
                    self.scroll_offset = 0;
                },
            }
        }
        self.adjust_scroll(items_len, max_visible);
    }

    /// After the compositor configures the surface: the height is the one for the rows
    /// (not the size it reports), and the selection is kept visible.
    pub fn handle_configure(&mut self, items_len: usize, height: u32, max_visible: usize)
        ensures
            final(self).wf() == old(self).wf(),
            (final(self)@.selected_index, final(self)@.scroll_offset) == adjust_spec(
                old(self)@.selected_index,
                old(self)@.scroll_offset,
                items_len,
                max_visible,
            ),
            final(self)@.height == height,
            final(self)@.context == old(self)@.context,
            final(self)@.history == old(self)@.history,
    {
        self.height = height;
        self.adjust_scroll(items_len, max_visible);
    }
}

// ---------------------------------------------------------------------------
// Keys
// ---------------------------------------------------------------------------

/// The keys the notification center reacts to.
#[derive(Debug, Clone, Copy, PartialEq, Eq, Structural)]
pub enum Key {
    N,
    P,
    J,
    Down,
    Tab,
    K,
    Up,
    IsoLeftTab,
    Home,
    End,
    PageUp,
    PageDown,
    LowerD,
    Delete,
    UpperD,
    M,
    Return,
    KpEnter,
    Space,
    Grave,
    BackSpace,
    Escape,
    BracketLeft,
    H,
    Left,
    Q,
    Other,
}

/// What a key press asks for.
#[derive(Debug)]
pub enum KeyAction {
    /// Select this row, keep it visible, redraw.
    Select(usize),
    /// Tell the engine.
    Send(UiEvent),
    /// Tell the engine and close the overlay.
    SendAndClose(UiEvent),
    /// Enter the selected group or invoke the selected notification's action.
    Activate,
    Nothing,
}

pub enum KeyActionView {
    Select(usize),
    Send(UiEventView),
    SendAndClose(UiEventView),
    Activate,
    Nothing,
}

impl View for KeyAction {
    type V = KeyActionView;

    open spec fn view(&self) -> KeyActionView {
        match self {
            KeyAction::Select(i) => KeyActionView::Select(*i),
            KeyAction::Send(e) => KeyActionView::Send(e@),
            KeyAction::SendAndClose(e) => KeyActionView::SendAndClose(e@),
            KeyAction::Activate => KeyActionView::Activate,
            KeyAction::Nothing => KeyActionView::Nothing,
        }
    }
}

/// The action key sent for a notification: its first action, else `default`.
pub open spec fn action_key_of(item: UiItemView) -> Seq<char> {
    if item.actions.len() > 0 {
        item.actions[0]
    } else {
        "default"@
    }
}

/// Deleting a row: a group goes whole; a notification by its id.
pub open spec fn delete_event_spec(item: UiItemView) -> Option<UiEventView> {
    if item.is_group {
        Some(UiEventView::DeleteGroup(item.key))
    } else {
        match item.id {
            Some(id) => Some(UiEventView::DeleteItem(id)),
            None => None,
        }
    }
}

pub open spec fn send_opt(e: Option<UiEventView>) -> KeyActionView {
    match e {
        Some(x) => KeyActionView::Send(x),
        None => KeyActionView::Nothing,
    }
}

/// What key `key` does with the given modifiers, rows, selection, whether the view is
/// the top one, and rows per page.
pub open spec fn key_action_spec(
    key: Key,
    ctrl: bool,
    shift: bool,
    items: Seq<UiItemView>,
    sel: usize,
    at_top: bool,
    max_visible: usize,
) -> KeyActionView {
    let len = items.len();
    let page = if max_visible > 1 {
        max_visible
    } else {
        1
    };
    let next = if len > 0 {
        KeyActionView::Select(((sel + 1) % (len as int)) as usize)
    } else {
        KeyActionView::Nothing
    };
    let prev = if len > 0 {
        KeyActionView::Select(
            if sel == 0 {
                (len - 1) as usize
            } else {
                (sel - 1) as usize
            },
        )
    } else {
        KeyActionView::Nothing
    };
    let item = if sel < len {
        Some(items[sel as int])
    } else {
        None
    };
    match key {
        Key::N => if ctrl {
            next
        } else {
            KeyActionView::Nothing
        },
        Key::P => if ctrl {
            prev
        } else {
            KeyActionView::Nothing
        },
        Key::J | Key::Down | Key::Tab => next,
        Key::K | Key::Up | Key::IsoLeftTab => prev,
        Key::Home => if len > 0 {
            KeyActionView::Select(0)
        } else {
            KeyActionView::Nothing
        },
        Key::End => if len > 0 {
            KeyActionView::Select((len - 1) as usize)
        } else {
            KeyActionView::Nothing
        },
        Key::PageUp => if len > 0 {
            KeyActionView::Select(
                if sel >= page {
                    (sel - page) as usize
                } else {
                    0
                },
            )
        } else {
            KeyActionView::Nothing
        },
        Key::PageDown => if len > 0 {
            KeyActionView::Select(
                if sel + page < len - 1 {
                    (sel + page) as usize
                } else {
                    (len - 1) as usize
                },
            )
        } else {
            KeyActionView::Nothing
        },
        Key::LowerD | Key::Delete => match item {
            Some(it) => if shift || ctrl {
                match it.id {
                    Some(id) => KeyActionView::Send(UiEventView::DeleteItem(id)),
                    None => KeyActionView::Nothing,
                }
            } else {
                send_opt(delete_event_spec(it))
            },
            None => KeyActionView::Nothing,
        },
        Key::UpperD => if shift {
            KeyActionView::Send(UiEventView::ClearAll)
        } else {
            match item {
                Some(it) => send_opt(delete_event_spec(it)),
                None => KeyActionView::Nothing,
            }
        },
        Key::M => if ctrl {
            KeyActionView::Activate
        } else {
            KeyActionView::Nothing
        },
        Key::Return | Key::KpEnter | Key::Space => if shift {
            match item {
                Some(it) => match it.id {
                    Some(id) => KeyActionView::Send(UiEventView::ActionInvoked { id, action_key: action_key_of(it) }),
                    None => KeyActionView::Nothing,
                },
                None => KeyActionView::Nothing,
            }
        } else {
            KeyActionView::Activate
        },
        Key::Grave | Key::Q => KeyActionView::SendAndClose(UiEventView::CloseUi),
        Key::BackSpace => if ctrl || shift {
            KeyActionView::SendAndClose(UiEventView::CloseUi)
        } else {
            KeyActionView::Send(UiEventView::LeaveGroup)
        },
        Key::Escape | Key::BracketLeft => if key == Key::Escape || ctrl {
            if at_top {
                KeyActionView::SendAndClose(UiEventView::CloseUi)
            } else {
                KeyActionView::Send(UiEventView::LeaveGroup)
            }
        } else {
            KeyActionView::Nothing
        },
        Key::H | Key::Left => KeyActionView::Send(UiEventView::LeaveGroup),
        Key::Other => KeyActionView::Nothing,
    }
}

/// The action key of a row; see `action_key_of`.
fn action_key_exec(item: &UiItem) -> (r: String)
    ensures
        r@ == action_key_of(item@),
{
    if item.actions.len() > 0 {
        item.actions[0].clone()
    } else {
        "default".to_owned()
    }
}

/// The event that deletes a row; see `delete_event_spec`.
pub fn delete_event(item: &UiItem) -> (r: Option<UiEvent>)
    ensures
        match r {
            Some(e) => delete_event_spec(item@) == Some(e@),
            None => delete_event_spec(item@) is None,
        },
{
    if item.is_group {
        Some(UiEvent::DeleteGroup(item.key.clone()))
    } else {
        match item.id {
            Some(id) => Some(UiEvent::DeleteItem(id)),
            None => None,
        }
    }
}

fn send_opt_exec(e: Option<UiEvent>) -> (r: KeyAction)
    ensures
        r@ == send_opt(
            match e {
                Some(x) => Some(x@),
                None => None,
            },
        ),
{
    match e {
        Some(x) => KeyAction::Send(x),
        None => KeyAction::Nothing,
    }
}

/// What a key press does; see `key_action_spec`. `max_visible` is the number of rows
/// the viewport shows, the page size.
pub fn press_key(
    key: Key,
    ctrl: bool,
    shift: bool,
    items: &Vec<UiItem>,
    selected: usize,
    at_top: bool,
    max_visible: usize,
) -> (r: KeyAction)
    ensures
        r@ == key_action_spec(key, ctrl, shift, items_view(items@), selected, at_top, max_visible),
{
    let len = items.len();
    let page = if max_visible > 1 {
        max_visible
    } else {
        1
    };
    let is_next = match key {
        Key::N => ctrl,
        Key::J | Key::Down | Key::Tab => true,
        _ => false,
    };
    let is_prev = match key {
        Key::P => ctrl,
        Key::K | Key::Up | Key::IsoLeftTab => true,
        _ => false,
    };
    if is_next {
        if len > 0 {
            let s = if selected < len - 1 {
                selected + 1
            } else {
                (selected % len + 1) % len
            };
            proof {
                if selected < len - 1 {
                    vstd::arithmetic::div_mod::lemma_small_mod((selected + 1) as nat, len as nat);
                } else {
                    lemma_succ_mod(selected as int, len as int);
                }
            }
            return KeyAction::Select(s);
        }
        return KeyAction::Nothing;
    }
    if is_prev {
        if len > 0 {
            return KeyAction::Select(if selected == 0 { len - 1 } else { selected - 1 });
        }
        return KeyAction::Nothing;
    }
    match key {
        Key::N | Key::P => KeyAction::Nothing,
        Key::Home => if len > 0 {
            KeyAction::Select(0)
        } else {
            KeyAction::Nothing
        },
        Key::End => if len > 0 {
            KeyAction::Select(len - 1)
        } else {
            KeyAction::Nothing
        },
        Key::PageUp => if len > 0 {
            KeyAction::Select(if selected >= page { selected - page } else { 0 })
        } else {
            KeyAction::Nothing
        },
        Key::PageDown => if len > 0 {
            KeyAction::Select(if selected < len - 1 && page < len - 1 - selected { selected + page } else { len - 1 })
        } else {
            KeyAction::Nothing
        },
        Key::LowerD | Key::Delete => {
            if selected < len {
                let it = &items[selected];
                if shift || ctrl {
                    match it.id {
                        Some(id) => KeyAction::Send(UiEvent::DeleteItem(id)),
                        None => KeyAction::Nothing,
                    }
                } else {
                    send_opt_exec(delete_event(it))
                }
            } else {
                KeyAction::Nothing
            }
        },
        Key::UpperD => {
            if shift {
                KeyAction::Send(UiEvent::ClearAll)
            } else if selected < len {
                send_opt_exec(delete_event(&items[selected]))
            } else {
                KeyAction::Nothing
            }
        },
        Key::M => if ctrl {
            KeyAction::Activate
        } else {
            KeyAction::Nothing
        },
        Key::Return | Key::KpEnter | Key::Space => {
            if shift {
                if selected < len {
                    match items[selected].id {
                        Some(id) => KeyAction::Send(
                            UiEvent::ActionInvoked { id, action_key: action_key_exec(&items[selected]) },
                        ),
                        None => KeyAction::Nothing,
                    }
                } else {
                    KeyAction::Nothing
                }
            } else {
                KeyAction::Activate
            }
        },
        Key::Grave | Key::Q => KeyAction::SendAndClose(UiEvent::CloseUi),
        Key::BackSpace => if ctrl || shift {
            KeyAction::SendAndClose(UiEvent::CloseUi)
        } else {
            KeyAction::Send(UiEvent::LeaveGroup)
        },
        Key::Escape | Key::BracketLeft => {
            let is_escape = match key {
                Key::Escape => true,
                _ => false,
            };
            if is_escape || ctrl {
                if at_top {
                    KeyAction::SendAndClose(UiEvent::CloseUi)
                } else {
                    KeyAction::Send(UiEvent::LeaveGroup)
                }
            } else {
                KeyAction::Nothing
            }
        },
        Key::H | Key::Left => KeyAction::Send(UiEvent::LeaveGroup),
        _ => KeyAction::Nothing,
    }
}

proof fn lemma_succ_mod(s: int, n: int)
    requires
        0 < n,
        s >= n - 1,
    ensures
        ((s % n) + 1) % n == (s + 1) % n,
{
    vstd::arithmetic::div_mod::lemma_add_mod_noop(s, 1, n);
    if n > 1 {
        vstd::arithmetic::div_mod::lemma_small_mod(1, n as nat);
    } else {
        assert((s % n) + 1 == 1);
        assert(1int % 1 == 0);
    }
}

/// What activating the selected row does: a group of more than one notification is
/// entered; a notification has its action invoked (its first one, else `default`).
pub open spec fn activation_spec(items: Seq<UiItemView>, sel: usize) -> Option<UiEventView> {
    if sel < items.len() {
        let it = items[sel as int];
        if it.is_group && it.count > 1 {
            Some(UiEventView::EnterGroup(it.key))
        } else {
            match it.id {
                Some(id) => Some(UiEventView::ActionInvoked { id, action_key: action_key_of(it) }),
                None => None,
            }
        }
    } else {
        None
    }
}

/// Law: activating a row enters a group of more than one notification; on a notification
/// it invokes the first action that notification offers (the action "default" when it
/// offers none). Shift+Enter on a notification invokes the same action, without entering.
pub proof fn lemma_activation_invokes_first_action(items: Seq<UiItemView>, sel: usize, ctrl: bool, at_top: bool, max_visible: usize)
    requires
        sel < items.len(),
    ensures
        items[sel as int].is_group && items[sel as int].count > 1 ==> activation_spec(items, sel) == Some(
            UiEventView::EnterGroup(items[sel as int].key),
        ),
        !(items[sel as int].is_group && items[sel as int].count > 1) ==> match items[sel as int].id {
            Some(id) => activation_spec(items, sel) == Some(UiEventView::ActionInvoked {
                id,
                action_key: if items[sel as int].actions.len() > 0 {
                    items[sel as int].actions[0]
                } else {
                    "default"@
                },
            }),
            None => activation_spec(items, sel) is None,
        },
        items[sel as int].id is Some && items[sel as int].actions.len() > 0 ==> key_action_spec(
            Key::Return,
            ctrl,
            true,
            items,
            sel,
            at_top,
            max_visible,
        ) == KeyActionView::Send(
            UiEventView::ActionInvoked { id: items[sel as int].id.unwrap(), action_key: items[sel as int].actions[0] },
        ),
{
}

/// The event that activating the selected row sends; see `activation_spec`. Nothing
/// happens within `ACTIVATION_DEBOUNCE_MS` of the previous activation.
pub fn activation_event(items: &Vec<UiItem>, selected: usize, since_last_ms: u64) -> (r: Option<UiEvent>)
    ensures
        since_last_ms < ACTIVATION_DEBOUNCE_MS ==> r is None,
        since_last_ms >= ACTIVATION_DEBOUNCE_MS ==> match r {
            Some(e) => activation_spec(items_view(items@), selected) == Some(e@),
            None => activation_spec(items_view(items@), selected) is None,
        },
{
    if since_last_ms < ACTIVATION_DEBOUNCE_MS {
        return None;
    }
    if selected < items.len() {
        let it = &items[selected];
        if it.is_group && it.count > 1 {
            Some(UiEvent::EnterGroup(it.key.clone()))
        } else {
            match it.id {
                Some(id) => Some(UiEvent::ActionInvoked { id, action_key: action_key_exec(it) }),
                None => None,
            }
        }
    } else {
        None
    }
}

/// Activations closer together than this are ignored.
pub const ACTIVATION_DEBOUNCE_MS: u64 = 150;

/// The selection after one step of the scroll wheel: down one row (stopping at the last)
/// or up one row (stopping at the first); nothing without rows or movement.
pub open spec fn scroll_step_spec(len: usize, sel: usize, step: i32) -> Option<usize> {
    if step > 0 && len > 0 {
        Some(if sel + 1 < len { (sel + 1) as usize } else { (len - 1) as usize })
    } else if step < 0 && len > 0 {
        Some(if sel > 0 { (sel - 1) as usize } else { 0 })
    } else {
        None
    }
}

/// See `scroll_step_spec`.
pub fn scroll_step(len: usize, selected: usize, step: i32) -> (r: Option<usize>)
    ensures
        r == scroll_step_spec(len, selected, step),
{
    if step > 0 && len > 0 {
        Some(if selected < len - 1 { selected + 1 } else { len - 1 })
    } else if step < 0 && len > 0 {
        Some(if selected > 0 { selected - 1 } else { 0 })
    } else {
        None
    }
}

} // verus!
