//! The notification engine: the state of the daemon and its decisions. Each request or
//! event is a step from one state to the next, returning the effects (signals, UI
//! commands, timers) that the daemon then performs.
use vstd::prelude::*;
use vstd::multiset::Multiset;
use std::collections::HashMap;
use crate::config::{Config, configured_spec, keys_spec, lemma_configured_keeps};
use crate::data::cluster::{
    NotificationCluster, ClusterNode, NodeView, cl_wf, tree_inv, cl_len, lemma_tree_inv_kept, lemma_files_well,
    path_meets_no_leaf, no_group_keyed, cl_leafs, best_of, urgency_of,
    views, opt_ref_view, opt_view, lemma_cl_len_leafs, strs_view, remove_view, insert_view,
    lemma_remove_len, lemma_insert_len, get_child, walk_view, has_context_view, resolve_view,
    remove_branch_path_view, lemma_remove_branch_path_wf, lemma_remove_branch_path_len, lemma_child_len_le,
    node_len, lemma_children_view, node_wf, node_view, lemma_insert_then_walk, lemma_remove_wf,
    lemma_remove_keeps_other, lemma_insert_wf, leaf_ids, lemma_remove_ids, files_cleanly, lemma_insert_ids,
    lemma_insert_keeps_other, lemma_insert_then_remove, ids_of, lemma_remove_branch_path_ids,
    lemma_remove_branch_keeps_other, lemma_found_is_leaf, lemma_empty_to_multiset,
};
use crate::data::notification::{
    Notification, NotificationView, SortOrder, single_line_spec, clone_strings, strip_markup_spec, strip_markup,
    clock_spec, format_hh_mm,
};
use crate::ipc::sway::FocusTargetHints;
use crate::text::{decimal, u32_to_decimal, u64_to_decimal, chars_of, string_from_chars, push_str_chars};

verus! {

broadcast use vstd::std_specs::hash::group_hash_axioms;

/// One row of the notification center.
#[derive(Debug, PartialEq)]
pub struct UiItem {
    pub id: Option<u32>,
    pub is_group: bool,
    pub key: String,
    pub title: String,
    pub subtitle: String,
    pub summary: String,
    pub app_name: String,
    pub body: String,
    pub time_str: String,
    pub urgency: u8,
    pub count: usize,
    pub icon: String,
    pub actions: Vec<String>,
    pub created_at: u64,
}

/// Mathematical value of a row.
pub struct UiItemView {
    pub id: Option<u32>,
    pub is_group: bool,
    pub key: Seq<char>,
    pub title: Seq<char>,
    pub subtitle: Seq<char>,
    pub summary: Seq<char>,
    pub app_name: Seq<char>,
    pub body: Seq<char>,
    pub time_str: Seq<char>,
    pub urgency: u8,
    pub count: usize,
    pub icon: Seq<char>,
    pub actions: Seq<Seq<char>>,
    pub created_at: u64,
}

impl View for UiItem {
    type V = UiItemView;

    open spec fn view(&self) -> UiItemView {
        UiItemView {
            id: self.id,
            is_group: self.is_group,
            key: self.key@,
            title: self.title@,
            subtitle: self.subtitle@,
            summary: self.summary@,
            app_name: self.app_name@,
            body: self.body@,
            time_str: self.time_str@,
            urgency: self.urgency,
            count: self.count,
            icon: self.icon@,
            actions: self.actions.deep_view(),
            created_at: self.created_at,
        }
    }
}

pub open spec fn items_view(s: Seq<UiItem>) -> Seq<UiItemView> {
    s.map_values(|x: UiItem| x@)
}

/// Commands to the notification center.
#[derive(Debug)]
pub enum UiCommand {
    Open { items: Vec<UiItem>, context: Vec<String> },
    UpdateItems { items: Vec<UiItem>, context: Vec<String> },
    Close,
}

/// What the user did in the notification center.
#[derive(Debug)]
pub enum UiEvent {
    EnterGroup(String),
    LeaveGroup,
    ActionInvoked { id: u32, action_key: String },
    DeleteItem(u32),
    DeleteGroup(String),
    ClearAll,
    CloseUi,
}

/// Mathematical value of a user event.
pub enum UiEventView {
    EnterGroup(Seq<char>),
    LeaveGroup,
    ActionInvoked { id: u32, action_key: Seq<char> },
    DeleteItem(u32),
    DeleteGroup(Seq<char>),
    ClearAll,
    CloseUi,
}

impl View for UiEvent {
    type V = UiEventView;

    open spec fn view(&self) -> UiEventView {
        match self {
            UiEvent::EnterGroup(k) => UiEventView::EnterGroup(k@),
            UiEvent::LeaveGroup => UiEventView::LeaveGroup,
            UiEvent::ActionInvoked { id, action_key } => UiEventView::ActionInvoked { id: *id, action_key: action_key@ },
            UiEvent::DeleteItem(id) => UiEventView::DeleteItem(*id),
            UiEvent::DeleteGroup(k) => UiEventView::DeleteGroup(k@),
            UiEvent::ClearAll => UiEventView::ClearAll,
            UiEvent::CloseUi => UiEventView::CloseUi,
        }
    }
}

/// Something the daemon must do after a step, in order.
#[derive(Debug)]
pub enum Effect {
    /// Emit `NotificationClosed(id, reason)`.
    NotificationClosed { id: u32, reason: u32 },
    /// Emit `NotificationsUpdated(mode, count, urgency, single_line)` with the values
    /// `count` and `compute_single_line` give for the state after the step.
    NotificationsUpdated { mode: u32 },
    /// Emit `ActionInvoked(id, action_key)`.
    ActionInvoked { id: u32, action_key: String },
    /// Focus the window the notification came from, then emit `ActionInvoked`
    /// (and `NotificationClosed(id, 2)` when `close_after`).
    FocusThenInvoke { id: u32, action_key: String, close_after: bool, timeout_ms: u64, hints: FocusTargetHints },
    /// Open the notification center with the items `ui_snapshot` gives.
    OpenUi,
    /// Refresh the open notification center with the items `ui_snapshot` gives.
    RefreshUi,
    /// Close the notification center.
    CloseUi,
    /// Expire notification `id` after `delay_ms` milliseconds.
    ScheduleExpiry { id: u32, delay_ms: u64 },
    /// Drop any pending expiry of notification `id`.
    CancelExpiry { id: u32 },
    /// Drop the decoded image of notification `id`.
    ForgetImage { id: u32 },
    /// Load the icon named `icon` ahead of display.
    PreloadIcon { icon: String },
}

/// Mathematical value of an effect.
pub enum EffectView {
    NotificationClosed { id: u32, reason: u32 },
    NotificationsUpdated { mode: u32 },
    ActionInvoked { id: u32, action_key: Seq<char> },
    FocusThenInvoke {
        id: u32,
        action_key: Seq<char>,
        close_after: bool,
        timeout_ms: u64,
        hints: (Seq<char>, Seq<char>, Seq<char>),
    },
    OpenUi,
    RefreshUi,
    CloseUi,
    ScheduleExpiry { id: u32, delay_ms: u64 },
    CancelExpiry { id: u32 },
    ForgetImage { id: u32 },
    PreloadIcon { icon: Seq<char> },
}

impl View for Effect {
    type V = EffectView;

    open spec fn view(&self) -> EffectView {
        match self {
            Effect::NotificationClosed { id, reason } => EffectView::NotificationClosed { id: *id, reason: *reason },
            Effect::NotificationsUpdated { mode } => EffectView::NotificationsUpdated { mode: *mode },
            Effect::ActionInvoked { id, action_key } => EffectView::ActionInvoked { id: *id, action_key: action_key@ },
            Effect::FocusThenInvoke { id, action_key, close_after, timeout_ms, hints } => EffectView::FocusThenInvoke {
                id: *id,
                action_key: action_key@,
                close_after: *close_after,
                timeout_ms: *timeout_ms,
                hints: hints@,
            },
            Effect::OpenUi => EffectView::OpenUi,
            Effect::RefreshUi => EffectView::RefreshUi,
            Effect::CloseUi => EffectView::CloseUi,
            Effect::ScheduleExpiry { id, delay_ms } => EffectView::ScheduleExpiry { id: *id, delay_ms: *delay_ms },
            Effect::CancelExpiry { id } => EffectView::CancelExpiry { id: *id },
            Effect::ForgetImage { id } => EffectView::ForgetImage { id: *id },
            Effect::PreloadIcon { icon } => EffectView::PreloadIcon { icon: icon@ },
        }
    }
}

pub open spec fn effects_view(s: Seq<Effect>) -> Seq<EffectView> {
    s.map_values(|e: Effect| e@)
}

/// Appends `e` to the effects of a step.
fn emit(effects: &mut Vec<Effect>, e: Effect)
    ensures
        effects_view(final(effects)@) == effects_view(old(effects)@).push(e@),
{
    let ghost before = effects@;
    effects.push(e);
    assert(effects_view(effects@) =~= effects_view(before).push(e@));
}

pub struct Engine {
    tree: NotificationCluster,
    map: HashMap<u32, Vec<String>>,
    last: Option<Notification>,
    id_counter: u32,
    config: Config,
    show_icons: bool,
    ui_open: bool,
    current_context: Vec<String>,
    dump_dirty: bool,
}

/// Mathematical value of the engine state.
pub struct EngineView {
    pub tree: Seq<(Seq<char>, NodeView)>,
    /// Grouping path of each notification, by id.
    pub index: Map<u32, Seq<Seq<char>>>,
    /// The notification shown on the status bar when one arrives.
    pub last: Option<NotificationView>,
    pub id_counter: u32,
    pub ui_open: bool,
    pub context: Seq<Seq<char>>,
    pub dump_dirty: bool,
}

pub open spec fn index_view(m: Map<u32, Vec<String>>) -> Map<u32, Seq<Seq<char>>> {
    m.map_values(|v: Vec<String>| strs_view(v@))
}

/// A list of strings, viewed element by element, is its deep view.
pub proof fn lemma_deep_strs(v: Vec<String>)
    ensures
        v.deep_view() == strs_view(v@),
{
    assert(v.deep_view() =~= strs_view(v@));
}

impl View for Engine {
    type V = EngineView;

    closed spec fn view(&self) -> EngineView {
        EngineView {
            tree: self.tree@,
            index: index_view(self.map@),
            last: opt_view(self.last),
            id_counter: self.id_counter,
            ui_open: self.ui_open,
            context: strs_view(self.current_context@),
            dump_dirty: self.dump_dirty,
        }
    }
}

/// Largest timeout (ms) that converts to nanoseconds within a `u64`.
pub open spec fn max_timeout_ms() -> u64 {
    18446744073709
}

impl Engine {
    pub closed spec fn config_spec(&self) -> Config {
        self.config
    }

    pub closed spec fn show_icons_spec(&self) -> bool {
        self.show_icons
    }

    /// Well-formed engine state: a well-formed tree whose count fits a `usize`, and a
    /// default expiry that converts to nanoseconds.
    pub closed spec fn wf(&self) -> bool {
        &&& cl_wf(self.tree@)
        &&& tree_inv(self.tree@)
        &&& cl_len(self.tree@) < usize::MAX
        &&& self.config.behavior.default_expire_timeout_ms <= max_timeout_ms()
    }

    /// Number of notifications.
    pub closed spec fn count_spec(&self) -> nat {
        cl_len(self.tree@)
    }

    /// Law: the tree of a well-formed engine is one the cluster operations build.
    pub proof fn lemma_wf_tree(&self)
        requires
            self.wf(),
        ensures
            tree_inv(self@.tree),
            cl_len(self@.tree) == self.count_spec(),
    {
    }
}

/// The status-bar line sent with an update in `mode`: only when notifications arrive
/// (mode 0) and there are some, the line of the last one (else of the best one).
pub open spec fn single_line_for(v: EngineView, mode: u32) -> Seq<char> {
    if mode == 0 && cl_len(v.tree) > 0 {
        match v.last {
            Some(l) => single_line_spec(l),
            None => match best_of(cl_leafs(v.tree)) {
                Some(b) => single_line_spec(b),
                None => Seq::empty(),
            },
        }
    } else {
        Seq::empty()
    }
}

/// `n` with the grouping path the index holds for it.
pub open spec fn with_index_keys(n: NotificationView, index: Map<u32, Seq<Seq<char>>>) -> NotificationView {
    if index.contains_key(n.id) {
        NotificationView { keys: Some(index[n.id]), ..n }
    } else {
        n
    }
}

/// What is persisted: the non-transient notifications, in tree order, each with its
/// grouping path.
pub open spec fn dumped(s: Seq<NotificationView>, index: Map<u32, Seq<Seq<char>>>) -> Seq<NotificationView>
    decreases s.len(),
{
    if s.len() == 0 {
        Seq::empty()
    } else {
        dumped(s.drop_last(), index) + (if s.last().transient {
            Seq::empty()
        } else {
            seq![with_index_keys(s.last(), index)]
        })
    }
}

/// Steps from `a` to `b` counting up in 32-bit wrapping arithmetic.
pub open spec fn wrap_dist(a: u32, b: u32) -> int {
    (b as int - a as int) % 0x1_0000_0000
}

/// Whether `x` can be given to a new notification.
pub open spec fn id_free(index: Map<u32, Seq<Seq<char>>>, x: u32) -> bool {
    x != 0 && !index.contains_key(x)
}

/// `start + j` in 32-bit wrapping arithmetic.
pub open spec fn wrap_add(start: u32, j: int) -> u32 {
    ((start as int + j) % 0x1_0000_0000) as u32
}

/// The state after notification `id` is removed: it leaves the tree along its grouping
/// path and the index; when `update_last` and it was the last one shown, the best
/// remaining one takes its place. Nothing changes for an unknown id.
pub open spec fn remove_step(v: EngineView, id: u32, update_last: bool) -> EngineView {
    if v.index.contains_key(id) {
        let t = remove_view(v.tree, v.index[id], id).0;
        EngineView {
            tree: t,
            index: v.index.remove(id),
            last: if update_last && (v.last matches Some(l) && l.id == id) {
                best_of(cl_leafs(t))
            } else {
                v.last
            },
            dump_dirty: true,
            ..v
        }
    } else {
        v
    }
}

/// The effects of removing `id`: its decoded image is dropped, and, when it is known,
/// its pending expiry.
pub open spec fn remove_effects(v: EngineView, id: u32) -> Seq<EffectView> {
    if v.index.contains_key(id) {
        seq![EffectView::ForgetImage { id }, EffectView::CancelExpiry { id }]
    } else {
        seq![EffectView::ForgetImage { id }]
    }
}

/// `a + b`, or `u64::MAX` when that does not fit.
pub open spec fn sat_add(a: u64, b: int) -> u64 {
    if a + b > u64::MAX {
        u64::MAX
    } else {
        (a + b) as u64
    }
}

/// A notification as filed at time `now`: the first matching rule applied, then, for
/// one that expires but was given no time, the configured default timeout.
pub open spec fn prepared(cfg: Config, n: NotificationView, now: u64) -> NotificationView {
    let c = configured_spec(cfg, n);
    let ms = cfg.behavior.default_expire_timeout_ms;
    if c.expires && c.expires_at is None && ms > 0 {
        NotificationView { expires_at: Some(sat_add(now, ms * 1_000_000)), ..c }
    } else {
        c
    }
}

/// Eviction rank of a notification: urgency, creation time, id.
pub open spec fn age_keys(s: Seq<NotificationView>) -> Seq<(u8, u64, u32)> {
    s.map_values(|n: NotificationView| (n.urgency, n.created_at, n.id))
}

/// `a` is evicted no later than `b`: less urgent, or as urgent and not newer.
pub open spec fn evicts_first(a: (u8, u64, u32), b: (u8, u64, u32)) -> bool {
    a.0 < b.0 || (a.0 == b.0 && a.1 <= b.1)
}

/// `x` placed into the ordered `s` after every entry that is evicted no later.
pub open spec fn insert_by_age(s: Seq<(u8, u64, u32)>, x: (u8, u64, u32)) -> Seq<(u8, u64, u32)>
    decreases s.len(),
{
    if s.len() == 0 {
        seq![x]
    } else if evicts_first(s.last(), x) {
        s.push(x)
    } else {
        insert_by_age(s.drop_last(), x).push(s.last())
    }
}

/// The stable ordering of `s` by urgency, then creation time: the eviction order.
pub open spec fn eviction_order(s: Seq<(u8, u64, u32)>) -> Seq<(u8, u64, u32)>
    decreases s.len(),
{
    if s.len() == 0 {
        Seq::empty()
    } else {
        insert_by_age(eviction_order(s.drop_last()), s.last())
    }
}

/// The ids evicted to bring the history down to `max` notifications (none when `max`
/// is 0): the first ones in eviction order.
pub open spec fn eviction_ids(v: EngineView, max: usize) -> Seq<u32> {
    if max > 0 && cl_len(v.tree) > max {
        eviction_order(age_keys(cl_leafs(v.tree))).take(cl_len(v.tree) - max).map_values(
            |k: (u8, u64, u32)| k.2,
        )
    } else {
        Seq::empty()
    }
}

/// The state after removing `ids` in turn.
pub open spec fn evict_all(v: EngineView, ids: Seq<u32>) -> EngineView
    decreases ids.len(),
{
    if ids.len() == 0 {
        v
    } else {
        remove_step(evict_all(v, ids.drop_last()), ids.last(), true)
    }
}

/// Removals change neither the counter, the notification center, nor its context.
pub proof fn lemma_evict_all_keeps(v: EngineView, ids: Seq<u32>)
    ensures
        evict_all(v, ids).id_counter == v.id_counter,
        evict_all(v, ids).ui_open == v.ui_open,
        evict_all(v, ids).context == v.context,
    decreases ids.len(),
{
    if ids.len() > 0 {
        lemma_evict_all_keeps(v, ids.drop_last());
    }
}

/// The effects of removing `ids` in turn: each removal's, then `NotificationClosed`
/// with reason 4 for each one that was known.
pub open spec fn evict_effects(v: EngineView, ids: Seq<u32>) -> Seq<EffectView>
    decreases ids.len(),
{
    if ids.len() == 0 {
        Seq::empty()
    } else {
        let w = evict_all(v, ids.drop_last());
        evict_effects(v, ids.drop_last()) + remove_effects(w, ids.last()) + (if w.index.contains_key(
            ids.last(),
        ) {
            seq![EffectView::NotificationClosed { id: ids.last(), reason: 4 }]
        } else {
            Seq::empty()
        })
    }
}

/// The state once `n` is filed, before eviction: any notification with its id is
/// removed, then it goes into the index and the tree under its grouping path and
/// becomes the last one shown.
pub open spec fn filed(v: EngineView, cfg: Config, n: NotificationView, now: u64) -> EngineView {
    let v1 = remove_step(v, n.id, false);
    let p = prepared(cfg, n, now);
    let keys = keys_spec(cfg, n);
    EngineView { last: Some(p), index: v1.index.insert(n.id, keys), tree: insert_view(v1.tree, keys, p), ..v1 }
}

/// The state after a `Notify` request.
pub open spec fn notify_view(v: EngineView, cfg: Config, n: NotificationView, now: u64) -> EngineView {
    let v2 = filed(v, cfg, n, now);
    EngineView { dump_dirty: true, ..evict_all(v2, eviction_ids(v2, cfg.behavior.max_notifications)) }
}

/// The effects of filing `n`: dropping what belonged to a notification it replaces,
/// preloading its icon when icons are shown, and scheduling its expiry.
pub open spec fn file_effects(
    v: EngineView,
    cfg: Config,
    show_icons: bool,
    n: NotificationView,
    now: u64,
) -> Seq<EffectView> {
    (if v.index.contains_key(n.id) {
        remove_effects(v, n.id)
    } else {
        Seq::empty()
    }) + prepare_effects(cfg, show_icons, n, now)
}

/// The effects of preparing `n`: preloading its icon when icons are shown, and
/// scheduling its expiry when it expires later than `now`.
pub open spec fn prepare_effects(cfg: Config, show_icons: bool, n: NotificationView, now: u64) -> Seq<EffectView> {
    let p = prepared(cfg, n, now);
    (if p.app_icon.len() > 0 && show_icons {
        seq![EffectView::PreloadIcon { icon: p.app_icon }]
    } else {
        Seq::empty()
    }) + (if p.expires && (p.expires_at matches Some(e) && e > now) {
        seq![EffectView::ScheduleExpiry { id: n.id, delay_ms: ((p.expires_at.unwrap() - now) / 1_000_000) as u64 }]
    } else {
        Seq::empty()
    })
}

/// The effects of a `Notify` request, in order: those of filing, those of eviction, the
/// `NotificationsUpdated` signal for an arrival, and a refresh of an open notification
/// center.
pub open spec fn notify_effects(
    v: EngineView,
    cfg: Config,
    show_icons: bool,
    n: NotificationView,
    now: u64,
) -> Seq<EffectView> {
    let v2 = filed(v, cfg, n, now);
    file_effects(v, cfg, show_icons, n, now) + evict_effects(v2, eviction_ids(v2, cfg.behavior.max_notifications))
        + seq![EffectView::NotificationsUpdated { mode: 0 }] + (if v.ui_open {
        seq![EffectView::RefreshUi]
    } else {
        Seq::empty()
    })
}

/// The notification filed under `id`, found along its grouping path.
pub open spec fn lookup_leaf(v: EngineView, id: u32) -> Option<NotificationView> {
    if v.index.contains_key(id) {
        match get_child(walk_view(v.tree, v.index[id]).1, decimal(id as nat)) {
            Some(NodeView::Item(x)) => Some(x),
            _ => None,
        }
    } else {
        None
    }
}

/// Whether a close request is refused: the client closed it (reason 3) and its rule
/// marks it to ignore such requests.
pub open spec fn close_ignored(v: EngineView, id: u32, reason: u32) -> bool {
    reason == 3 && (lookup_leaf(v, id) matches Some(x) && x.ignore_close)
}

/// The state after a `CloseNotification` request.
pub open spec fn close_view(v: EngineView, id: u32, reason: u32) -> EngineView {
    if close_ignored(v, id, reason) {
        v
    } else {
        remove_step(v, id, true)
    }
}

/// The effects of a `CloseNotification` request: none when refused; else those of the
/// removal and, when the notification was known, `NotificationClosed` with the reason,
/// `NotificationsUpdated` for a removal, and a refresh of an open notification center.
pub open spec fn close_effects(v: EngineView, id: u32, reason: u32) -> Seq<EffectView> {
    if close_ignored(v, id, reason) {
        Seq::empty()
    } else if v.index.contains_key(id) {
        remove_effects(v, id) + seq![
            EffectView::NotificationClosed { id, reason },
            EffectView::NotificationsUpdated { mode: 1 },
        ] + (if v.ui_open {
            seq![EffectView::RefreshUi]
        } else {
            Seq::empty()
        })
    } else {
        remove_effects(v, id)
    }
}

/// `ctx` without its last keys until it is a path of groups in `tree`.
pub open spec fn prune_context(tree: Seq<(Seq<char>, NodeView)>, ctx: Seq<Seq<char>>) -> Seq<Seq<char>>
    decreases ctx.len(),
{
    if ctx.len() == 0 || has_context_view(tree, ctx) {
        ctx
    } else {
        prune_context(tree, ctx.drop_last())
    }
}

/// After notifications went away: close an open notification center whose tree has no
/// children left, else move its context up to a group that still exists.
pub open spec fn settle_view(v: EngineView) -> EngineView {
    if !v.ui_open {
        v
    } else if v.tree.len() == 0 {
        EngineView { ui_open: false, ..v }
    } else {
        EngineView { context: prune_context(v.tree, v.context), ..v }
    }
}

pub open spec fn settle_effects(v: EngineView) -> Seq<EffectView> {
    if !v.ui_open {
        Seq::empty()
    } else if v.tree.len() == 0 {
        seq![EffectView::CloseUi]
    } else {
        seq![EffectView::RefreshUi]
    }
}

/// The state after notification `id` expires.
pub open spec fn expire_view(v: EngineView, id: u32) -> EngineView {
    if v.index.contains_key(id) {
        settle_view(remove_step(v, id, true))
    } else {
        v
    }
}

/// The effects of an expiry: those of the removal, then, when it was known,
/// `NotificationClosed` with reason 1, `NotificationsUpdated` for a removal, and what
/// the notification center needs.
pub open spec fn expire_effects(v: EngineView, id: u32) -> Seq<EffectView> {
    if v.index.contains_key(id) {
        remove_effects(v, id) + seq![
            EffectView::NotificationClosed { id, reason: 1 },
            EffectView::NotificationsUpdated { mode: 1 },
        ] + settle_effects(remove_step(v, id, true))
    } else {
        remove_effects(v, id)
    }
}

/// After notifications were deleted from the notification center: close it when the
/// tree has no children left, else move its context up to a group that still exists.
pub open spec fn after_delete_view(v: EngineView) -> EngineView {
    if v.tree.len() == 0 {
        EngineView { ui_open: false, ..v }
    } else {
        EngineView { context: prune_context(v.tree, v.context), ..v }
    }
}

pub open spec fn after_delete_effects(v: EngineView) -> Seq<EffectView> {
    if v.tree.len() == 0 {
        seq![EffectView::CloseUi]
    } else if v.ui_open {
        seq![EffectView::RefreshUi]
    } else {
        Seq::empty()
    }
}

/// Whether the notification `id` stays after one of its actions is invoked.
pub open spec fn is_resident(v: EngineView, id: u32) -> bool {
    lookup_leaf(v, id) matches Some(x) && x.resident
}

/// What identifies the window of notification `id`: its app name, summary and body.
pub open spec fn hints_of(v: EngineView, id: u32) -> (Seq<char>, Seq<char>, Seq<char>) {
    match lookup_leaf(v, id) {
        Some(x) => (x.app_name, x.summary, x.body),
        None => (Seq::empty(), Seq::empty(), Seq::empty()),
    }
}

/// The ids of `s`, as a set.
pub open spec fn id_set(s: Seq<NotificationView>) -> Set<u32> {
    s.map_values(|n: NotificationView| n.id).to_set()
}

/// For each notification of `s`: drop its image and pending expiry, and signal it
/// closed by the user.
pub open spec fn dismiss_effects(s: Seq<NotificationView>) -> Seq<EffectView>
    decreases s.len(),
{
    if s.len() == 0 {
        Seq::empty()
    } else {
        dismiss_effects(s.drop_last()) + seq![
            EffectView::ForgetImage { id: s.last().id },
            EffectView::CancelExpiry { id: s.last().id },
            EffectView::NotificationClosed { id: s.last().id, reason: 2 },
        ]
    }
}

/// The path the notification center's context resolves to.
pub open spec fn resolved_context(v: EngineView) -> Seq<Seq<char>> {
    resolve_view(v.tree, v.context, true).0
}

/// The state once the branch `key` of the current group is deleted, before the
/// notification center is updated.
pub open spec fn group_deleted(v: EngineView, key: Seq<char>) -> EngineView {
    let (t, removed) = remove_branch_path_view(v.tree, resolved_context(v).push(key));
    EngineView {
        tree: t,
        index: v.index.remove_keys(id_set(removed)),
        last: if (v.last matches Some(l) && id_set(removed).contains(l.id)) {
            best_of(cl_leafs(t))
        } else {
            v.last
        },
        dump_dirty: true,
        ..v
    }
}

/// The path auto-expanded when the notification center opens: while the group has a
/// single child and it is a group of more than one notification, enter it.
pub open spec fn expand_path(c: Seq<(Seq<char>, NodeView)>) -> Seq<Seq<char>>
    decreases c,
{
    if c.len() == 1 {
        match c[0].1 {
            NodeView::Group(sub) => if cl_len(sub) > 1 {
                seq![c[0].0] + expand_path(sub)
            } else {
                Seq::empty()
            },
            NodeView::Item(_) => Seq::empty(),
        }
    } else {
        Seq::empty()
    }
}

/// The state after a user event in the notification center.
pub open spec fn ui_event_view(v: EngineView, ev: UiEventView) -> EngineView {
    match ev {
        UiEventView::EnterGroup(key) => EngineView { context: resolved_context(v).push(key), ..v },
        UiEventView::LeaveGroup => if v.context.len() > 0 {
            EngineView { context: v.context.drop_last(), ..v }
        } else {
            EngineView { ui_open: false, ..v }
        },
        UiEventView::ActionInvoked { id, action_key } => {
            let w = if is_resident(v, id) {
                v
            } else {
                remove_step(v, id, true)
            };
            EngineView { ui_open: false, ..w }
        },
        UiEventView::DeleteItem(id) => if v.index.contains_key(id) {
            after_delete_view(remove_step(v, id, true))
        } else {
            v
        },
        UiEventView::DeleteGroup(key) => after_delete_view(group_deleted(v, key)),
        UiEventView::ClearAll => EngineView {
            tree: Seq::empty(),
            index: v.index.remove_keys(id_set(cl_leafs(v.tree))),
            last: None,
            context: Seq::empty(),
            dump_dirty: true,
            ui_open: false,
            ..v
        },
        UiEventView::CloseUi => EngineView { ui_open: false, ..v },
    }
}

/// The effects of a user event in the notification center, in order.
pub open spec fn ui_event_effects(v: EngineView, cfg: Config, ev: UiEventView) -> Seq<EffectView> {
    match ev {
        UiEventView::EnterGroup(_) => if v.ui_open {
            seq![EffectView::RefreshUi]
        } else {
            Seq::empty()
        },
        UiEventView::LeaveGroup => if v.context.len() > 0 {
            if v.ui_open {
                seq![EffectView::RefreshUi]
            } else {
                Seq::empty()
            }
        } else {
            seq![EffectView::CloseUi, EffectView::NotificationsUpdated { mode: 2 }]
        },
        UiEventView::ActionInvoked { id, action_key } => {
            let resident = is_resident(v, id);
            (if resident {
                Seq::empty()
            } else {
                remove_effects(v, id) + seq![EffectView::NotificationsUpdated { mode: 1 }]
            }) + seq![EffectView::CloseUi] + (if cfg.behavior.focus_on_action {
                seq![
                    EffectView::FocusThenInvoke {
                        id,
                        action_key,
                        close_after: !resident,
                        timeout_ms: cfg.behavior.urgent_timeout_ms,
                        hints: hints_of(v, id),
                    },
                ]
            } else {
                seq![EffectView::ActionInvoked { id, action_key }] + (if resident {
                    Seq::empty()
                } else {
                    seq![EffectView::NotificationClosed { id, reason: 2 }]
                })
            })
        },
        UiEventView::DeleteItem(id) => if v.index.contains_key(id) {
            remove_effects(v, id) + seq![
                EffectView::NotificationClosed { id, reason: 2 },
                EffectView::NotificationsUpdated { mode: 1 },
            ] + after_delete_effects(remove_step(v, id, true))
        } else {
            remove_effects(v, id)
        },
        UiEventView::DeleteGroup(key) => {
            let removed = remove_branch_path_view(v.tree, resolved_context(v).push(key)).1;
            dismiss_effects(removed) + seq![EffectView::NotificationsUpdated { mode: 1 }]
                + after_delete_effects(group_deleted(v, key))
        },
        UiEventView::ClearAll => dismiss_effects(cl_leafs(v.tree)) + seq![
            EffectView::NotificationsUpdated { mode: 1 },
            EffectView::CloseUi,
        ],
        UiEventView::CloseUi => seq![EffectView::NotificationsUpdated { mode: 2 }],
    }
}

/// The state after a request to show (or hide) the notification center: an open one
/// closes; one with notifications opens, expanded along `expand_path`.
pub open spec fn toggle_view(v: EngineView) -> EngineView {
    if v.ui_open {
        EngineView { ui_open: false, ..v }
    } else if v.tree.len() == 0 || cl_len(v.tree) == 0 {
        v
    } else {
        EngineView { ui_open: true, context: expand_path(v.tree), ..v }
    }
}

pub open spec fn toggle_effects(v: EngineView) -> Seq<EffectView> {
    if v.ui_open {
        seq![EffectView::CloseUi, EffectView::NotificationsUpdated { mode: 2 }]
    } else if v.tree.len() == 0 || cl_len(v.tree) == 0 {
        Seq::empty()
    } else {
        seq![EffectView::OpenUi, EffectView::NotificationsUpdated { mode: 2 }]
    }
}

/// The grouping path of a restored notification: the stored one, else the rules'.
pub open spec fn restore_keys(cfg: Config, n: NotificationView) -> Seq<Seq<char>> {
    match n.keys {
        Some(k) => k,
        None => keys_spec(cfg, n),
    }
}

/// A restored notification as filed: without its stored path when it has one, else with
/// the rules applied.
pub open spec fn restore_item(cfg: Config, n: NotificationView) -> NotificationView {
    match n.keys {
        Some(_) => NotificationView { keys: None, ..n },
        None => configured_spec(cfg, n),
    }
}

/// A restored notification that has already expired at `now` is dropped.
pub open spec fn restore_expired(cfg: Config, n: NotificationView, now: u64) -> bool {
    let m = restore_item(cfg, n);
    m.expires && (m.expires_at matches Some(e) && e <= now)
}

/// The state after restoring `n` on top of `w`.
pub open spec fn restore_one_view(w: EngineView, cfg: Config, n: NotificationView, now: u64) -> EngineView {
    if restore_expired(cfg, n, now) {
        w
    } else {
        EngineView {
            index: w.index.insert(n.id, restore_keys(cfg, n)),
            tree: insert_view(w.tree, restore_keys(cfg, n), restore_item(cfg, n)),
            last: Some(restore_item(cfg, n)),
            ..w
        }
    }
}

/// The expiry scheduled while restoring `n`.
pub open spec fn restore_one_effects(cfg: Config, n: NotificationView, now: u64) -> Seq<EffectView> {
    let m = restore_item(cfg, n);
    if m.expires && (m.expires_at matches Some(e) && e > now) {
        seq![EffectView::ScheduleExpiry { id: n.id, delay_ms: ((m.expires_at.unwrap() - now) / 1_000_000) as u64 }]
    } else {
        Seq::empty()
    }
}

/// The state after restoring `s` in order.
pub open spec fn restore_state(v: EngineView, cfg: Config, s: Seq<NotificationView>, now: u64) -> EngineView
    decreases s.len(),
{
    if s.len() == 0 {
        v
    } else {
        restore_one_view(restore_state(v, cfg, s.drop_last(), now), cfg, s.last(), now)
    }
}

/// The expiries scheduled while restoring `s`, in order.
pub open spec fn restore_effects(cfg: Config, s: Seq<NotificationView>, now: u64) -> Seq<EffectView>
    decreases s.len(),
{
    if s.len() == 0 {
        Seq::empty()
    } else {
        restore_effects(cfg, s.drop_last(), now) + restore_one_effects(cfg, s.last(), now)
    }
}

/// The largest id in `s`, or 0.
pub open spec fn max_id_of(s: Seq<NotificationView>) -> u32
    decreases s.len(),
{
    if s.len() == 0 {
        0
    } else if s.last().id > max_id_of(s.drop_last()) {
        s.last().id
    } else {
        max_id_of(s.drop_last())
    }
}

/// The state after restoring the saved notifications `s` at time `now`: each one not
/// yet expired is filed, and the id counter continues after the largest id seen.
pub open spec fn restore_view(v: EngineView, cfg: Config, s: Seq<NotificationView>, now: u64) -> EngineView {
    EngineView { id_counter: wrap_add(max_id_of(s), 1), ..restore_state(v, cfg, s, now) }
}

/// Restoring one notification adds at most one to the count.
pub proof fn lemma_restore_one_len(v: EngineView, cfg: Config, n: NotificationView, now: u64)
    requires
        cl_wf(v.tree),
    ensures
        cl_len(restore_one_view(v, cfg, n, now).tree) <= cl_len(v.tree) + 1,
{
    lemma_insert_len(v.tree, restore_keys(cfg, n), restore_item(cfg, n));
}

/// `s (n)`.
pub open spec fn with_count(s: Seq<char>, n: nat) -> Seq<char> {
    s + seq![' ', '('] + decimal(n) + seq![')']
}

/// The row of a group: its best notification's text and the count; the title and app
/// name carry the count when there is more than one. The clock time is left empty.
pub open spec fn group_item(key: Seq<char>, sub: Seq<(Seq<char>, NodeView)>) -> UiItemView {
    let best = best_of(cl_leafs(sub));
    let n = cl_len(sub);
    let multi = n > 1;
    let raw_app = match best {
        Some(b) => b.app_name,
        None => key,
    };
    UiItemView {
        id: match best {
            Some(b) => Some(b.id),
            None => None,
        },
        is_group: multi,
        key,
        title: if multi {
            with_count(key, n)
        } else {
            key
        },
        subtitle: strip_markup_spec(
            match best {
                Some(b) => single_line_spec(b),
                None => Seq::empty(),
            },
        ),
        summary: strip_markup_spec(
            match best {
                Some(b) => b.summary,
                None => key,
            },
        ),
        app_name: if multi {
            with_count(strip_markup_spec(raw_app), n)
        } else {
            strip_markup_spec(raw_app)
        },
        body: strip_markup_spec(
            match best {
                Some(b) => b.body,
                None => Seq::empty(),
            },
        ),
        time_str: Seq::empty(),
        urgency: urgency_of(cl_leafs(sub)),
        count: n as usize,
        icon: match best {
            Some(b) => b.app_icon,
            None => Seq::empty(),
        },
        actions: match best {
            Some(b) => b.actions,
            None => Seq::empty(),
        },
        created_at: match best {
            Some(b) => b.created_at,
            None => 0,
        },
    }
}

/// The row of a single notification: the summary (the app name when there is none) as
/// title, the body as subtitle. The clock time is left empty.
pub open spec fn leaf_item(key: Seq<char>, x: NotificationView) -> UiItemView {
    let title = strip_markup_spec(
        if x.summary.len() == 0 {
            x.app_name
        } else {
            x.summary
        },
    );
    UiItemView {
        id: Some(x.id),
        is_group: false,
        key,
        title,
        subtitle: strip_markup_spec(x.body),
        summary: title,
        app_name: strip_markup_spec(x.app_name),
        body: strip_markup_spec(x.body),
        time_str: Seq::empty(),
        urgency: x.urgency,
        count: 1,
        icon: x.app_icon,
        actions: x.actions,
        created_at: x.created_at,
    }
}

pub open spec fn node_item(key: Seq<char>, node: NodeView) -> UiItemView {
    match node {
        NodeView::Group(sub) => group_item(key, sub),
        NodeView::Item(x) => leaf_item(key, x),
    }
}

/// The rows of a group's children, in key order.
pub open spec fn child_items(c: Seq<(Seq<char>, NodeView)>) -> Seq<UiItemView> {
    Seq::new(c.len(), |i: int| node_item(c[i].0, c[i].1))
}

/// The order of a view: at the top the configured one; in a group that holds groups,
/// its best notification's group order, else the configured group order; in a group of
/// notifications only, its best notification's order, else the configured one.
pub open spec fn view_order(resolved: Seq<Seq<char>>, c: Seq<(Seq<char>, NodeView)>, cfg: Config) -> SortOrder {
    if resolved.len() == 0 {
        cfg.behavior.sort_order
    } else if exists|i: int| 0 <= i < c.len() && (#[trigger] c[i]).1 is Group {
        match best_of(cl_leafs(c)) {
            Some(b) => match b.group_sort_order {
                Some(g) => g,
                None => cfg.behavior.group_sort_order,
            },
            None => cfg.behavior.group_sort_order,
        }
    } else {
        match best_of(cl_leafs(c)) {
            Some(b) => b.sort_order,
            None => cfg.behavior.sort_order,
        }
    }
}

/// `None` sorts before any id.
pub open spec fn opt_lt(a: Option<u32>, b: Option<u32>) -> bool {
    match (a, b) {
        (None, Some(_)) => true,
        (Some(x), Some(y)) => x < y,
        _ => false,
    }
}

/// Row `a` may come before row `b`: more urgent first; then newest (or oldest) first;
/// then by id in the same direction.
pub open spec fn item_before(order: SortOrder, a: UiItemView, b: UiItemView) -> bool {
    a.urgency > b.urgency || (a.urgency == b.urgency && match order {
        SortOrder::NewestToOldest => a.created_at > b.created_at || (a.created_at == b.created_at && !opt_lt(
            a.id,
            b.id,
        )),
        SortOrder::OldestToNewest => a.created_at < b.created_at || (a.created_at == b.created_at && !opt_lt(
            b.id,
            a.id,
        )),
    })
}

pub open spec fn insert_item(order: SortOrder, s: Seq<UiItemView>, x: UiItemView) -> Seq<UiItemView>
    decreases s.len(),
{
    if s.len() == 0 {
        seq![x]
    } else if item_before(order, s.last(), x) {
        s.push(x)
    } else {
        insert_item(order, s.drop_last(), x).push(s.last())
    }
}

/// The stable ordering of `s` by `item_before`.
pub open spec fn sort_items(order: SortOrder, s: Seq<UiItemView>) -> Seq<UiItemView>
    decreases s.len(),
{
    if s.len() == 0 {
        Seq::empty()
    } else {
        insert_item(order, sort_items(order, s.drop_last()), s.last())
    }
}

/// The rows of the view a context designates, in the view's order.
pub open spec fn ui_items_spec(v: EngineView, cfg: Config, ctx: Seq<Seq<char>>) -> Seq<UiItemView> {
    let (r, c) = resolve_view(v.tree, ctx, true);
    sort_items(view_order(r, c, cfg), child_items(c))
}

impl Engine {
    /// Number of notifications and the highest urgency.
    pub fn count(&self) -> (r: (u32, u32))
        requires
            self.wf(),
        ensures
            r.0 == (cl_len(self@.tree) as u32),
            r.1 == urgency_of(cl_leafs(self@.tree)) as u32,
    {
        let n = self.tree.len();
        let u = self.tree.urgency();
        (#[verifier::truncate] (n as u32), u as u32)
    }

    /// The status-bar line for an update in `mode`; see `single_line_for`.
    pub fn compute_single_line(&self, mode: u32) -> (r: String)
        requires
            self.wf(),
        ensures
            r@ == single_line_for(self@, mode),
    {
        let num = self.tree.len();
        if mode == 0 && num > 0 {
            match &self.last {
                Some(l) => l.single_line(),
                None => match self.tree.best() {
                    Some(b) => b.single_line(),
                    None => String::new(),
                },
            }
        } else {
            String::new()
        }
    }

    /// The notifications to persist; see `dumped`.
    pub fn dump_list(&self) -> (r: Vec<Notification>)
        ensures
            views(r@) == dumped(cl_leafs(self@.tree), self@.index),
    {
        let all = self.tree.leafs();
        let ghost src = views(all@);
        let ghost index = self@.index;
        let mut out: Vec<Notification> = Vec::new();
        for i in 0..all.len()
            invariant
                src == views(all@),
                index == index_view(self.map@),
                views(out@) == dumped(src.subrange(0, i as int), index),
        {
            proof {
                assert(src.subrange(0, i as int + 1).drop_last() =~= src.subrange(0, i as int));
            }
            if !all[i].transient {
                let mut n = all[i].clone();
                match self.map.get(&n.id) {
                    Some(keys) => {
                        let k = clone_strings(keys);
                        proof {
                            lemma_deep_strs(*keys);
                        }
                        n.keys = Some(k);
                    },
                    None => {},
                }
                out.push(n);
            }
            proof {
                assert(views(out@) =~= dumped(src.subrange(0, i as int + 1), index));
            }
        }
        proof {
            assert(src.subrange(0, all@.len() as int) =~= src);
        }
        out
    }

    /// Whether notifications changed since the last save.
    pub fn dump_dirty(&self) -> (r: bool)
        ensures
            r == self@.dump_dirty,
    {
        self.dump_dirty
    }

    /// Records that the notifications were saved.
    pub fn mark_dump_clean(&mut self)
        ensures
            final(self)@ == (EngineView { dump_dirty: false, ..old(self)@ }),
            final(self).wf() == old(self).wf(),
            final(self).config_spec() == old(self).config_spec(),
    {
        self.dump_dirty = false;
    }

    /// Chooses the id of an incoming notification: the one it replaces, or else the
    /// first id from the counter on (wrapping, skipping 0) that no notification has.
    pub fn allocate_id(&mut self, replaces_id: u32) -> (id: u32)
        requires
            old(self).wf(),
            old(self)@.index.len() < u32::MAX,
        ensures
            final(self).wf(),
            final(self).config_spec() == old(self).config_spec(),
            replaces_id > 0 ==> id == replaces_id && final(self)@ == old(self)@,
            replaces_id == 0 ==> {
                &&& id_free(old(self)@.index, id)
                &&& forall|j: int| 0 <= j < wrap_dist(old(self)@.id_counter, id)
                    ==> !id_free(old(self)@.index, #[trigger] wrap_add(old(self)@.id_counter, j))
                &&& final(self)@ == (EngineView { id_counter: wrap_add(id, 1), ..old(self)@ })
            },
    {
        if replaces_id > 0 {
            return replaces_id;
        }
        let ghost start = self.id_counter;
        let ghost dom = self.map@.dom();
        let ghost mut visited: Set<u32> = Set::empty();
        let ghost mut steps: int = 0;
        assert(index_view(self.map@).dom() =~= dom);
        let mut c = self.id_counter;
        while c == 0 || self.map.contains_key(&c)
            invariant
                0 <= steps < 0x1_0000_0000,
                c == wrap_add(start, steps),
                dom == self.map@.dom(),
                dom.finite(),
                dom.len() < u32::MAX,
                visited.finite(),
                visited.len() == steps,
                forall|x: u32| visited.contains(x) ==> x == 0 || dom.contains(x),
                forall|x: u32| #[trigger] visited.contains(x) ==> ((x as int - start as int) % 0x1_0000_0000) < steps,
                forall|j: int| 0 <= j < steps ==> !id_free(index_view(self.map@), #[trigger] wrap_add(start, j)),
            decreases 0x1_0000_0000 - steps,
        {
            let ghost cur = c;
            proof {
                assert(((cur as int - start as int) % 0x1_0000_0000) == steps);
                assert(!visited.contains(cur));
                visited = visited.insert(cur);
                steps = steps + 1;
                vstd::set_lib::lemma_len_subset(visited, dom.insert(0));
                assert(dom.insert(0).len() <= dom.len() + 1);
                assert(index_view(self.map@).contains_key(cur) || cur == 0);
            }
            c = c.wrapping_add(1);
        }
        let new_id = c;
        self.id_counter = c.wrapping_add(1);
        proof {
            assert(wrap_dist(start, new_id) == steps);
        }
        new_id
    }
}

impl Engine {
    /// Removes notification `id`; see `remove_step` and `remove_effects`. Returns
    /// whether it was known.
    fn remove_internal(&mut self, id: u32, update_last: bool, effects: &mut Vec<Effect>) -> (removed: bool)
        requires
            old(self).wf(),
        ensures
            final(self).wf(),
            final(self).config_spec() == old(self).config_spec(),
            final(self).show_icons_spec() == old(self).show_icons_spec(),
            final(self)@ == remove_step(old(self)@, id, update_last),
            removed == old(self)@.index.contains_key(id),
            effects_view(final(effects)@) == effects_view(old(effects)@) + remove_effects(old(self)@, id),
    {
        let ghost e0 = effects_view(effects@);
        let ghost v0 = self@;
        emit(effects, Effect::ForgetImage { id });
        let ghost m0 = self.map@;
        match self.map.remove(&id) {
            Some(keys) => {
                emit(effects, Effect::CancelExpiry { id });
                proof {
                    assert(index_view(self.map@) =~= index_view(m0).remove(id));
                    assert(v0.index[id] == strs_view(keys@));
                    lemma_remove_len(self.tree@, strs_view(keys@), id);
                }
                let _ = self.tree.remove(keys.as_slice(), id);
                self.dump_dirty = true;
                if update_last {
                    let last_removed = match &self.last {
                        Some(l) => l.id == id,
                        None => false,
                    };
                    if last_removed {
                        self.last = match self.tree.best() {
                            Some(b) => Some(b.clone()),
                            None => None,
                        };
                    }
                }
                proof {
                    assert(effects_view(effects@) =~= e0 + remove_effects(v0, id));
                }
                true
            },
            None => {
                proof {
                    assert(!v0.index.contains_key(id));
                    assert(self.map@ =~= m0);
                    assert(effects_view(effects@) =~= e0 + remove_effects(v0, id));
                }
                false
            },
        }
    }
}

/// `insert_by_age` of the ordered entries, in place.
fn insert_by_age_exec(v: &mut Vec<(u8, u64, u32)>, x: (u8, u64, u32))
    ensures
        final(v)@ == insert_by_age(old(v)@, x),
    decreases old(v)@.len(),
{
    let n = v.len();
    if n == 0 {
        v.push(x);
    } else {
        let last = v[n - 1];
        if last.0 < x.0 || (last.0 == x.0 && last.1 <= x.1) {
            v.push(x);
        } else {
            let ghost before = v@;
            let l = v.pop().unwrap();
            assert(v@ == before.drop_last());
            insert_by_age_exec(v, x);
            v.push(l);
        }
    }
}

pub proof fn lemma_insert_by_age_len(s: Seq<(u8, u64, u32)>, x: (u8, u64, u32))
    ensures
        insert_by_age(s, x).len() == s.len() + 1,
    decreases s.len(),
{
    if s.len() > 0 && !evicts_first(s.last(), x) {
        lemma_insert_by_age_len(s.drop_last(), x);
    }
}

pub proof fn lemma_eviction_order_len(s: Seq<(u8, u64, u32)>)
    ensures
        eviction_order(s).len() == s.len(),
    decreases s.len(),
{
    if s.len() > 0 {
        lemma_eviction_order_len(s.drop_last());
        lemma_insert_by_age_len(eviction_order(s.drop_last()), s.last());
    }
}

/// The eviction order of notifications; see `eviction_order`.
fn eviction_order_exec(leafs: &Vec<Notification>) -> (r: Vec<(u8, u64, u32)>)
    ensures
        r@ == eviction_order(age_keys(views(leafs@))),
{
    let ghost ks = age_keys(views(leafs@));
    let mut r: Vec<(u8, u64, u32)> = Vec::new();
    for i in 0..leafs.len()
        invariant
            ks == age_keys(views(leafs@)),
            r@ == eviction_order(ks.subrange(0, i as int)),
    {
        proof {
            assert(ks.subrange(0, i as int + 1).drop_last() =~= ks.subrange(0, i as int));
        }
        let x = (leafs[i].urgency, leafs[i].created_at, leafs[i].id);
        insert_by_age_exec(&mut r, x);
    }
    proof {
        assert(ks.subrange(0, leafs@.len() as int) =~= ks);
    }
    r
}

impl Engine {
    /// Removes the notifications beyond the configured maximum, least urgent and oldest
    /// first; see `eviction_ids`, `evict_all` and `evict_effects`.
    fn evict_excess(&mut self, effects: &mut Vec<Effect>)
        requires
            old(self).wf(),
        ensures
            final(self).wf(),
            final(self).config_spec() == old(self).config_spec(),
            final(self).show_icons_spec() == old(self).show_icons_spec(),
            final(self)@ == evict_all(old(self)@, eviction_ids(old(self)@, old(self).config_spec().behavior.max_notifications)),
            effects_view(final(effects)@) == effects_view(old(effects)@) + evict_effects(
                old(self)@,
                eviction_ids(old(self)@, old(self).config_spec().behavior.max_notifications),
            ),
    {
        let ghost v2 = self@;
        let ghost e0 = effects_view(effects@);
        let max = self.config.behavior.max_notifications;
        let count = self.tree.len();
        let ghost ids = eviction_ids(v2, max);
        if max > 0 && count > max {
            let leafs = self.tree.leafs();
            let order = eviction_order_exec(&leafs);
            proof {
                lemma_cl_len_leafs(self@.tree);
                lemma_eviction_order_len(age_keys(views(leafs@)));
            }
            let k = count - max;
            for i in 0..k
                invariant
                    self.wf(),
                    self.config == old(self).config,
                    self.show_icons == old(self).show_icons,
                    max == self.config.behavior.max_notifications,
                    ids == eviction_ids(v2, max),
                    k <= order@.len(),
                    ids == order@.take(k as int).map_values(|x: (u8, u64, u32)| x.2),
                    self@ == evict_all(v2, ids.take(i as int)),
                    effects_view(effects@) == e0 + evict_effects(v2, ids.take(i as int)),
            {
                let id = order[i].2;
                proof {
                    assert(ids.take(i as int + 1).drop_last() =~= ids.take(i as int));
                    assert(ids.take(i as int + 1).last() == id);
                }
                let ghost w = self@;
                let removed = self.remove_internal(id, true, effects);
                if removed {
                    emit(effects, Effect::NotificationClosed { id, reason: 4 });
                }
                proof {
                    assert(effects_view(effects@) =~= e0 + evict_effects(v2, ids.take(i as int + 1)));
                }
            }
            proof {
                assert(ids.take(k as int) =~= ids);
            }
        } else {
            proof {
                assert(ids =~= Seq::<u32>::empty());
                assert(effects_view(effects@) =~= e0 + evict_effects(v2, ids));
            }
        }
    }

    /// Applies the rules to `notification` and gives it its default expiry; returns its
    /// grouping path. See `prepared`, `keys_spec` and `prepare_effects`.
    fn prepare(&self, notification: &mut Notification, now_ns: u64, effects: &mut Vec<Effect>) -> (keys: Vec<String>)
        requires
            self.wf(),
        ensures
            final(notification)@ == prepared(self.config_spec(), old(notification)@, now_ns),
            final(notification).id == old(notification).id,
            strs_view(keys@) == keys_spec(self.config_spec(), old(notification)@),
            effects_view(final(effects)@) == effects_view(old(effects)@) + prepare_effects(
                self.config_spec(),
                self.show_icons_spec(),
                old(notification)@,
                now_ns,
            ),
    {
        let ghost n0 = notification@;
        let ghost e0 = effects_view(effects@);
        proof {
            lemma_configured_keeps(self.config, n0);
        }
        let keys = self.config.apply_and_get_keys(notification);
        if !notification.app_icon.as_str().is_empty() && self.show_icons {
            emit(effects, Effect::PreloadIcon { icon: notification.app_icon.clone() });
        }
        if notification.expires && notification.expires_at.is_none() {
            let default_ms = self.config.behavior.default_expire_timeout_ms;
            if default_ms > 0 {
                notification.expires_at = Some(now_ns.saturating_add(default_ms * 1_000_000));
            }
        }
        assert(notification@ == prepared(self.config, n0, now_ns));
        if notification.expires {
            match notification.expires_at {
                Some(exp) => {
                    if exp > now_ns {
                        emit(effects, Effect::ScheduleExpiry { id: notification.id, delay_ms: (exp - now_ns) / 1_000_000 });
                    }
                },
                None => {},
            }
        }
        proof {
            assert(effects_view(effects@) =~= e0 + prepare_effects(self.config, self.show_icons, n0, now_ns));
        }
        keys
    }

    /// Removes the notification that `id` replaces, if any.
    fn drop_replaced(&mut self, id: u32, effects: &mut Vec<Effect>)
        requires
            old(self).wf(),
        ensures
            final(self).wf(),
            final(self).config_spec() == old(self).config_spec(),
            final(self).show_icons_spec() == old(self).show_icons_spec(),
            final(self)@ == remove_step(old(self)@, id, false),
            cl_len(final(self)@.tree) <= cl_len(old(self)@.tree),
            effects_view(final(effects)@) == effects_view(old(effects)@) + (if old(self)@.index.contains_key(id) {
                remove_effects(old(self)@, id)
            } else {
                Seq::empty()
            }),
    {
        let ghost v0 = self@;
        let ghost e0 = effects_view(effects@);
        if self.map.contains_key(&id) {
            self.remove_internal(id, false, effects);
            proof {
                lemma_remove_len(v0.tree, v0.index[id], id);
            }
        } else {
            assert(effects_view(effects@) =~= e0 + Seq::<EffectView>::empty());
        }
    }

    /// Stores a prepared notification under `keys` and makes it the last one shown.
    fn store(&mut self, notif: Notification, keys: Vec<String>)
        requires
            old(self).wf(),
            old(self).count_spec() + 1 < usize::MAX,
        ensures
            final(self).wf(),
            final(self).config_spec() == old(self).config_spec(),
            final(self).show_icons_spec() == old(self).show_icons_spec(),
            final(self)@ == (EngineView {
                last: Some(notif@),
                index: old(self)@.index.insert(notif.id, strs_view(keys@)),
                tree: insert_view(old(self)@.tree, strs_view(keys@), notif@),
                ..old(self)@
            }),
    {
        let id = notif.id;
        self.last = Some(notif.clone());
        let stored = clone_strings(&keys);
        let ghost m1 = self.map@;
        self.map.insert(id, stored);
        proof {
            assert(index_view(self.map@) =~= index_view(m1).insert(id, strs_view(keys@)));
            lemma_insert_len(self.tree@, strs_view(keys@), notif@);
        }
        self.tree.insert(keys.as_slice(), notif);
    }

    /// Files `notification` at time `now_ns`; see `filed` and `file_effects`.
    fn file_notification(&mut self, notification: Notification, now_ns: u64, effects: &mut Vec<Effect>)
        requires
            old(self).wf(),
            old(self).count_spec() + 1 < usize::MAX,
        ensures
            final(self).wf(),
            final(self).config_spec() == old(self).config_spec(),
            final(self).show_icons_spec() == old(self).show_icons_spec(),
            final(self)@ == filed(old(self)@, old(self).config_spec(), notification@, now_ns),
            effects_view(final(effects)@) == effects_view(old(effects)@) + file_effects(
                old(self)@,
                old(self).config_spec(),
                old(self).show_icons_spec(),
                notification@,
                now_ns,
            ),
    {
        let ghost v0 = self@;
        let ghost n0 = notification@;
        let ghost e0 = effects_view(effects@);
        let mut notif = notification;
        self.drop_replaced(notif.id, effects);
        let keys = self.prepare(&mut notif, now_ns, effects);
        self.store(notif, keys);
        proof {
            assert(effects_view(effects@) =~= e0 + file_effects(v0, self.config, self.show_icons, n0, now_ns));
        }
    }

    /// Handles a `Notify` request for `notification`, whose id was chosen by
    /// `allocate_id`, at time `now_ns`; see `notify_view` and `notify_effects`.
    pub fn notify(&mut self, notification: Notification, now_ns: u64) -> (effects: Vec<Effect>)
        requires
            old(self).wf(),
            old(self).count_spec() + 1 < usize::MAX,
        ensures
            final(self).wf(),
            final(self).config_spec() == old(self).config_spec(),
            final(self).show_icons_spec() == old(self).show_icons_spec(),
            final(self)@ == notify_view(old(self)@, old(self).config_spec(), notification@, now_ns),
            consistent(old(self)@) && files_cleanly(
                remove_step(old(self)@, notification@.id, false).tree,
                keys_spec(old(self).config_spec(), notification@),
                notification@.id,
            ) ==> consistent(final(self)@) && (old(self).config_spec().behavior.max_notifications > 0 ==> cl_len(
                final(self)@.tree,
            ) <= old(self).config_spec().behavior.max_notifications),
            effects_view(effects@) == notify_effects(
                old(self)@,
                old(self).config_spec(),
                old(self).show_icons_spec(),
                notification@,
                now_ns,
            ),
    {
        let ghost v0 = self@;
        let ghost n0 = notification@;
        let mut effects: Vec<Effect> = Vec::new();
        self.file_notification(notification, now_ns, &mut effects);
        let ghost v2 = self@;
        self.evict_excess(&mut effects);
        proof {
            lemma_evict_all_keeps(v2, eviction_ids(v2, self.config.behavior.max_notifications));
        }
        self.dump_dirty = true;
        emit(&mut effects, Effect::NotificationsUpdated { mode: 0 });
        if self.ui_open {
            emit(&mut effects, Effect::RefreshUi);
        }
        proof {
            assert(effects_view(effects@) =~= notify_effects(v0, self.config, self.show_icons, n0, now_ns));
            if consistent(v0) && files_cleanly(remove_step(v0, n0.id, false).tree, keys_spec(self.config, n0), n0.id) {
                lemma_notify_respects_limit(v0, self.config, n0, now_ns);
            }
        }
        effects
    }
}

impl Engine {
    /// The notification filed under `id`; see `lookup_leaf`.
    fn find_leaf(&self, id: u32) -> (r: Option<&Notification>)
        requires
            self.wf(),
        ensures
            opt_ref_view(r) == lookup_leaf(self@, id),
    {
        match self.map.get(&id) {
            Some(keys) => {
                let ctx = self.tree.get_context(keys.as_slice(), false);
                let key = u32_to_decimal(id);
                match ctx.child(&key) {
                    Some(ClusterNode::Leaf(n)) => Some(n),
                    _ => None,
                }
            },
            None => None,
        }
    }

    /// Handles a `CloseNotification` request; see `close_view` and `close_effects`.
    pub fn close_notification(&mut self, id: u32, reason: u32) -> (effects: Vec<Effect>)
        requires
            old(self).wf(),
        ensures
            final(self).wf(),
            final(self).config_spec() == old(self).config_spec(),
            final(self).show_icons_spec() == old(self).show_icons_spec(),
            final(self)@ == close_view(old(self)@, id, reason),
            consistent(old(self)@) ==> consistent(final(self)@),
            effects_view(effects@) == close_effects(old(self)@, id, reason),
    {
        let ghost v0 = self@;
        proof {
            if consistent(v0) {
                lemma_requests_keep_consistent(v0, id, reason, UiEventView::ClearAll);
            }
        }
        let mut effects: Vec<Effect> = Vec::new();
        if reason == 3 {
            let ignore = match self.find_leaf(id) {
                Some(n) => n.ignore_close,
                None => false,
            };
            if ignore {
                assert(effects_view(effects@) =~= Seq::<EffectView>::empty());
                return effects;
            }
        }
        if self.remove_internal(id, true, &mut effects) {
            emit(&mut effects, Effect::NotificationClosed { id, reason });
            emit(&mut effects, Effect::NotificationsUpdated { mode: 1 });
            if self.ui_open {
                emit(&mut effects, Effect::RefreshUi);
            }
        }
        proof {
            assert(effects_view(effects@) =~= close_effects(v0, id, reason));
        }
        effects
    }

    /// Closes an open notification center with nothing left to show, or moves its
    /// context up to a group that still exists; see `settle_view`.
    fn settle(&mut self, effects: &mut Vec<Effect>)
        requires
            old(self).wf(),
        ensures
            final(self).wf(),
            final(self).config_spec() == old(self).config_spec(),
            final(self).show_icons_spec() == old(self).show_icons_spec(),
            final(self)@ == settle_view(old(self)@),
            effects_view(final(effects)@) == effects_view(old(effects)@) + settle_effects(old(self)@),
    {
        let ghost e0 = effects_view(effects@);
        if self.ui_open {
            if self.tree.is_empty() {
                self.ui_open = false;
                emit(effects, Effect::CloseUi);
                assert(effects_view(effects@) =~= e0 + settle_effects(old(self)@));
            } else {
                while self.current_context.len() > 0 && !self.tree.has_context(self.current_context.as_slice())
                    invariant
                        self.wf(),
                        self.config == old(self).config,
                        self.show_icons == old(self).show_icons,
                        self.ui_open,
                        self@.tree.len() != 0,
                        self@ == (EngineView { context: self@.context, ..old(self)@ }),
                        prune_context(self@.tree, self@.context) == prune_context(old(self)@.tree, old(self)@.context),
                        effects_view(effects@) == e0,
                    decreases self.current_context@.len(),
                {
                    let ghost before = self.current_context@;
                    self.current_context.pop();
                    proof {
                        assert(strs_view(self.current_context@) =~= strs_view(before).drop_last());
                    }
                }
                assert(prune_context(self@.tree, self@.context) == self@.context);
                emit(effects, Effect::RefreshUi);
                assert(effects_view(effects@) =~= e0 + settle_effects(old(self)@));
            }
        } else {
            assert(effects_view(effects@) =~= e0 + settle_effects(old(self)@));
        }
    }

    /// Handles the expiry of notification `id`; see `expire_view` and `expire_effects`.
    pub fn expire(&mut self, id: u32) -> (effects: Vec<Effect>)
        requires
            old(self).wf(),
        ensures
            final(self).wf(),
            final(self).config_spec() == old(self).config_spec(),
            final(self).show_icons_spec() == old(self).show_icons_spec(),
            final(self)@ == expire_view(old(self)@, id),
            consistent(old(self)@) ==> consistent(final(self)@),
            effects_view(effects@) == expire_effects(old(self)@, id),
    {
        let ghost v0 = self@;
        proof {
            if consistent(v0) {
                lemma_requests_keep_consistent(v0, id, 0, UiEventView::ClearAll);
            }
        }
        let mut effects: Vec<Effect> = Vec::new();
        if self.remove_internal(id, true, &mut effects) {
            emit(&mut effects, Effect::NotificationClosed { id, reason: 1 });
            emit(&mut effects, Effect::NotificationsUpdated { mode: 1 });
            self.settle(&mut effects);
        }
        proof {
            assert(effects_view(effects@) =~= expire_effects(v0, id));
        }
        effects
    }
}

pub proof fn lemma_id_set_push(s: Seq<NotificationView>, x: NotificationView)
    ensures
        id_set(s.push(x)) == id_set(s).insert(x.id),
{
    let f = |n: NotificationView| n.id;
    assert(s.push(x).map_values(f) =~= s.map_values(f).push(x.id));
    assert forall|k: u32| id_set(s.push(x)).contains(k) <==> id_set(s).insert(x.id).contains(k) by {
        if s.map_values(f).push(x.id).contains(k) {
            let i = choose|i: int| 0 <= i < s.map_values(f).push(x.id).len() && s.map_values(f).push(x.id)[i] == k;
            if i < s.len() {
                assert(s.map_values(f).contains(k));
            }
        }
        if s.map_values(f).contains(k) {
            let i = choose|i: int| 0 <= i < s.map_values(f).len() && s.map_values(f)[i] == k;
            assert(s.map_values(f).push(x.id)[i] == k);
        }
        if k == x.id {
            assert(s.map_values(f).push(x.id)[s.len() as int] == k);
        }
    }
    assert(id_set(s.push(x)) =~= id_set(s).insert(x.id));
}

/// Whether some notification of `s` has id `id`.
fn contains_id(s: &Vec<Notification>, id: u32) -> (r: bool)
    ensures
        r == id_set(views(s@)).contains(id),
{
    let ghost vs = views(s@);
    let mut i: usize = 0;
    while i < s.len()
        invariant
            i <= s@.len(),
            vs == views(s@),
            forall|j: int| 0 <= j < i ==> vs[j].id != id,
        decreases s@.len() - i,
    {
        if s[i].id == id {
            proof {
                let f = |n: NotificationView| n.id;
                assert(vs.map_values(f)[i as int] == id);
            }
            return true;
        }
        i = i + 1;
    }
    proof {
        let f = |n: NotificationView| n.id;
        if vs.map_values(f).contains(id) {
            let j = choose|j: int| 0 <= j < vs.map_values(f).len() && vs.map_values(f)[j] == id;
            assert(vs[j].id == id);
        }
    }
    false
}

/// The path `expand_path` gives for `c`.
fn expand_path_exec(c: &NotificationCluster) -> (r: Vec<String>)
    requires
        cl_wf(c@),
        cl_len(c@) <= usize::MAX,
    ensures
        strs_view(r@) == expand_path(c@),
    decreases c,
{
    proof {
        lemma_children_view(c.children@);
    }
    let mut r: Vec<String> = Vec::new();
    if c.children.len() == 1 {
        match &c.children[0].1 {
            ClusterNode::Cluster(sub) => {
                proof {
                    lemma_child_len_le(c@, 0);
                }
                if sub.len() > 1 {
                    r.push(c.children[0].0.clone());
                    let mut rest = expand_path_exec(sub);
                    let ghost a = r@;
                    let ghost b = rest@;
                    r.append(&mut rest);
                    assert(strs_view(r@) =~= strs_view(a) + strs_view(b));
                } else {
                    assert(strs_view(r@) =~= Seq::<Seq<char>>::empty());
                }
            },
            ClusterNode::Leaf(_) => {
                assert(strs_view(r@) =~= Seq::<Seq<char>>::empty());
            },
        }
    } else {
        assert(strs_view(r@) =~= Seq::<Seq<char>>::empty());
    }
    r
}

impl Engine {
    /// Closes the notification center when the tree has no children left, else moves its
    /// context up to a group that still exists; see `after_delete_view`.
    fn after_delete(&mut self, effects: &mut Vec<Effect>)
        requires
            old(self).wf(),
        ensures
            final(self).wf(),
            final(self).config_spec() == old(self).config_spec(),
            final(self).show_icons_spec() == old(self).show_icons_spec(),
            final(self)@ == after_delete_view(old(self)@),
            effects_view(final(effects)@) == effects_view(old(effects)@) + after_delete_effects(old(self)@),
    {
        let ghost e0 = effects_view(effects@);
        if self.tree.is_empty() {
            self.ui_open = false;
            emit(effects, Effect::CloseUi);
            assert(effects_view(effects@) =~= e0 + after_delete_effects(old(self)@));
        } else {
            while self.current_context.len() > 0 && !self.tree.has_context(self.current_context.as_slice())
                invariant
                    self.wf(),
                    self.config == old(self).config,
                    self.show_icons == old(self).show_icons,
                    self@.tree.len() != 0,
                    self@ == (EngineView { context: self@.context, ..old(self)@ }),
                    prune_context(self@.tree, self@.context) == prune_context(old(self)@.tree, old(self)@.context),
                    effects_view(effects@) == e0,
                decreases self.current_context@.len(),
            {
                let ghost before = self.current_context@;
                self.current_context.pop();
                proof {
                    assert(strs_view(self.current_context@) =~= strs_view(before).drop_last());
                }
            }
            assert(prune_context(self@.tree, self@.context) == self@.context);
            if self.ui_open {
                emit(effects, Effect::RefreshUi);
            }
            assert(effects_view(effects@) =~= e0 + after_delete_effects(old(self)@));
        }
    }

    /// Forgets the notifications of `removed`, which left the tree: each leaves the
    /// index, and its effects follow; see `dismiss_effects`.
    fn dismiss_all(&mut self, removed: &Vec<Notification>, effects: &mut Vec<Effect>)
        requires
            old(self).wf(),
        ensures
            final(self).wf(),
            final(self).config_spec() == old(self).config_spec(),
            final(self).show_icons_spec() == old(self).show_icons_spec(),
            final(self)@ == (EngineView { index: old(self)@.index.remove_keys(id_set(views(removed@))), ..old(self)@ }),
            effects_view(final(effects)@) == effects_view(old(effects)@) + dismiss_effects(views(removed@)),
    {
        let ghost e0 = effects_view(effects@);
        let ghost vs = views(removed@);
        proof {
            assert(id_set(vs.subrange(0, 0)) =~= Set::<u32>::empty());
            assert(old(self)@.index.remove_keys(id_set(vs.subrange(0, 0))) =~= old(self)@.index);
            assert(effects_view(effects@) =~= e0 + dismiss_effects(vs.subrange(0, 0)));
        }
        for i in 0..removed.len()
            invariant
                vs == views(removed@),
                self.wf(),
                self.config == old(self).config,
                self.show_icons == old(self).show_icons,
                self@ == (EngineView {
                    index: old(self)@.index.remove_keys(id_set(vs.subrange(0, i as int))),
                    ..old(self)@
                }),
                effects_view(effects@) == e0 + dismiss_effects(vs.subrange(0, i as int)),
        {
            let id = removed[i].id;
            let ghost m0 = self.map@;
            let _ = self.map.remove(&id);
            proof {
                assert(vs.subrange(0, i as int + 1) =~= vs.subrange(0, i as int).push(vs[i as int]));
                lemma_id_set_push(vs.subrange(0, i as int), vs[i as int]);
                assert(index_view(self.map@) =~= index_view(m0).remove(id));
                assert(old(self)@.index.remove_keys(id_set(vs.subrange(0, i as int + 1))) =~= old(self)@.index.remove_keys(
                    id_set(vs.subrange(0, i as int)),
                ).remove(id));
            }
            emit(effects, Effect::ForgetImage { id });
            emit(effects, Effect::CancelExpiry { id });
            emit(effects, Effect::NotificationClosed { id, reason: 2 });
            proof {
                assert(vs.subrange(0, i as int + 1).drop_last() =~= vs.subrange(0, i as int));
                assert(effects_view(effects@) =~= e0 + dismiss_effects(vs.subrange(0, i as int + 1)));
            }
        }
        proof {
            assert(vs.subrange(0, removed@.len() as int) =~= vs);
        }
    }
}

impl Engine {
    fn invoke_action(&mut self, id: u32, action_key: String, effects: &mut Vec<Effect>)
        requires
            old(self).wf(),
        ensures
            final(self).wf(),
            final(self).config_spec() == old(self).config_spec(),
            final(self).show_icons_spec() == old(self).show_icons_spec(),
            final(self)@ == ui_event_view(old(self)@, UiEventView::ActionInvoked { id, action_key: action_key@ }),
            effects_view(final(effects)@) == effects_view(old(effects)@) + ui_event_effects(
                old(self)@,
                old(self).config_spec(),
                UiEventView::ActionInvoked { id, action_key: action_key@ },
            ),
    {
        let ghost v0 = self@;
        let ghost e0 = effects_view(effects@);
        let (resident, hints) = match self.find_leaf(id) {
            Some(n) => (
                n.resident,
                FocusTargetHints { app_name: n.app_name.clone(), summary: n.summary.clone(), body: n.body.clone() },
            ),
            None => {
                let h = FocusTargetHints::default();
                assert(h@ == (Seq::<char>::empty(), Seq::<char>::empty(), Seq::<char>::empty()));
                (false, h)
            },
        };
        assert(hints@ == hints_of(v0, id));
        if !resident {
            self.remove_internal(id, true, effects);
            emit(effects, Effect::NotificationsUpdated { mode: 1 });
        }
        self.ui_open = false;
        emit(effects, Effect::CloseUi);
        if self.config.behavior.focus_on_action {
            let timeout_ms = self.config.behavior.urgent_timeout_ms;
            emit(effects, Effect::FocusThenInvoke { id, action_key, close_after: !resident, timeout_ms, hints });
        } else {
            emit(effects, Effect::ActionInvoked { id, action_key });
            if !resident {
                emit(effects, Effect::NotificationClosed { id, reason: 2 });
            }
        }
        proof {
            assert(effects_view(effects@) =~= e0 + ui_event_effects(
                v0,
                self.config,
                UiEventView::ActionInvoked { id, action_key: action_key@ },
            ));
        }
    }

    fn delete_group(&mut self, key: String, effects: &mut Vec<Effect>)
        requires
            old(self).wf(),
        ensures
            final(self).wf(),
            final(self).config_spec() == old(self).config_spec(),
            final(self).show_icons_spec() == old(self).show_icons_spec(),
            final(self)@ == ui_event_view(old(self)@, UiEventView::DeleteGroup(key@)),
            effects_view(final(effects)@) == effects_view(old(effects)@) + ui_event_effects(
                old(self)@,
                old(self).config_spec(),
                UiEventView::DeleteGroup(key@),
            ),
    {
        let ghost v0 = self@;
        let ghost e0 = effects_view(effects@);
        let (mut path, _) = self.tree.resolve_context(self.current_context.as_slice(), true);
        let ghost p0 = path@;
        path.push(key);
        assert(strs_view(path@) =~= resolved_context(v0).push(key@));
        proof {
            lemma_remove_branch_path_wf(self@.tree, strs_view(path@));
            lemma_remove_branch_path_len(self@.tree, strs_view(path@));
        }
        let removed = self.tree.remove_branch_path(path.as_slice());
        self.dismiss_all(&removed, effects);
        let last_removed = match &self.last {
            Some(l) => contains_id(&removed, l.id),
            None => false,
        };
        if last_removed {
            self.last = match self.tree.best() {
                Some(b) => Some(b.clone()),
                None => None,
            };
        }
        self.dump_dirty = true;
        emit(effects, Effect::NotificationsUpdated { mode: 1 });
        assert(self@ == group_deleted(v0, key@));
        self.after_delete(effects);
        proof {
            assert(effects_view(effects@) =~= e0 + ui_event_effects(v0, self.config, UiEventView::DeleteGroup(key@)));
        }
    }

    fn clear_all(&mut self, effects: &mut Vec<Effect>)
        requires
            old(self).wf(),
        ensures
            final(self).wf(),
            final(self).config_spec() == old(self).config_spec(),
            final(self).show_icons_spec() == old(self).show_icons_spec(),
            final(self)@ == ui_event_view(old(self)@, UiEventView::ClearAll),
            effects_view(final(effects)@) == effects_view(old(effects)@) + ui_event_effects(
                old(self)@,
                old(self).config_spec(),
                UiEventView::ClearAll,
            ),
    {
        let ghost v0 = self@;
        let ghost e0 = effects_view(effects@);
        let all = self.tree.leafs();
        self.dismiss_all(&all, effects);
        self.tree = NotificationCluster::new();
        self.last = None;
        self.current_context.clear();
        self.dump_dirty = true;
        emit(effects, Effect::NotificationsUpdated { mode: 1 });
        self.ui_open = false;
        emit(effects, Effect::CloseUi);
        proof {
            assert(strs_view(self.current_context@) =~= Seq::<Seq<char>>::empty());
            assert(self@ == ui_event_view(v0, UiEventView::ClearAll));
            assert(effects_view(effects@) =~= e0 + ui_event_effects(v0, self.config, UiEventView::ClearAll));
        }
    }

    /// Handles a user event from the notification center; see `ui_event_view` and
    /// `ui_event_effects`.
    pub fn handle_ui_event(&mut self, event: UiEvent) -> (effects: Vec<Effect>)
        requires
            old(self).wf(),
        ensures
            final(self).wf(),
            final(self).config_spec() == old(self).config_spec(),
            final(self).show_icons_spec() == old(self).show_icons_spec(),
            final(self)@ == ui_event_view(old(self)@, event@),
            consistent(old(self)@) ==> consistent(final(self)@),
            effects_view(effects@) == ui_event_effects(old(self)@, old(self).config_spec(), event@),
    {
        let ghost v0 = self@;
        proof {
            if consistent(v0) {
                lemma_requests_keep_consistent(v0, 0, 0, event@);
            }
        }
        let ghost ev = event@;
        let mut effects: Vec<Effect> = Vec::new();
        match event {
            UiEvent::EnterGroup(key) => {
                let ghost kv = key@;
                let (mut resolved, _) = self.tree.resolve_context(self.current_context.as_slice(), true);
                let ghost r0 = resolved@;
                resolved.push(key);
                assert(strs_view(resolved@) =~= strs_view(r0).push(kv));
                self.current_context = resolved;
                if self.ui_open {
                    emit(&mut effects, Effect::RefreshUi);
                }
            },
            UiEvent::LeaveGroup => {
                if self.current_context.len() > 0 {
                    let ghost before = self.current_context@;
                    self.current_context.pop();
                    assert(strs_view(self.current_context@) =~= strs_view(before).drop_last());
                    if self.ui_open {
                        emit(&mut effects, Effect::RefreshUi);
                    }
                } else {
                    self.ui_open = false;
                    emit(&mut effects, Effect::CloseUi);
                    emit(&mut effects, Effect::NotificationsUpdated { mode: 2 });
                }
            },
            UiEvent::ActionInvoked { id, action_key } => {
                self.invoke_action(id, action_key, &mut effects);
            },
            UiEvent::DeleteItem(id) => {
                if self.remove_internal(id, true, &mut effects) {
                    emit(&mut effects, Effect::NotificationClosed { id, reason: 2 });
                    emit(&mut effects, Effect::NotificationsUpdated { mode: 1 });
                    self.after_delete(&mut effects);
                }
            },
            UiEvent::DeleteGroup(key) => {
                self.delete_group(key, &mut effects);
            },
            UiEvent::ClearAll => {
                self.clear_all(&mut effects);
            },
            UiEvent::CloseUi => {
                self.ui_open = false;
                emit(&mut effects, Effect::NotificationsUpdated { mode: 2 });
            },
        }
        proof {
            assert(effects_view(effects@) =~= ui_event_effects(v0, self.config, ev));
        }
        effects
    }

    /// Handles a request to show the notification center (or hide it when open); see
    /// `toggle_view` and `toggle_effects`.
    pub fn toggle_ui(&mut self) -> (effects: Vec<Effect>)
        requires
            old(self).wf(),
        ensures
            final(self).wf(),
            final(self).config_spec() == old(self).config_spec(),
            final(self).show_icons_spec() == old(self).show_icons_spec(),
            final(self)@ == toggle_view(old(self)@),
            consistent(old(self)@) ==> consistent(final(self)@),
            effects_view(effects@) == toggle_effects(old(self)@),
    {
        let ghost v0 = self@;
        proof {
            if consistent(v0) {
                lemma_requests_keep_consistent(v0, 0, 0, UiEventView::ClearAll);
            }
        }
        let mut effects: Vec<Effect> = Vec::new();
        if self.ui_open {
            self.ui_open = false;
            emit(&mut effects, Effect::CloseUi);
            emit(&mut effects, Effect::NotificationsUpdated { mode: 2 });
        } else {
            if self.tree.is_empty() || self.tree.len() == 0 {
                assert(effects_view(effects@) =~= toggle_effects(v0));
                return effects;
            }
            self.ui_open = true;
            self.current_context = expand_path_exec(&self.tree);
            emit(&mut effects, Effect::OpenUi);
            emit(&mut effects, Effect::NotificationsUpdated { mode: 2 });
        }
        proof {
            assert(effects_view(effects@) =~= toggle_effects(v0));
        }
        effects
    }
}

impl Engine {
    /// An engine with no notifications, the notification center closed, and the id
    /// counter at 1.
    pub fn new(config: Config, show_icons: bool) -> (r: Engine)
        requires
            config.behavior.default_expire_timeout_ms <= max_timeout_ms(),
        ensures
            r.wf(),
            r.config_spec() == config,
            r.show_icons_spec() == show_icons,
            consistent(r@),
            r@ == (EngineView {
                tree: Seq::empty(),
                index: Map::empty(),
                last: None,
                id_counter: 1,
                ui_open: false,
                context: Seq::empty(),
                dump_dirty: false,
            }),
    {
        let r = Engine {
            tree: NotificationCluster::new(),
            map: HashMap::new(),
            last: None,
            id_counter: 1,
            config,
            show_icons,
            ui_open: false,
            current_context: Vec::new(),
            dump_dirty: false,
        };
        proof {
            assert(index_view(r.map@) =~= Map::<u32, Seq<Seq<char>>>::empty());
            assert(strs_view(r.current_context@) =~= Seq::<Seq<char>>::empty());
            lemma_empty_is_consistent(r@);
        }
        r
    }

    /// Files one restored notification; see `restore_state` and `restore_effects`.
    fn restore_one(&mut self, notification: Notification, now_ns: u64, effects: &mut Vec<Effect>)
        requires
            old(self).wf(),
            old(self).count_spec() + 1 < usize::MAX,
        ensures
            final(self).wf(),
            final(self).config_spec() == old(self).config_spec(),
            final(self).show_icons_spec() == old(self).show_icons_spec(),
            final(self)@ == restore_one_view(old(self)@, old(self).config_spec(), notification@, now_ns),
            effects_view(final(effects)@) == effects_view(old(effects)@) + restore_one_effects(
                old(self).config_spec(),
                notification@,
                now_ns,
            ),
    {
        let ghost v0 = self@;
        let ghost n0 = notification@;
        let ghost e0 = effects_view(effects@);
        let mut notif = notification;
        let keys = match notif.keys.take() {
            Some(k) => {
                proof {
                    lemma_deep_strs(k);
                }
                k
            },
            None => {
                proof {
                    lemma_configured_keeps(self.config, n0);
                }
                self.config.apply_and_get_keys(&mut notif)
            },
        };
        assert(notif@ == restore_item(self.config, n0));
        assert(strs_view(keys@) == restore_keys(self.config, n0));
        let id = notif.id;
        if notif.expires {
            match notif.expires_at {
                Some(exp) => {
                    if exp <= now_ns {
                        assert(effects_view(effects@) =~= e0 + restore_one_effects(self.config, n0, now_ns));
                        return;
                    }
                    emit(effects, Effect::ScheduleExpiry { id, delay_ms: (exp - now_ns) / 1_000_000 });
                },
                None => {},
            }
        }
        let ghost m1 = self.map@;
        self.map.insert(id, clone_strings(&keys));
        proof {
            assert(index_view(self.map@) =~= index_view(m1).insert(id, strs_view(keys@)));
            lemma_insert_len(self.tree@, strs_view(keys@), notif@);
        }
        self.tree.insert(keys.as_slice(), notif.clone());
        self.last = Some(notif);
        proof {
            assert(effects_view(effects@) =~= e0 + restore_one_effects(self.config, n0, now_ns));
        }
    }

    /// Restores the saved notifications `restored` at time `now_ns`; see `restore_view`.
    /// Returns the expiries to schedule.
    pub fn restore_dump(&mut self, restored: Vec<Notification>, now_ns: u64) -> (effects: Vec<Effect>)
        requires
            old(self).wf(),
            old(self).count_spec() + restored@.len() + 1 < usize::MAX,
        ensures
            final(self).wf(),
            final(self).config_spec() == old(self).config_spec(),
            final(self).show_icons_spec() == old(self).show_icons_spec(),
            final(self)@ == restore_view(old(self)@, old(self).config_spec(), views(restored@), now_ns),
            effects_view(effects@) == restore_effects(old(self).config_spec(), views(restored@), now_ns),
    {
        let ghost v0 = self@;
        let ghost c0 = old(self).count_spec();
        let ghost vs = views(restored@);
        let mut effects: Vec<Effect> = Vec::new();
        let mut max_id: u32 = 0;
        let ghost total = vs.len();
        for i in 0..restored.len()
            invariant
                self.wf(),
                self.config == old(self).config,
                self.show_icons == old(self).show_icons,
                total == vs.len(),
                vs == views(restored@),
                self.count_spec() <= c0 + i,
                c0 + total + 1 < usize::MAX,
                self@ == (EngineView { id_counter: v0.id_counter, ..restore_state(v0, self.config, vs.subrange(0, i as int), now_ns) }),
                effects_view(effects@) == restore_effects(self.config, vs.subrange(0, i as int), now_ns),
                max_id == max_id_of(vs.subrange(0, i as int)),
        {
            let notif = restored[i].clone();
            proof {
                assert(vs.subrange(0, i as int + 1).drop_last() =~= vs.subrange(0, i as int));
            }
            if notif.id > max_id {
                max_id = notif.id;
            }
            let ghost w = self@;
            proof {
                lemma_restore_one_len(w, self.config, notif@, now_ns);
            }
            self.restore_one(notif, now_ns, &mut effects);
        }
        assert(vs.subrange(0, total as int) =~= vs);
        self.id_counter = max_id.wrapping_add(1);
        proof {
            assert(self.id_counter == wrap_add(max_id, 1));
        }
        effects
    }
}

/// `s (n)`.
fn with_count_exec(s: &str, n: usize) -> (r: String)
    ensures
        r@ == with_count(s@, n as nat),
{
    let mut out = chars_of(s);
    out.push(' ');
    out.push('(');
    let d = u64_to_decimal(n as u64);
    push_str_chars(&mut out, d.as_str());
    out.push(')');
    string_from_chars(&out)
}

/// The row of a child of the current group; see `node_item`.
fn make_item(key: &String, node: &ClusterNode) -> (r: UiItem)
    requires
        node_wf(node@),
        node_len(node@) <= usize::MAX,
    ensures
        r@ == node_item(key@, node@),
{
    let empty = String::new();
    match node {
        ClusterNode::Cluster(sub) => {
            let best = sub.best();
            let n = sub.len();
            let multi = n > 1;
            let title = if multi {
                with_count_exec(key.as_str(), n)
            } else {
                key.clone()
            };
            let raw_subtitle = match best {
                Some(b) => b.single_line(),
                None => String::new(),
            };
            let subtitle = strip_markup(raw_subtitle.as_str());
            let summary = match best {
                Some(b) => strip_markup(b.summary.as_str()),
                None => strip_markup(key.as_str()),
            };
            let raw_app = match best {
                Some(b) => strip_markup(b.app_name.as_str()),
                None => strip_markup(key.as_str()),
            };
            let app_name = if multi {
                with_count_exec(raw_app.as_str(), n)
            } else {
                raw_app
            };
            let body = match best {
                Some(b) => strip_markup(b.body.as_str()),
                None => strip_markup(empty.as_str()),
            };
            let icon = match best {
                Some(b) => b.app_icon.clone(),
                None => String::new(),
            };
            let actions = match best {
                Some(b) => clone_strings(&b.actions),
                None => Vec::new(),
            };
            let id = match best {
                Some(b) => Some(b.id),
                None => None,
            };
            let created_at = match best {
                Some(b) => b.created_at,
                None => 0,
            };
            let r = UiItem {
                id,
                is_group: multi,
                key: key.clone(),
                title,
                subtitle,
                summary,
                app_name,
                body,
                time_str: String::new(),
                urgency: sub.urgency(),
                count: n,
                icon,
                actions,
                created_at,
            };
            proof {
                if best is None {
                    assert(r.actions.deep_view() =~= Seq::<Seq<char>>::empty());
                }
            }
            r
        },
        ClusterNode::Leaf(x) => {
            let title = if x.summary.as_str().is_empty() {
                strip_markup(x.app_name.as_str())
            } else {
                strip_markup(x.summary.as_str())
            };
            let subtitle = strip_markup(x.body.as_str());
            UiItem {
                id: Some(x.id),
                is_group: false,
                key: key.clone(),
                summary: title.clone(),
                title,
                body: subtitle.clone(),
                subtitle,
                app_name: strip_markup(x.app_name.as_str()),
                time_str: String::new(),
                urgency: x.urgency,
                count: 1,
                icon: x.app_icon.clone(),
                actions: clone_strings(&x.actions),
                created_at: x.created_at,
            }
        },
    }
}

fn opt_lt_exec(a: Option<u32>, b: Option<u32>) -> (r: bool)
    ensures
        r == opt_lt(a, b),
{
    match (a, b) {
        (None, Some(_)) => true,
        (Some(x), Some(y)) => x < y,
        _ => false,
    }
}

fn item_before_exec(order: SortOrder, a: &UiItem, b: &UiItem) -> (r: bool)
    ensures
        r == item_before(order, a@, b@),
{
    if a.urgency != b.urgency {
        return a.urgency > b.urgency;
    }
    match order {
        SortOrder::NewestToOldest => a.created_at > b.created_at || (a.created_at == b.created_at && !opt_lt_exec(
            a.id,
            b.id,
        )),
        SortOrder::OldestToNewest => a.created_at < b.created_at || (a.created_at == b.created_at && !opt_lt_exec(
            b.id,
            a.id,
        )),
    }
}

fn insert_item_exec(order: SortOrder, v: &mut Vec<UiItem>, x: UiItem)
    ensures
        items_view(final(v)@) == insert_item(order, items_view(old(v)@), x@),
    decreases old(v)@.len(),
{
    let ghost before = v@;
    let n = v.len();
    if n == 0 {
        v.push(x);
        assert(items_view(v@) =~= seq![x@]);
    } else if item_before_exec(order, &v[n - 1], &x) {
        v.push(x);
        assert(items_view(v@) =~= items_view(before).push(x@));
    } else {
        let l = v.pop().unwrap();
        assert(v@ == before.drop_last());
        assert(items_view(v@) =~= items_view(before).drop_last());
        let ghost mid = v@;
        insert_item_exec(order, v, x);
        let ghost after = v@;
        v.push(l);
        assert(items_view(v@) =~= items_view(after).push(l@));
    }
}

/// `sort_items`, by insertion.
fn sort_items_exec(order: SortOrder, items: Vec<UiItem>) -> (r: Vec<UiItem>)
    ensures
        items_view(r@) == sort_items(order, items_view(items@)),
    decreases items@.len(),
{
    let ghost src = items_view(items@);
    let mut rest = items;
    if rest.len() == 0 {
        assert(src =~= Seq::<UiItemView>::empty());
        return rest;
    }
    let ghost r0 = rest@;
    let x = rest.pop().unwrap();
    assert(rest@ == r0.drop_last());
    assert(items_view(rest@) =~= src.drop_last());
    let mut sorted = sort_items_exec(order, rest);
    insert_item_exec(order, &mut sorted, x);
    sorted
}

pub proof fn lemma_insert_item_len(order: SortOrder, s: Seq<UiItemView>, x: UiItemView)
    ensures
        insert_item(order, s, x).len() == s.len() + 1,
    decreases s.len(),
{
    if s.len() > 0 && !item_before(order, s.last(), x) {
        lemma_insert_item_len(order, s.drop_last(), x);
    }
}

pub proof fn lemma_sort_items_len(order: SortOrder, s: Seq<UiItemView>)
    ensures
        sort_items(order, s).len() == s.len(),
    decreases s.len(),
{
    if s.len() > 0 {
        lemma_sort_items_len(order, s.drop_last());
        lemma_insert_item_len(order, sort_items(order, s.drop_last()), s.last());
    }
}

/// Rows in order of non-increasing urgency.
pub open spec fn urgency_sorted(s: Seq<UiItemView>) -> bool {
    forall|i: int, j: int| 0 <= i < j < s.len() ==> (#[trigger] s[i]).urgency >= (#[trigger] s[j]).urgency
}

/// Row `a` may stand before row `b` in a view with order `order`: it is more urgent, or
/// as urgent and no newer (oldest first) or no older (newest first).
pub open spec fn row_precedes(order: SortOrder, a: UiItemView, b: UiItemView) -> bool {
    a.urgency > b.urgency || (a.urgency == b.urgency && match order {
        SortOrder::OldestToNewest => a.created_at <= b.created_at,
        SortOrder::NewestToOldest => a.created_at >= b.created_at,
    })
}

/// Every row may stand before every later one.
pub open spec fn rows_in_order(order: SortOrder, s: Seq<UiItemView>) -> bool {
    forall|i: int, j: int| 0 <= i < j < s.len() ==> row_precedes(order, #[trigger] s[i], #[trigger] s[j])
}

proof fn lemma_insert_item_props(order: SortOrder, s: Seq<UiItemView>, x: UiItemView)
    requires
        rows_in_order(order, s),
    ensures
        rows_in_order(order, insert_item(order, s, x)),
        insert_item(order, s, x).to_multiset() == s.to_multiset().insert(x),
    decreases s.len(),
{
    broadcast use vstd::seq_lib::group_to_multiset_ensures;

    let r = insert_item(order, s, x);
    if s.len() == 0 {
        assert(seq![x] =~= Seq::<UiItemView>::empty().push(x));
        vstd::seq_lib::to_multiset_len(Seq::<UiItemView>::empty());
        vstd::multiset::lemma_multiset_empty_len(Seq::<UiItemView>::empty().to_multiset());
        assert(s =~= Seq::<UiItemView>::empty());
    } else if item_before(order, s.last(), x) {
        let l = s.last();
        assert(row_precedes(order, l, x));
        assert forall|i: int, j: int| 0 <= i < j < r.len() implies row_precedes(order, #[trigger] r[i], #[trigger] r[j]) by {
            if j == s.len() {
                assert(r[i] == s[i]);
                if i < s.len() - 1 {
                    assert(row_precedes(order, s[i], s[s.len() - 1]));
                }
            } else {
                assert(r[i] == s[i] && r[j] == s[j]);
            }
        }
    } else {
        let d = s.drop_last();
        let l = s.last();
        assert(row_precedes(order, x, l));
        assert(rows_in_order(order, d)) by {
            assert forall|i: int, j: int| 0 <= i < j < d.len() implies row_precedes(order, #[trigger] d[i], #[trigger] d[j]) by {
                assert(d[i] == s[i] && d[j] == s[j]);
            }
        }
        lemma_insert_item_props(order, d, x);
        let q = insert_item(order, d, x);
        assert(r == q.push(l));
        assert(s =~= d.push(l));
        assert forall|k: int| 0 <= k < q.len() implies row_precedes(order, #[trigger] q[k], l) by {
            assert(q.to_multiset().count(q[k]) > 0);
            if q[k] != x {
                assert(d.to_multiset().count(q[k]) > 0);
                let m = choose|m: int| 0 <= m < d.len() && d[m] == q[k];
                assert(s[m] == d[m]);
                assert(s[s.len() - 1] == l);
            }
        }
        assert forall|i: int, j: int| 0 <= i < j < r.len() implies row_precedes(order, #[trigger] r[i], #[trigger] r[j]) by {
            assert(r[i] == q[i]);
            if j < q.len() {
                assert(r[j] == q[j]);
            }
        }
        assert(r.to_multiset() =~= s.to_multiset().insert(x));
    }
}

/// Law: sorting rows keeps them, one for one, and orders them: the most urgent first,
/// and among rows as urgent, oldest first or newest first as `order` says.
pub proof fn lemma_sort_items_props(order: SortOrder, s: Seq<UiItemView>)
    ensures
        sort_items(order, s).len() == s.len(),
        sort_items(order, s).to_multiset() == s.to_multiset(),
        rows_in_order(order, sort_items(order, s)),
        urgency_sorted(sort_items(order, s)),
    decreases s.len(),
{
    broadcast use vstd::seq_lib::group_to_multiset_ensures;

    lemma_sort_items_len(order, s);
    if s.len() > 0 {
        lemma_sort_items_props(order, s.drop_last());
        lemma_insert_item_props(order, sort_items(order, s.drop_last()), s.last());
        assert(s =~= s.drop_last().push(s.last()));
    } else {
        assert(s =~= Seq::<UiItemView>::empty());
    }    assert forall|i: int, j: int| 0 <= i < j < sort_items(order, s).len() implies (#[trigger] sort_items(order, s)[i]).urgency
        >= (#[trigger] sort_items(order, s)[j]).urgency by {
        assert(row_precedes(order, sort_items(order, s)[i], sort_items(order, s)[j]));
    }
}

/// Law: the rows of a view are one row per child of the group the context designates
/// (each child's row, with its count, reordered), most urgent first, and among rows as
/// urgent, oldest or newest first as the view's order says.
pub proof fn lemma_ui_items_rows(v: EngineView, cfg: Config, ctx: Seq<Seq<char>>)
    ensures
        ui_items_spec(v, cfg, ctx).len() == resolve_view(v.tree, ctx, true).1.len(),
        ui_items_spec(v, cfg, ctx).to_multiset() == child_items(resolve_view(v.tree, ctx, true).1).to_multiset(),
        urgency_sorted(ui_items_spec(v, cfg, ctx)),
        rows_in_order(
            view_order(resolve_view(v.tree, ctx, true).0, resolve_view(v.tree, ctx, true).1, cfg),
            ui_items_spec(v, cfg, ctx),
        ),
{
    let (r, c) = resolve_view(v.tree, ctx, true);
    lemma_sort_items_props(view_order(r, c, cfg), child_items(c));
}

impl Engine {
    /// The order of the view at `resolved`, the group `c`; see `view_order`.
    fn view_order_exec(&self, resolved: &Vec<String>, c: &NotificationCluster) -> (r: SortOrder)
        requires
            cl_wf(c@),
        ensures
            r == view_order(strs_view(resolved@), c@, self.config),
    {
        if resolved.len() == 0 {
            return self.config.behavior.sort_order;
        }
        proof {
            lemma_children_view(c.children@);
        }
        let mut has_sub = false;
        for i in 0..c.children.len()
            invariant
                c@.len() == c.children@.len(),
                forall|j: int| 0 <= j < c.children@.len() ==> #[trigger] c@[j] == (c.children@[j].0@, node_view(c.children@[j].1)),
                has_sub == exists|j: int| 0 <= j < i && (#[trigger] c@[j]).1 is Group,
        {
            proof {
                assert(c@[i as int].1 == node_view(c.children@[i as int].1));
            }
            match &c.children[i].1 {
                ClusterNode::Cluster(_) => {
                    has_sub = true;
                },
                ClusterNode::Leaf(_) => {},
            }
        }
        let best = c.best();
        if has_sub {
            match best {
                Some(b) => match b.group_sort_order {
                    Some(g) => g,
                    None => self.config.behavior.group_sort_order,
                },
                None => self.config.behavior.group_sort_order,
            }
        } else {
            match best {
                Some(b) => b.sort_order,
                None => self.config.behavior.sort_order,
            }
        }
    }

    /// The rows of the view `context` designates; see `ui_items_spec`. Clock times are
    /// left empty for `fill_times`.
    pub fn generate_ui_items(&self, context: &[String]) -> (r: Vec<UiItem>)
        requires
            self.wf(),
        ensures
            items_view(r@) == ui_items_spec(self@, self.config_spec(), strs_view(context@)),
    {
        let (resolved, cluster) = self.tree.resolve_context(context, true);
        proof {
            lemma_children_view(cluster.children@);
        }
        let ghost c = cluster@;
        let mut items: Vec<UiItem> = Vec::new();
        for i in 0..cluster.children.len()
            invariant
                c == cluster@,
                cl_wf(c),
                cl_len(c) <= usize::MAX,
                c.len() == cluster.children@.len(),
                forall|j: int| 0 <= j < cluster.children@.len() ==> #[trigger] c[j] == (cluster.children@[j].0@, node_view(cluster.children@[j].1)),
                items_view(items@) == child_items(c).subrange(0, i as int),
        {
            proof {
                lemma_child_len_le(c, i as int);
                assert(node_wf(c[i as int].1));
            }
            let it = make_item(&cluster.children[i].0, &cluster.children[i].1);
            proof {
                assert(c[i as int] == (cluster.children@[i as int].0@, node_view(cluster.children@[i as int].1)));
                assert(it@ == child_items(c)[i as int]);
            }
            let ghost old_items = items@;
            let ghost itv = it@;
            items.push(it);
            assert(items_view(items@) =~= items_view(old_items).push(itv));
            assert(items_view(items@) =~= child_items(c).subrange(0, i as int + 1));
        }
        assert(child_items(c).subrange(0, c.len() as int) =~= child_items(c));
        let order = self.view_order_exec(&resolved, cluster);
        sort_items_exec(order, items)
    }

    /// The rows of the notification center's current view, and the path it resolves to.
    pub fn ui_snapshot(&self) -> (r: (Vec<UiItem>, Vec<String>))
        requires
            self.wf(),
        ensures
            items_view(r.0@) == ui_items_spec(self@, self.config_spec(), self@.context),
            strs_view(r.1@) == resolved_context(self@),
    {
        let (resolved, _) = self.tree.resolve_context(self.current_context.as_slice(), true);
        let items = self.generate_ui_items(self.current_context.as_slice());
        (items, resolved)
    }
}

/// `t` is the clock time of `created_at` for one answer `local_time` may give for its
/// seconds.
pub open spec fn clock_matches<F: Fn(i64) -> Option<(u32, u32)>>(local_time: F, created_at: u64, t: Seq<char>) -> bool {
    exists|lt: Option<(u32, u32)>|
        #[trigger] local_time.ensures(((created_at / 1_000_000_000) as i64,), lt) && t == clock_spec(created_at, lt)
}

/// Fills in the clock time of each row that shows a notification; `local_time` gives the
/// local hour and minute of a time in seconds since the epoch, when the system can tell.
pub fn fill_times<F: Fn(i64) -> Option<(u32, u32)>>(items: &mut Vec<UiItem>, local_time: &F)
    requires
        forall|secs: i64| local_time.requires((secs,)),
    ensures
        final(items)@.len() == old(items)@.len(),
        forall|i: int|
            0 <= i < old(items)@.len() ==> (UiItemView { time_str: old(items)@[i]@.time_str, ..#[trigger] final(items)@[i]@ })
                == old(items)@[i]@,
        forall|i: int|
            0 <= i < old(items)@.len() ==> (old(items)@[i].id is None ==> #[trigger] final(items)@[i]@.time_str
                == old(items)@[i]@.time_str),
        forall|i: int|
            0 <= i < old(items)@.len() ==> (old(items)@[i].id is Some ==> clock_matches(
                *local_time,
                old(items)@[i].created_at,
                #[trigger] final(items)@[i]@.time_str,
            )),
{
    let ghost before = items@;
    let n = items.len();
    for i in 0..n
        invariant
            n == before.len(),
            items@.len() == before.len(),
            forall|secs: i64| local_time.requires((secs,)),
            forall|j: int| i <= j < before.len() ==> items@[j] == before[j],
            forall|j: int|
                0 <= j < i ==> (UiItemView { time_str: before[j]@.time_str, ..#[trigger] items@[j]@ }) == before[j]@,
            forall|j: int|
                0 <= j < i ==> (before[j].id is None ==> #[trigger] items@[j]@.time_str == before[j]@.time_str),
            forall|j: int|
                0 <= j < i ==> (before[j].id is Some ==> clock_matches(
                    *local_time,
                    before[j].created_at,
                    #[trigger] items@[j]@.time_str,
                )),
    {
        if items[i].id.is_some() {
            let created_at = items[i].created_at;
            let secs = (created_at / 1_000_000_000) as i64;
            let lt = local_time(secs);
            let t = clock_string(created_at, lt);
            let ghost mid = items@;
            items[i].time_str = t;
            proof {
                assert(items@[i as int]@ == (UiItemView { time_str: t@, ..mid[i as int]@ }));
                assert(clock_matches(*local_time, before[i as int].created_at, items@[i as int]@.time_str));
                assert forall|j: int| 0 <= j < items@.len() && j != i implies items@[j] == mid[j] by {}
            }
        }
    }
}

/// The clock time of a creation time; see `clock_spec`.
fn clock_string(created_at: u64, local: Option<(u32, u32)>) -> (r: String)
    ensures
        r@ == clock_spec(created_at, local),
{
    match local {
        Some((h, m)) => format_hh_mm(h, m),
        None => {
            let day = (created_at / 1_000_000_000) % 86400;
            format_hh_mm((day / 3600) as u32, ((day % 3600) / 60) as u32)
        },
    }
}

/// What the server supports, as `GetCapabilities` reports it.
pub open spec fn capabilities_spec() -> Seq<Seq<char>> {
    seq!["actions"@, "body"@, "body-markup"@, "icon-static"@, "persistence"@]
}

/// The capabilities of the server; see `capabilities_spec`.
pub fn capabilities() -> (r: Vec<String>)
    ensures
        strs_view(r@) == capabilities_spec(),
{
    let r = vec![
        "actions".to_owned(),
        "body".to_owned(),
        "body-markup".to_owned(),
        "icon-static".to_owned(),
        "persistence".to_owned(),
    ];
    assert(strs_view(r@) =~= capabilities_spec());
    r
}

/// Name, vendor, version and specification version of the server, as
/// `GetServerInformation` reports them.
pub fn server_information() -> (r: (String, String, String, String))
    ensures
        r.0@ == "quiet"@,
        r.1@ == "quiet-project"@,
        r.2@ == "0.1.0"@,
        r.3@ == "1.2"@,
{
    ("quiet".to_owned(), "quiet-project".to_owned(), "0.1.0".to_owned(), "1.2".to_owned())
}

impl Engine {
    /// Whether one more notification fits the count `notify` can keep.
    pub fn has_room(&self) -> (r: bool)
        requires
            self.wf(),
        ensures
            r == (self.count_spec() + 1 < usize::MAX),
    {
        self.tree.len() < usize::MAX - 1
    }

    /// Whether `allocate_id` can find a free id: fewer ids are in use than there are.
    pub fn can_allocate(&self) -> (r: bool)
        ensures
            r == (self@.index.len() < u32::MAX),
    {
        proof {
            assert(index_view(self.map@).dom() =~= self.map@.dom());
        }
        self.map.len() < 0xffff_ffffusize
    }

    /// The effects of a `SignalNotificationCount` request.
    pub fn signal_count(&self) -> (effects: Vec<Effect>)
        ensures
            effects_view(effects@) == seq![EffectView::NotificationsUpdated { mode: 2 }],
    {
        let mut effects: Vec<Effect> = Vec::new();
        emit(&mut effects, Effect::NotificationsUpdated { mode: 2 });
        effects
    }
}

// ---------------------------------------------------------------------------
// Laws
// ---------------------------------------------------------------------------

/// Law: a notification that arrives and evicts nothing can be found again under its id,
/// as it was filed, and it is the one the status bar shows.
pub proof fn lemma_notify_then_lookup(v: EngineView, cfg: Config, n: NotificationView, now: u64)
    requires
        cl_wf(v.tree),
        cfg.behavior.max_notifications == 0 || cl_len(filed(v, cfg, n, now).tree) <= cfg.behavior.max_notifications,
    ensures
        lookup_leaf(notify_view(v, cfg, n, now), n.id) == Some(prepared(cfg, n, now)),
        notify_view(v, cfg, n, now).last == Some(prepared(cfg, n, now)),
{
    let v1 = remove_step(v, n.id, false);
    if v.index.contains_key(n.id) {
        lemma_remove_wf(v.tree, v.index[n.id], n.id);
    }
    lemma_configured_keeps(cfg, n);
    let p = prepared(cfg, n, now);
    let keys = keys_spec(cfg, n);
    lemma_insert_then_walk(v1.tree, keys, p);
    let v2 = filed(v, cfg, n, now);
    assert(eviction_ids(v2, cfg.behavior.max_notifications) =~= Seq::<u32>::empty());
}

/// Law: a close request from the client (reason 3) for a notification whose rule
/// ignores such requests changes nothing and signals nothing.
pub proof fn lemma_ignore_close_protects(v: EngineView, id: u32)
    requires
        lookup_leaf(v, id) matches Some(x) && x.ignore_close,
    ensures
        close_view(v, id, 3) == v,
        close_effects(v, id, 3).len() == 0,
{
}

/// Law: a close request for a notification it does not protect removes it: the index
/// forgets it and `NotificationClosed` is signalled with the reason.
pub proof fn lemma_close_removes(v: EngineView, id: u32, reason: u32)
    requires
        v.index.contains_key(id),
        !close_ignored(v, id, reason),
    ensures
        !close_view(v, id, reason).index.contains_key(id),
        close_effects(v, id, reason).contains(EffectView::NotificationClosed { id, reason }),
{
    let e = close_effects(v, id, reason);
    assert(e[2] == EffectView::NotificationClosed { id, reason });
}

/// Law: what is persisted holds no transient notification, and no more notifications
/// than the tree.
pub proof fn lemma_dump_excludes_transient(s: Seq<NotificationView>, index: Map<u32, Seq<Seq<char>>>)
    ensures
        forall|i: int| 0 <= i < dumped(s, index).len() ==> !(#[trigger] dumped(s, index)[i]).transient,
        dumped(s, index).len() <= s.len(),
    decreases s.len(),
{
    if s.len() > 0 {
        lemma_dump_excludes_transient(s.drop_last(), index);
        let d = dumped(s.drop_last(), index);
        if !s.last().transient {
            let x = with_index_keys(s.last(), index);
            assert(!x.transient);
            assert forall|i: int| 0 <= i < dumped(s, index).len() implies !(#[trigger] dumped(s, index)[i]).transient by {
                if i < d.len() {
                    assert(dumped(s, index)[i] == d[i]);
                }
            }
        } else {
            assert(dumped(s, index) =~= d);
        }
    }
}

/// Law: the status-bar line carries content only with the signal for an arrival (mode 0).
pub proof fn lemma_single_line_only_on_arrival(v: EngineView, mode: u32)
    requires
        mode != 0,
    ensures
        single_line_for(v, mode).len() == 0,
{
}

/// Law: invoking an action of a resident notification keeps every notification; the
/// notification center closes.
pub proof fn lemma_resident_survives_action(v: EngineView, id: u32, action_key: Seq<char>)
    requires
        is_resident(v, id),
    ensures
        ui_event_view(v, UiEventView::ActionInvoked { id, action_key }).tree == v.tree,
        ui_event_view(v, UiEventView::ActionInvoked { id, action_key }).index == v.index,
        !ui_event_view(v, UiEventView::ActionInvoked { id, action_key }).ui_open,
{
}

pub open spec fn age_sorted(s: Seq<(u8, u64, u32)>) -> bool {
    forall|i: int, j: int| 0 <= i < j < s.len() ==> evicts_first(#[trigger] s[i], #[trigger] s[j])
}

proof fn lemma_insert_by_age(s: Seq<(u8, u64, u32)>, x: (u8, u64, u32))
    requires
        age_sorted(s),
    ensures
        age_sorted(insert_by_age(s, x)),
        insert_by_age(s, x).to_multiset() == s.to_multiset().insert(x),
    decreases s.len(),
{
    broadcast use vstd::seq_lib::to_multiset_build, vstd::seq_lib::to_multiset_contains, vstd::multiset::group_multiset_axioms;

    if s.len() == 0 {
        assert(seq![x] =~= Seq::<(u8, u64, u32)>::empty().push(x));
    } else if evicts_first(s.last(), x) {
        let t = s.push(x);
        assert forall|i: int, j: int| 0 <= i < j < t.len() implies evicts_first(#[trigger] t[i], #[trigger] t[j]) by {
            if j == s.len() {
                if i < s.len() - 1 {
                    assert(evicts_first(s[i], s[s.len() - 1]));
                }
            } else {
                assert(t[i] == s[i] && t[j] == s[j]);
            }
        }
    } else {
        let d = s.drop_last();
        assert(age_sorted(d)) by {
            assert forall|i: int, j: int| 0 <= i < j < d.len() implies evicts_first(#[trigger] d[i], #[trigger] d[j]) by {
                assert(d[i] == s[i] && d[j] == s[j]);
            }
        }
        lemma_insert_by_age(d, x);
        let r = insert_by_age(d, x);
        let t = r.push(s.last());
        assert(s =~= d.push(s.last()));
        assert forall|i: int, j: int| 0 <= i < j < t.len() implies evicts_first(#[trigger] t[i], #[trigger] t[j]) by {
            if j == r.len() {
                let e = r[i];
                assert(r.to_multiset().count(e) > 0);
                assert(r.contains(e));
                if e != x {
                    assert(d.to_multiset().count(e) > 0);
                    assert(d.contains(e));
                    let m = choose|m: int| 0 <= m < d.len() && d[m] == e;
                    assert(evicts_first(s[m], s[s.len() - 1]));
                }
            } else {
                assert(t[i] == r[i] && t[j] == r[j]);
            }
        }
    }
}

/// Law: the eviction order puts a notification no later than any that is more urgent,
/// or as urgent and newer, and it reorders the notifications without losing or adding any.
pub proof fn lemma_eviction_order_sorted(s: Seq<(u8, u64, u32)>)
    ensures
        age_sorted(eviction_order(s)),
        eviction_order(s).to_multiset() == s.to_multiset(),
    decreases s.len(),
{
    broadcast use vstd::seq_lib::to_multiset_build, vstd::multiset::group_multiset_axioms;

    if s.len() > 0 {
        lemma_eviction_order_sorted(s.drop_last());
        lemma_insert_by_age(eviction_order(s.drop_last()), s.last());
        assert(s =~= s.drop_last().push(s.last()));
        assert(s.to_multiset() == s.drop_last().to_multiset().insert(s.last()));
    } else {
        assert(s =~= Seq::<(u8, u64, u32)>::empty());
        assert(eviction_order(s) =~= Seq::<(u8, u64, u32)>::empty());
    }
}


// ---------------------------------------------------------------------------
// The history limit
// ---------------------------------------------------------------------------

/// Notification `id` is in the index, and removal along the path the index holds for it
/// finds it.
pub open spec fn indexed(v: EngineView, id: u32) -> bool {
    &&& v.index.contains_key(id)
    &&& remove_view(v.tree, v.index[id], id).1 matches Some(x) && x.id == id
}

/// The index and the tree agree: no id occurs twice among the notifications, each one
/// is in the index, and each id of the index is found along the path it holds.
pub open spec fn consistent(v: EngineView) -> bool {
    &&& forall|x: u32|
        #[trigger] leaf_ids(v.tree).count(x) <= 1 && (leaf_ids(v.tree).count(x) > 0 ==> v.index.contains_key(x))
    &&& forall|x: u32| #[trigger] v.index.contains_key(x) ==> indexed(v, x)
}

/// In a consistent state the notifications have distinct ids, each indexed.
proof fn lemma_consistent_leafs(v: EngineView)
    requires
        consistent(v),
    ensures
        forall|i: int, j: int|
            0 <= i < j < cl_leafs(v.tree).len() ==> (#[trigger] cl_leafs(v.tree)[i]).id != (#[trigger] cl_leafs(
                v.tree,
            )[j]).id,
        forall|i: int| 0 <= i < cl_leafs(v.tree).len() ==> indexed(v, (#[trigger] cl_leafs(v.tree)[i]).id),
{
    broadcast use vstd::seq_lib::to_multiset_contains;

    let l = cl_leafs(v.tree);
    let ids = l.map_values(|n: NotificationView| n.id);
    assert(ids.to_multiset() == leaf_ids(v.tree));
    assert forall|x: u32| ids.to_multiset().contains(x) implies ids.to_multiset().count(x) == 1 by {
        assert(leaf_ids(v.tree).count(x) <= 1);
    }
    ids.lemma_multiset_has_no_duplicates_conv();
    assert forall|i: int, j: int| 0 <= i < j < l.len() implies (#[trigger] l[i]).id != (#[trigger] l[j]).id by {
        assert(ids[i] == l[i].id && ids[j] == l[j].id);
    }
    assert forall|i: int| 0 <= i < l.len() implies indexed(v, (#[trigger] l[i]).id) by {
        assert(ids[i] == l[i].id);
        assert(ids.contains(ids[i]));
        assert(leaf_ids(v.tree).count(l[i].id) > 0);
    }
}

/// Law (the index and the tree agree): removing a notification keeps a consistent
/// state consistent.
pub proof fn lemma_remove_keeps_consistent(v: EngineView, id: u32, update_last: bool)
    requires
        cl_wf(v.tree),
        consistent(v),
    ensures
        cl_wf(remove_step(v, id, update_last).tree),
        consistent(remove_step(v, id, update_last)),
{
    broadcast use vstd::multiset::group_multiset_axioms;

    if v.index.contains_key(id) {
        assert(indexed(v, id));
        let path = v.index[id];
        lemma_remove_wf(v.tree, path, id);
        lemma_remove_ids(v.tree, path, id);
        let w = remove_step(v, id, update_last);
        assert(leaf_ids(w.tree).insert(id) == leaf_ids(v.tree));
        assert forall|x: u32|
            #[trigger] leaf_ids(w.tree).count(x) <= 1 && (leaf_ids(w.tree).count(x) > 0 ==> w.index.contains_key(
                x,
            )) by {
            assert(leaf_ids(v.tree).count(x) <= 1);
            assert(leaf_ids(w.tree).insert(id).count(x) == leaf_ids(v.tree).count(x));
            assert(leaf_ids(v.tree).count(id) <= 1);
            assert(leaf_ids(w.tree).insert(id).count(id) == leaf_ids(v.tree).count(id));
        }
        assert forall|x: u32| #[trigger] w.index.contains_key(x) implies indexed(w, x) by {
            assert(v.index.contains_key(x));
            assert(indexed(v, x));
            lemma_remove_keeps_other(v.tree, path, id, v.index[x], x);
        }
    }
}

/// No id occurs twice among eviction ranks.
pub open spec fn ranks_distinct(s: Seq<(u8, u64, u32)>) -> bool {
    forall|i: int, j: int| 0 <= i < j < s.len() ==> (#[trigger] s[i]).2 != (#[trigger] s[j]).2
}

proof fn lemma_insert_by_age_ranks(s: Seq<(u8, u64, u32)>, x: (u8, u64, u32))
    requires
        ranks_distinct(s),
        forall|i: int| 0 <= i < s.len() ==> (#[trigger] s[i]).2 != x.2,
    ensures
        ranks_distinct(insert_by_age(s, x)),
        forall|k: int|
            0 <= k < insert_by_age(s, x).len() ==> #[trigger] insert_by_age(s, x)[k] == x || s.contains(
                insert_by_age(s, x)[k],
            ),
    decreases s.len(),
{
    lemma_insert_by_age_len(s, x);
    let r = insert_by_age(s, x);
    if s.len() == 0 {
    } else if evicts_first(s.last(), x) {
        assert forall|k: int| 0 <= k < r.len() implies #[trigger] r[k] == x || s.contains(r[k]) by {
            if k < s.len() {
                assert(r[k] == s[k]);
            }
        }
    } else {
        let d = s.drop_last();
        let l = s.last();
        lemma_insert_by_age_ranks(d, x);
        let q = insert_by_age(d, x);
        assert(r == q.push(l));
        assert forall|k: int| 0 <= k < q.len() implies (#[trigger] q[k]).2 != l.2 by {
            if q[k] != x {
                let m = choose|m: int| 0 <= m < d.len() && d[m] == q[k];
                assert(s[m] == d[m]);
            }
        }
        assert forall|i: int, j: int| 0 <= i < j < r.len() implies (#[trigger] r[i]).2 != (#[trigger] r[j]).2 by {
            if j == q.len() {
                assert(r[i] == q[i]);
            } else {
                assert(r[i] == q[i] && r[j] == q[j]);
            }
        }
        assert forall|k: int| 0 <= k < r.len() implies #[trigger] r[k] == x || s.contains(r[k]) by {
            if k == q.len() {
                assert(s[s.len() - 1] == r[k]);
            } else {
                assert(r[k] == q[k]);
                if q[k] != x {
                    let m = choose|m: int| 0 <= m < d.len() && d[m] == q[k];
                    assert(s[m] == d[m]);
                }
            }
        }
    }
}

proof fn lemma_eviction_order_ranks(s: Seq<(u8, u64, u32)>)
    requires
        ranks_distinct(s),
    ensures
        ranks_distinct(eviction_order(s)),
        forall|k: int| 0 <= k < eviction_order(s).len() ==> s.contains(#[trigger] eviction_order(s)[k]),
    decreases s.len(),
{
    if s.len() > 0 {
        let d = s.drop_last();
        let x = s.last();
        assert(ranks_distinct(d)) by {
            assert forall|i: int, j: int| 0 <= i < j < d.len() implies (#[trigger] d[i]).2 != (#[trigger] d[j]).2 by {
                assert(d[i] == s[i] && d[j] == s[j]);
            }
        }
        lemma_eviction_order_ranks(d);
        let e = eviction_order(d);
        assert forall|i: int| 0 <= i < e.len() implies (#[trigger] e[i]).2 != x.2 by {
            let m = choose|m: int| 0 <= m < d.len() && d[m] == e[i];
            assert(s[m] == d[m]);
        }
        lemma_insert_by_age_ranks(e, x);
        let r = eviction_order(s);
        assert forall|k: int| 0 <= k < r.len() implies s.contains(#[trigger] r[k]) by {
            if r[k] == x {
                assert(s[s.len() - 1] == x);
            } else {
                let m = choose|m: int| 0 <= m < e.len() && e[m] == r[k];
                let n = choose|n: int| 0 <= n < d.len() && d[n] == e[m];
                assert(s[n] == d[n]);
            }
        }
    }
}

/// The ids evicted from a consistent state are distinct ids of notifications in it.
proof fn lemma_eviction_ids_indexed(w: EngineView, max: usize)
    requires
        consistent(w),
    ensures
        forall|i: int, j: int|
            0 <= i < j < eviction_ids(w, max).len() ==> #[trigger] eviction_ids(w, max)[i] != #[trigger] eviction_ids(
                w,
                max,
            )[j],
        forall|i: int| 0 <= i < eviction_ids(w, max).len() ==> indexed(w, #[trigger] eviction_ids(w, max)[i]),
        eviction_ids(w, max).len() == (if max > 0 && cl_len(w.tree) > max {
            cl_len(w.tree) - max
        } else {
            0
        }),
{
    lemma_consistent_leafs(w);
    let l = cl_leafs(w.tree);
    let s = age_keys(l);
    lemma_cl_len_leafs(w.tree);
    assert(ranks_distinct(s)) by {
        assert forall|i: int, j: int| 0 <= i < j < s.len() implies (#[trigger] s[i]).2 != (#[trigger] s[j]).2 by {
            assert(s[i].2 == l[i].id && s[j].2 == l[j].id);
        }
    }
    lemma_eviction_order_ranks(s);
    lemma_eviction_order_len(s);
    let e = eviction_order(s);
    let ids = eviction_ids(w, max);
    if max > 0 && cl_len(w.tree) > max {
        let m = cl_len(w.tree) - max;
        assert(ids == e.take(m).map_values(|k: (u8, u64, u32)| k.2));
        assert forall|i: int| 0 <= i < ids.len() implies indexed(w, #[trigger] ids[i]) by {
            assert(ids[i] == e[i].2);
            let n = choose|n: int| 0 <= n < s.len() && s[n] == e[i];
            assert(s[n].2 == l[n].id);
        }
        assert forall|i: int, j: int| 0 <= i < j < ids.len() implies #[trigger] ids[i] != #[trigger] ids[j] by {
            assert(ids[i] == e[i].2 && ids[j] == e[j].2);
        }
    }
}

/// Removing distinct indexed notifications in turn removes one notification each, and
/// leaves every other indexed notification indexed.
proof fn lemma_evict_all_count(v: EngineView, ids: Seq<u32>)
    requires
        cl_wf(v.tree),
        forall|i: int, j: int| 0 <= i < j < ids.len() ==> #[trigger] ids[i] != #[trigger] ids[j],
        forall|i: int| 0 <= i < ids.len() ==> indexed(v, #[trigger] ids[i]),
    ensures
        cl_wf(evict_all(v, ids).tree),
        cl_len(evict_all(v, ids).tree) + ids.len() == cl_len(v.tree),
        forall|z: u32| indexed(v, z) && !ids.contains(z) ==> #[trigger] indexed(evict_all(v, ids), z),
    decreases ids.len(),
{
    if ids.len() > 0 {
        let d = ids.drop_last();
        let last = ids.last();
        assert forall|i: int, j: int| 0 <= i < j < d.len() implies #[trigger] d[i] != #[trigger] d[j] by {
            assert(d[i] == ids[i] && d[j] == ids[j]);
        }
        assert forall|i: int| 0 <= i < d.len() implies indexed(v, #[trigger] d[i]) by {
            assert(d[i] == ids[i]);
        }
        lemma_evict_all_count(v, d);
        let w = evict_all(v, d);
        assert(!d.contains(last)) by {
            if d.contains(last) {
                let m = choose|m: int| 0 <= m < d.len() && d[m] == last;
                assert(ids[m] == d[m]);
                assert(ids[ids.len() - 1] == last);
            }
        }
        assert(indexed(v, ids[ids.len() - 1]));
        assert(indexed(w, last));
        let path = w.index[last];
        lemma_remove_len(w.tree, path, last);
        lemma_remove_wf(w.tree, path, last);
        let w2 = evict_all(v, ids);
        assert(w2 == remove_step(w, last, true));
        assert forall|z: u32| indexed(v, z) && !ids.contains(z) implies #[trigger] indexed(w2, z) by {
            assert(!d.contains(z)) by {
                if d.contains(z) {
                    let m = choose|m: int| 0 <= m < d.len() && d[m] == z;
                    assert(ids[m] == d[m]);
                }
            }
            assert(indexed(w, z));
            assert(z != last) by {
                assert(ids[ids.len() - 1] == last);
            }
            lemma_remove_keeps_other(w.tree, path, last, w.index[z], z);
        }
    }
}

/// Law (history limit): eviction brings a consistent history down to `max`
/// notifications when it holds more (no limit when `max` is 0), removing exactly as many
/// as it holds beyond the limit.
pub proof fn lemma_eviction_respects_limit(w: EngineView, max: usize)
    requires
        cl_wf(w.tree),
        consistent(w),
    ensures
        cl_len(evict_all(w, eviction_ids(w, max)).tree) == (if max > 0 && cl_len(w.tree) > max {
            max as nat
        } else {
            cl_len(w.tree)
        }),
{
    lemma_eviction_ids_indexed(w, max);
    lemma_evict_all_count(w, eviction_ids(w, max));
}

/// Law (the index and the tree agree): filing a notification keeps a consistent state
/// consistent, when its path, once any notification it replaces is removed, meets no
/// notification and ends where nothing is keyed by its id.
pub proof fn lemma_file_keeps_consistent(v: EngineView, cfg: Config, n: NotificationView, now: u64)
    requires
        cl_wf(v.tree),
        consistent(v),
        files_cleanly(remove_step(v, n.id, false).tree, keys_spec(cfg, n), n.id),
    ensures
        cl_wf(filed(v, cfg, n, now).tree),
        consistent(filed(v, cfg, n, now)),
{
    broadcast use vstd::multiset::group_multiset_axioms;

    let v1 = remove_step(v, n.id, false);
    lemma_remove_keeps_consistent(v, n.id, false);
    lemma_configured_keeps(cfg, n);
    let p = prepared(cfg, n, now);
    let keys = keys_spec(cfg, n);
    assert(p.id == n.id);
    assert(!v1.index.contains_key(n.id));
    assert(leaf_ids(v1.tree).count(n.id) == 0);
    let w = filed(v, cfg, n, now);
    lemma_insert_wf(v1.tree, keys, p);
    lemma_insert_ids(v1.tree, keys, p);
    lemma_insert_then_remove(v1.tree, keys, p);
    assert forall|x: u32|
        #[trigger] leaf_ids(w.tree).count(x) <= 1 && (leaf_ids(w.tree).count(x) > 0 ==> w.index.contains_key(x)) by {
        assert(leaf_ids(v1.tree).count(x) <= 1);
    }
    assert forall|x: u32| #[trigger] w.index.contains_key(x) implies indexed(w, x) by {
        if x != n.id {
            assert(v1.index.contains_key(x));
            assert(indexed(v1, x));
            lemma_insert_keeps_other(v1.tree, keys, p, v1.index[x], x);
        }
    }
}

/// A notification's id is among the ids of a sequence exactly when it is counted there.
proof fn lemma_id_set_counts(s: Seq<NotificationView>, x: u32)
    ensures
        id_set(s).contains(x) <==> ids_of(s).count(x) > 0,
{
    broadcast use vstd::seq_lib::to_multiset_contains;

    let m = s.map_values(|n: NotificationView| n.id);
    assert(m.contains(x) <==> m.to_multiset().count(x) > 0);
}

/// Deleting a group from the notification center keeps a consistent state consistent.
proof fn lemma_group_deleted_keeps_consistent(v: EngineView, key: Seq<char>)
    requires
        cl_wf(v.tree),
        consistent(v),
    ensures
        cl_wf(group_deleted(v, key).tree),
        consistent(group_deleted(v, key)),
{
    broadcast use vstd::multiset::group_multiset_axioms;

    let path = resolved_context(v).push(key);
    let (t, removed) = remove_branch_path_view(v.tree, path);
    lemma_remove_branch_path_wf(v.tree, path);
    lemma_remove_branch_path_ids(v.tree, path);
    let w = group_deleted(v, key);
    assert forall|x: u32|
        #[trigger] leaf_ids(w.tree).count(x) <= 1 && (leaf_ids(w.tree).count(x) > 0 ==> w.index.contains_key(x)) by {
        assert(leaf_ids(t).add(ids_of(removed)).count(x) == leaf_ids(v.tree).count(x));
        assert(leaf_ids(v.tree).count(x) <= 1);
        lemma_id_set_counts(removed, x);
    }
    assert forall|x: u32| #[trigger] w.index.contains_key(x) implies indexed(w, x) by {
        assert(v.index.contains_key(x));
        assert(indexed(v, x));
        lemma_id_set_counts(removed, x);
        lemma_remove_branch_keeps_other(v.tree, path, v.index[x], x);
    }
}

/// Law (the index and the tree agree): a close request, an expiry, opening or closing
/// the notification center, and each event of the notification center keep a
/// consistent state consistent.
pub proof fn lemma_requests_keep_consistent(v: EngineView, id: u32, reason: u32, ev: UiEventView)
    requires
        cl_wf(v.tree),
        consistent(v),
    ensures
        cl_wf(close_view(v, id, reason).tree),
        consistent(close_view(v, id, reason)),
        cl_wf(expire_view(v, id).tree),
        consistent(expire_view(v, id)),
        consistent(toggle_view(v)),
        cl_wf(ui_event_view(v, ev).tree),
        consistent(ui_event_view(v, ev)),
{
    broadcast use vstd::multiset::group_multiset_axioms;

    lemma_remove_keeps_consistent(v, id, true);
    match ev {
        UiEventView::ActionInvoked { id: a, action_key } => {
            lemma_remove_keeps_consistent(v, a, true);
        },
        UiEventView::DeleteItem(a) => {
            lemma_remove_keeps_consistent(v, a, true);
        },
        UiEventView::DeleteGroup(key) => {
            lemma_group_deleted_keeps_consistent(v, key);
        },
        UiEventView::ClearAll => {
            let w = ui_event_view(v, ev);
            let e = Seq::<(Seq<char>, NodeView)>::empty();
            assert(cl_leafs(e).map_values(|n: NotificationView| n.id) =~= Seq::<u32>::empty());
            lemma_empty_to_multiset();
            assert(leaf_ids(w.tree) == Multiset::<u32>::empty());
            assert forall|x: u32| #[trigger] w.index.contains_key(x) implies indexed(w, x) by {
                assert(indexed(v, x));
                lemma_found_is_leaf(v.tree, v.index[x], x);
                lemma_id_set_counts(cl_leafs(v.tree), x);
            }
        },
        _ => {},
    }
}

/// Law (the index and the tree agree): restoring a notification whose id is not in use,
/// and whose stored path files cleanly, keeps a consistent state consistent.
pub proof fn lemma_restore_one_keeps_consistent(w: EngineView, cfg: Config, n: NotificationView, now: u64)
    requires
        cl_wf(w.tree),
        consistent(w),
        !w.index.contains_key(n.id),
        files_cleanly(w.tree, restore_keys(cfg, n), n.id),
    ensures
        cl_wf(restore_one_view(w, cfg, n, now).tree),
        consistent(restore_one_view(w, cfg, n, now)),
{
    broadcast use vstd::multiset::group_multiset_axioms;

    if !restore_expired(cfg, n, now) {
        lemma_configured_keeps(cfg, n);
        let m = restore_item(cfg, n);
        let keys = restore_keys(cfg, n);
        assert(m.id == n.id);
        assert(leaf_ids(w.tree).count(n.id) == 0);
        let u = restore_one_view(w, cfg, n, now);
        lemma_insert_wf(w.tree, keys, m);
        lemma_insert_ids(w.tree, keys, m);
        lemma_insert_then_remove(w.tree, keys, m);
        assert forall|x: u32|
            #[trigger] leaf_ids(u.tree).count(x) <= 1 && (leaf_ids(u.tree).count(x) > 0 ==> u.index.contains_key(x)) by {
            assert(leaf_ids(w.tree).count(x) <= 1);
        }
        assert forall|x: u32| #[trigger] u.index.contains_key(x) implies indexed(u, x) by {
            if x != n.id {
                assert(indexed(w, x));
                lemma_insert_keeps_other(w.tree, keys, m, w.index[x], x);
            }
        }
    }
}

/// Law (the index and the tree agree): a state with no notifications and an empty index,
/// as a new engine has, is consistent.
pub proof fn lemma_empty_is_consistent(v: EngineView)
    requires
        v.tree == Seq::<(Seq<char>, NodeView)>::empty(),
        v.index == Map::<u32, Seq<Seq<char>>>::empty(),
    ensures
        consistent(v),
{
    broadcast use vstd::multiset::group_multiset_axioms;

    assert(cl_leafs(v.tree).map_values(|n: NotificationView| n.id) =~= Seq::<u32>::empty());
    lemma_empty_to_multiset();
}

/// The number of notifications is the number of counted ids.
proof fn lemma_len_is_ids(c: Seq<(Seq<char>, NodeView)>)
    ensures
        cl_len(c) == leaf_ids(c).len(),
{
    lemma_cl_len_leafs(c);
    vstd::seq_lib::to_multiset_len(cl_leafs(c).map_values(|n: NotificationView| n.id));
}

/// Law (history count): from a consistent state, a notification that files cleanly adds
/// one notification, or none when it replaces one with its id; eviction then brings the
/// count down to the limit when one is set.
pub proof fn lemma_notify_count(v: EngineView, cfg: Config, n: NotificationView, now: u64)
    requires
        cl_wf(v.tree),
        consistent(v),
        files_cleanly(remove_step(v, n.id, false).tree, keys_spec(cfg, n), n.id),
    ensures
        cl_len(filed(v, cfg, n, now).tree) == cl_len(v.tree) + (if v.index.contains_key(n.id) {
            0int
        } else {
            1int
        }),
        cl_len(notify_view(v, cfg, n, now).tree) == (if cfg.behavior.max_notifications > 0 && cl_len(
            filed(v, cfg, n, now).tree,
        ) > cfg.behavior.max_notifications {
            cfg.behavior.max_notifications as nat
        } else {
            cl_len(filed(v, cfg, n, now).tree)
        }),
{
    broadcast use vstd::multiset::group_multiset_axioms;

    let v1 = remove_step(v, n.id, false);
    if v.index.contains_key(n.id) {
        assert(indexed(v, n.id));
        lemma_remove_ids(v.tree, v.index[n.id], n.id);
        lemma_remove_wf(v.tree, v.index[n.id], n.id);
    }
    lemma_len_is_ids(v.tree);
    lemma_len_is_ids(v1.tree);
    lemma_remove_keeps_consistent(v, n.id, false);
    lemma_configured_keeps(cfg, n);
    let p = prepared(cfg, n, now);
    lemma_insert_ids(v1.tree, keys_spec(cfg, n), p);
    let w = filed(v, cfg, n, now);
    lemma_len_is_ids(w.tree);
    lemma_file_keeps_consistent(v, cfg, n, now);
    lemma_eviction_respects_limit(w, cfg.behavior.max_notifications);
}

/// Each saved record is a non-transient notification with the path the index holds.
proof fn lemma_dumped_members(s: Seq<NotificationView>, index: Map<u32, Seq<Seq<char>>>)
    ensures
        forall|k: int|
            0 <= k < dumped(s, index).len() ==> exists|j: int|
                0 <= j < s.len() && !s[j].transient && #[trigger] dumped(s, index)[k] == with_index_keys(s[j], index),
    decreases s.len(),
{
    if s.len() > 0 {
        let d = s.drop_last();
        lemma_dumped_members(d, index);
        let r = dumped(s, index);
        let rd = dumped(d, index);
        assert forall|k: int| 0 <= k < r.len() implies exists|j: int|
            0 <= j < s.len() && !s[j].transient && #[trigger] r[k] == with_index_keys(s[j], index) by {
            if k < rd.len() {
                assert(r[k] == rd[k]);
                let j = choose|j: int| 0 <= j < d.len() && !d[j].transient && rd[k] == with_index_keys(d[j], index);
                assert(s[j] == d[j]);
            } else {
                assert(r[k] == with_index_keys(s.last(), index));
                assert(s[s.len() - 1] == s.last());
            }
        }
    }
}

/// Law (saving and restoring): each record saved from a consistent state is a
/// non-transient notification carrying the path the index holds for it; restored (when
/// not expired), it is filed under that same path and found there, as saved but
/// without the stored path.
pub proof fn lemma_save_restore_roundtrip(v: EngineView, cfg: Config, w: EngineView, k: int, now: u64)
    requires
        cl_wf(w.tree),
        consistent(v),
        0 <= k < dumped(cl_leafs(v.tree), v.index).len(),
        !restore_expired(cfg, dumped(cl_leafs(v.tree), v.index)[k], now),
    ensures
        ({
            let d = dumped(cl_leafs(v.tree), v.index)[k];
            &&& !d.transient
            &&& v.index.contains_key(d.id)
            &&& d.keys == Some(v.index[d.id])
            &&& restore_one_view(w, cfg, d, now).index[d.id] == v.index[d.id]
            &&& lookup_leaf(restore_one_view(w, cfg, d, now), d.id) == Some(NotificationView { keys: None, ..d })
        }),
{
    let l = cl_leafs(v.tree);
    let d = dumped(l, v.index)[k];
    lemma_dumped_members(l, v.index);
    let j = choose|j: int| 0 <= j < l.len() && !l[j].transient && dumped(l, v.index)[k] == with_index_keys(l[j], v.index);
    lemma_consistent_leafs(v);
    assert(indexed(v, l[j].id));
    let keys = v.index[d.id];
    lemma_insert_then_walk(w.tree, keys, restore_item(cfg, d));
}

/// Removals in turn keep a consistent state consistent.
proof fn lemma_evict_all_keeps_consistent(v: EngineView, ids: Seq<u32>)
    requires
        cl_wf(v.tree),
        consistent(v),
    ensures
        cl_wf(evict_all(v, ids).tree),
        consistent(evict_all(v, ids)),
    decreases ids.len(),
{
    if ids.len() > 0 {
        lemma_evict_all_keeps_consistent(v, ids.drop_last());
        lemma_remove_keeps_consistent(evict_all(v, ids.drop_last()), ids.last(), true);
    }
}

/// Law (history limit, and the index and the tree agree): from a consistent state, a
/// notification that files cleanly leaves the state consistent and, when a limit is set,
/// at most `max_notifications` notifications.
pub proof fn lemma_notify_respects_limit(v: EngineView, cfg: Config, n: NotificationView, now: u64)
    requires
        cl_wf(v.tree),
        consistent(v),
        files_cleanly(remove_step(v, n.id, false).tree, keys_spec(cfg, n), n.id),
    ensures
        consistent(notify_view(v, cfg, n, now)),
        cfg.behavior.max_notifications > 0 ==> cl_len(notify_view(v, cfg, n, now).tree)
            <= cfg.behavior.max_notifications,
{
    lemma_file_keeps_consistent(v, cfg, n, now);
    let w = filed(v, cfg, n, now);
    lemma_eviction_respects_limit(w, cfg.behavior.max_notifications);
    lemma_evict_all_keeps_consistent(w, eviction_ids(w, cfg.behavior.max_notifications));
}

/// Law (history limit, from the shape of the tree): in a consistent state of a tree built
/// by the operations, a notification whose path, once any notification it replaces is
/// removed, meets no notification, and where no group is keyed by its id, files cleanly;
/// so the state stays consistent and within `max_notifications`.
pub proof fn lemma_notify_limit_by_shape(v: EngineView, cfg: Config, n: NotificationView, now: u64)
    requires
        tree_inv(v.tree),
        consistent(v),
        path_meets_no_leaf(remove_step(v, n.id, false).tree, keys_spec(cfg, n)),
        no_group_keyed(remove_step(v, n.id, false).tree, decimal(n.id as nat)),
    ensures
        files_cleanly(remove_step(v, n.id, false).tree, keys_spec(cfg, n), n.id),
        consistent(notify_view(v, cfg, n, now)),
        cfg.behavior.max_notifications > 0 ==> cl_len(notify_view(v, cfg, n, now).tree)
            <= cfg.behavior.max_notifications,
{
    let v1 = remove_step(v, n.id, false);
    if v.index.contains_key(n.id) {
        lemma_tree_inv_kept(v.tree, v.index[n.id], n, n.id);
    }
    lemma_remove_keeps_consistent(v, n.id, false);
    assert(leaf_ids(v1.tree).count(n.id) == 0);
    lemma_files_well(v1.tree, keys_spec(cfg, n), n.id);
    lemma_notify_respects_limit(v, cfg, n, now);
}

/// Law: closing an indexed notification removes exactly one notification.
pub proof fn lemma_close_counts_one(v: EngineView, id: u32, reason: u32)
    requires
        cl_wf(v.tree),
        indexed(v, id),
        !close_ignored(v, id, reason),
    ensures
        cl_len(close_view(v, id, reason).tree) + 1 == cl_len(v.tree),
{
    lemma_remove_len(v.tree, v.index[id], id);
}

} // verus!
