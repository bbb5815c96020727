//! Choosing the Sway/i3 window that belongs to a notification, and the i3-ipc framing.
use vstd::prelude::*;
use crate::text::{
    chars_of, contains, contains_spec, lowercase_of, to_lowercase, is_prefix, starts_with, has_suffix, ends_with,
    is_ascii_text, ascii_fold, occurs_at,
};
use crate::data::notification::opt_str_view;
use crate::icon::opt_str_ref_view;

verus! {

/// What is known of the window a notification came from.
#[derive(Debug)]
pub struct FocusTargetHints {
    pub app_name: String,
    pub summary: String,
    pub body: String,
}

impl View for FocusTargetHints {
    type V = (Seq<char>, Seq<char>, Seq<char>);

    open spec fn view(&self) -> (Seq<char>, Seq<char>, Seq<char>) {
        (self.app_name@, self.summary@, self.body@)
    }
}

impl Default for FocusTargetHints {
    fn default() -> (r: Self)
        ensures
            r.app_name@.len() == 0,
            r.summary@.len() == 0,
            r.body@.len() == 0,
    {
        FocusTargetHints { app_name: String::new(), summary: String::new(), body: String::new() }
    }
}

// ---------------------------------------------------------------------------
// Scoring windows
// ---------------------------------------------------------------------------

pub open spec fn lower_or_empty(o: Option<Seq<char>>) -> Seq<char> {
    match o {
        Some(s) => lowercase_of(s),
        None => Seq::empty(),
    }
}

/// Whether the app id or window class names a web browser.
pub open spec fn is_browser(app_id: Seq<char>, class: Seq<char>) -> bool {
    contains_spec(app_id, "chrome"@) || contains_spec(app_id, "chromium"@) || contains_spec(class, "chrome"@)
        || contains_spec(class, "chromium"@) || contains_spec(app_id, "brave"@) || contains_spec(app_id, "firefox"@)
}

/// How well a window matches a notification, compared without case: 100 when its title
/// holds the summary; for a non-empty app name, 60 when app id or class is it, else 50
/// when one holds it, else 40 when it holds the (non-empty) app id; 40 more when the
/// title holds it, and 60 more when the window is a browser's.
pub open spec fn score_spec(
    name: Option<Seq<char>>,
    app_id: Option<Seq<char>>,
    class: Option<Seq<char>>,
    hints: (Seq<char>, Seq<char>, Seq<char>),
) -> int {
    score_on_lower(
        lower_or_empty(name),
        lower_or_empty(app_id),
        lower_or_empty(class),
        lowercase_of(hints.0),
        lowercase_of(hints.1),
    )
}

/// The score from the lower-cased title, app id, class, app name and summary.
pub open spec fn score_on_lower(nl: Seq<char>, al: Seq<char>, cl: Seq<char>, ta: Seq<char>, ts: Seq<char>) -> int {
    (if ts.len() > 0 && contains_spec(nl, ts) {
        100int
    } else {
        0int
    }) + (if ta.len() > 0 {
        (if al == ta || cl == ta {
            60int
        } else if contains_spec(al, ta) || contains_spec(cl, ta) {
            50int
        } else if contains_spec(ta, al) && al.len() > 0 {
            40int
        } else {
            0int
        }) + (if contains_spec(nl, ta) {
            40int
        } else {
            0int
        }) + (if is_browser(al, cl) && contains_spec(nl, ta) {
            60int
        } else {
            0int
        })
    } else {
        0int
    })
}

/// Law: a window that shares nothing with the notification scores 0: its title holds
/// neither the summary nor the app name, it has no app id, and its class neither is
/// nor holds the app name.
pub proof fn lemma_unrelated_window_scores_zero(nl: Seq<char>, cl: Seq<char>, ta: Seq<char>, ts: Seq<char>)
    requires
        !contains_spec(nl, ts),
        !contains_spec(nl, ta),
        !contains_spec(cl, ta),
        cl != ta,
    ensures
        score_on_lower(nl, Seq::empty(), cl, ta, ts) == 0,
{
    let e = Seq::<char>::empty();
    if ta.len() > 0 {
        assert(e != ta);
        assert(!contains_spec(e, ta)) by {
            if contains_spec(e, ta) {
                let at = choose|at: int| occurs_at(e, ta, at);
            }
        }
    }
}

/// Law: a window scores at least 100 when its title holds the (non-empty) summary, and at
/// least 60 when its app id is the (non-empty) app name.
pub proof fn lemma_matching_window_scores(nl: Seq<char>, al: Seq<char>, cl: Seq<char>, ta: Seq<char>, ts: Seq<char>)
    ensures
        ts.len() > 0 && contains_spec(nl, ts) ==> score_on_lower(nl, al, cl, ta, ts) >= 100,
        ta.len() > 0 && al == ta ==> score_on_lower(nl, al, cl, ta, ts) >= 60,
{
}

/// An optional text that is absent or ASCII.
pub open spec fn opt_ascii(o: Option<Seq<char>>) -> bool {
    match o {
        Some(s) => is_ascii_text(s),
        None => true,
    }
}

/// An optional text with its ASCII letters in lower case; empty when absent.
pub open spec fn fold_or_empty(o: Option<Seq<char>>) -> Seq<char> {
    match o {
        Some(s) => ascii_fold(s),
        None => Seq::empty(),
    }
}

/// Law: a score lies between 0 and 260, and the notification's body plays no part in it.
pub proof fn lemma_score_range(
    name: Option<Seq<char>>,
    app_id: Option<Seq<char>>,
    class: Option<Seq<char>>,
    hints: (Seq<char>, Seq<char>, Seq<char>),
    other_body: Seq<char>,
)
    ensures
        0 <= score_spec(name, app_id, class, hints) <= 260,
        score_spec(name, app_id, class, hints) == score_spec(name, app_id, class, (hints.0, hints.1, other_body)),
{
}

fn lower_opt(o: Option<&str>) -> (r: Vec<char>)
    ensures
        r@ == lower_or_empty(
            match o {
                Some(s) => Some(s@),
                None => None,
            },
        ),
        opt_ascii(
            match o {
                Some(s) => Some(s@),
                None => None,
            },
        ) ==> r@ == fold_or_empty(
            match o {
                Some(s) => Some(s@),
                None => None,
            },
        ),
{
    match o {
        Some(s) => {
            let l = to_lowercase(s);
            chars_of(l.as_str())
        },
        None => Vec::new(),
    }
}

/// Scores a window by its title, app id and class against a notification; see
/// `score_spec`.
pub fn score_sway_container(
    name: Option<&str>,
    app_id: Option<&str>,
    class: Option<&str>,
    hints: &FocusTargetHints,
) -> (score: i32)
    ensures
        score == score_spec(
            match name {
                Some(s) => Some(s@),
                None => None,
            },
            match app_id {
                Some(s) => Some(s@),
                None => None,
            },
            match class {
                Some(s) => Some(s@),
                None => None,
            },
            hints@,
        ),
        hints@.0.len() == 0 && hints@.1.len() == 0 ==> score == 0,
        opt_ascii(opt_str_ref_view(name)) && opt_ascii(opt_str_ref_view(app_id)) && opt_ascii(opt_str_ref_view(class))
            && is_ascii_text(hints@.0) && is_ascii_text(hints@.1) ==> score == score_on_lower(
            fold_or_empty(opt_str_ref_view(name)),
            fold_or_empty(opt_str_ref_view(app_id)),
            fold_or_empty(opt_str_ref_view(class)),
            ascii_fold(hints@.0),
            ascii_fold(hints@.1),
        ),
{
    let mut score: i32 = 0;
    let nl = lower_opt(name);
    let al = lower_opt(app_id);
    let cl = lower_opt(class);
    let ta_s = to_lowercase(hints.app_name.as_str());
    let ts_s = to_lowercase(hints.summary.as_str());
    let ta = chars_of(ta_s.as_str());
    let ts = chars_of(ts_s.as_str());
    if ts.len() > 0 && contains(&nl, &ts) {
        score += 100;
    }
    if ta.len() > 0 {
        let al_eq = crate::text::chars_eq(&al, &ta);
        let cl_eq = crate::text::chars_eq(&cl, &ta);
        if al_eq || cl_eq {
            score += 60;
        } else if contains(&al, &ta) || contains(&cl, &ta) {
            score += 50;
        } else if contains(&ta, &al) && al.len() > 0 {
            score += 40;
        }
        let title_has_app = contains(&nl, &ta);
        if title_has_app {
            score += 40;
        }
        let chrome = chars_of("chrome");
        let chromium = chars_of("chromium");
        let brave = chars_of("brave");
        let firefox = chars_of("firefox");
        let browser = contains(&al, &chrome) || contains(&al, &chromium) || contains(&cl, &chrome)
            || contains(&cl, &chromium) || contains(&al, &brave) || contains(&al, &firefox);
        if browser && title_has_app {
            score += 60;
        }
    }
    score
}

// ---------------------------------------------------------------------------
// The window tree
// ---------------------------------------------------------------------------

/// Window properties of an X11 window.
#[derive(Debug)]
pub struct SwayWindowProperties {
    pub class: Option<String>,
    pub title: Option<String>,
}

/// A node of the Sway/i3 layout tree, as `GET_TREE` reports it.
#[derive(Debug)]
pub struct SwayNode {
    pub id: i64,
    pub name: Option<String>,
    pub node_type: Option<String>,
    pub app_id: Option<String>,
    pub window_properties: Option<SwayWindowProperties>,
    pub nodes: Vec<SwayNode>,
    pub floating_nodes: Vec<SwayNode>,
}

/// A node is a window when it has an app id or window properties, or is a childless
/// container with a name.
pub open spec fn is_window(n: SwayNode) -> bool {
    n.app_id is Some || n.window_properties is Some || (opt_str_view(n.node_type) == Some("con"@)
        && n.nodes@.len() == 0 && n.name is Some)
}

/// The title of a window: its name, else its X11 title.
pub open spec fn title_of(n: SwayNode) -> Option<Seq<char>> {
    match n.name {
        Some(s) => Some(s@),
        None => match n.window_properties {
            Some(wp) => opt_str_view(wp.title),
            None => None,
        },
    }
}

pub open spec fn class_of(n: SwayNode) -> Option<Seq<char>> {
    match n.window_properties {
        Some(wp) => opt_str_view(wp.class),
        None => None,
    }
}

pub open spec fn node_score(n: SwayNode, hints: (Seq<char>, Seq<char>, Seq<char>)) -> int {
    score_spec(title_of(n), opt_str_view(n.app_id), class_of(n), hints)
}

/// The best-scoring window under `n` (itself first, then its tiled, then its floating
/// children, depth first; a later one wins only with a strictly higher score), as
/// `(id, score)`; `(-1, 0)` when none scores above 0.
pub open spec fn best_match(n: SwayNode, hints: (Seq<char>, Seq<char>, Seq<char>)) -> (i64, int)
    decreases n,
{
    let own = if is_window(n) && node_score(n, hints) > 0 {
        (n.id, node_score(n, hints))
    } else {
        (-1i64, 0int)
    };
    best_among(n.floating_nodes@, best_among(n.nodes@, own, hints), hints)
}

/// `acc`, improved in turn by the best window under each node of `s`.
pub open spec fn best_among(s: Seq<SwayNode>, acc: (i64, int), hints: (Seq<char>, Seq<char>, Seq<char>)) -> (
    i64,
    int,
)
    decreases s,
{
    if s.len() == 0 {
        acc
    } else {
        let a = best_among(s.subrange(0, s.len() - 1), acc, hints);
        let c = best_match(s[s.len() - 1], hints);
        if c.1 > a.1 {
            c
        } else {
            a
        }
    }
}

proof fn lemma_score_bounds(n: SwayNode, hints: (Seq<char>, Seq<char>, Seq<char>))
    ensures
        0 <= node_score(n, hints) <= 260,
{
}

proof fn lemma_best_bounds(n: SwayNode, hints: (Seq<char>, Seq<char>, Seq<char>))
    ensures
        0 <= best_match(n, hints).1 <= 260,
    decreases n,
{
    lemma_score_bounds(n, hints);
    let own = if is_window(n) && node_score(n, hints) > 0 {
        (n.id, node_score(n, hints))
    } else {
        (-1i64, 0int)
    };
    lemma_among_bounds(n.nodes@, own, hints);
    lemma_among_bounds(n.floating_nodes@, best_among(n.nodes@, own, hints), hints);
}

proof fn lemma_among_bounds(s: Seq<SwayNode>, acc: (i64, int), hints: (Seq<char>, Seq<char>, Seq<char>))
    requires
        0 <= acc.1 <= 260,
    ensures
        0 <= best_among(s, acc, hints).1 <= 260,
    decreases s,
{
    if s.len() > 0 {
        lemma_among_bounds(s.subrange(0, s.len() - 1), acc, hints);
        lemma_best_bounds(s[s.len() - 1], hints);
    }
}

fn node_score_exec(n: &SwayNode, hints: &FocusTargetHints) -> (r: i32)
    ensures
        r == node_score(*n, hints@),
{
    let class: Option<&str> = match &n.window_properties {
        Some(wp) => match &wp.class {
            Some(c) => Some(c.as_str()),
            None => None,
        },
        None => None,
    };
    let title: Option<&str> = match &n.name {
        Some(s) => Some(s.as_str()),
        None => match &n.window_properties {
            Some(wp) => match &wp.title {
                Some(t) => Some(t.as_str()),
                None => None,
            },
            None => None,
        },
    };
    let app_id: Option<&str> = match &n.app_id {
        Some(a) => Some(a.as_str()),
        None => None,
    };
    score_sway_container(title, app_id, class, hints)
}

fn is_window_exec(n: &SwayNode) -> (r: bool)
    ensures
        r == is_window(*n),
{
    let is_con = match &n.node_type {
        Some(t) => {
            let tc = chars_of(t.as_str());
            let con = chars_of("con");
            crate::text::chars_eq(&tc, &con)
        },
        None => false,
    };
    n.app_id.is_some() || n.window_properties.is_some() || (is_con && n.nodes.len() == 0 && n.name.is_some())
}

/// Improves `best` by the best window under each node of `s`, in order.
fn best_among_exec(s: &Vec<SwayNode>, best: (i64, i32), hints: &FocusTargetHints) -> (r: (i64, i32))
    requires
        0 <= best.1 <= 260,
    ensures
        (r.0, r.1 as int) == best_among(s@, (best.0, best.1 as int), hints@),
    decreases s@, 0int,
{
    let mut acc = best;
    for i in 0..s.len()
        invariant
            0 <= best.1 <= 260,
            (acc.0, acc.1 as int) == best_among(s@.subrange(0, i as int), (best.0, best.1 as int), hints@),
    {
        proof {
            let t = s@.subrange(0, i as int + 1);
            assert(t.subrange(0, t.len() - 1) =~= s@.subrange(0, i as int));
            assert(t[t.len() - 1] == s@[i as int]);
            lemma_among_bounds(s@.subrange(0, i as int), (best.0, best.1 as int), hints@);
            assert(decreases_to!(s@ => s@[i as int]));
        }
        let c = find_best_matching_container(&s[i], hints);
        if c.1 > acc.1 {
            acc = c;
        }
    }
    assert(s@.subrange(0, s@.len() as int) =~= s@);
    acc
}

/// The best-scoring window under `node`, as `(id, score)`; see `best_match`.
pub fn find_best_matching_container(node: &SwayNode, hints: &FocusTargetHints) -> (r: (i64, i32))
    ensures
        (r.0, r.1 as int) == best_match(*node, hints@),
    decreases *node, 1int,
{
    proof {
        lemma_score_bounds(*node, hints@);
    }
    let mut best: (i64, i32) = (-1, 0);
    if is_window_exec(node) {
        let score = node_score_exec(node, hints);
        if score > 0 {
            best = (node.id, score);
        }
    }
    proof {
        lemma_among_bounds(node.nodes@, (best.0, best.1 as int), hints@);
    }
    let after_tiled = best_among_exec(&node.nodes, best, hints);
    best_among_exec(&node.floating_nodes, after_tiled, hints)
}

/// Where to move the focus when no window turned urgent: the best-matching window, when
/// the notification names an app or a summary and some window scores above 0 with a
/// positive id.
pub open spec fn fallback_focus_spec(root: SwayNode, hints: (Seq<char>, Seq<char>, Seq<char>)) -> Option<i64> {
    if hints.0.len() > 0 || hints.1.len() > 0 {
        let (id, score) = best_match(root, hints);
        if id > 0 && score > 0 {
            Some(id)
        } else {
            None
        }
    } else {
        None
    }
}

/// Longest wait (ns) for the action to raise an urgent window.
pub const URGENCY_WINDOW_NS: u64 = 75_000_000;

/// How long to wait for an urgent window after invoking an action: the configured
/// timeout, but no more than 75 ms.
pub fn urgency_window_ns(timeout_ns: u64) -> (r: u64)
    ensures
        r == (if timeout_ns < URGENCY_WINDOW_NS {
            timeout_ns
        } else {
            URGENCY_WINDOW_NS
        }),
{
    if timeout_ns < URGENCY_WINDOW_NS {
        timeout_ns
    } else {
        URGENCY_WINDOW_NS
    }
}

/// Whether to search the window tree after invoking an action: not when an urgent
/// window was focused already, nor when the notification names neither app nor summary.
pub fn needs_tree_search(urgent_focused: bool, hints: &FocusTargetHints) -> (r: bool)
    ensures
        r == (!urgent_focused && (hints@.0.len() > 0 || hints@.1.len() > 0)),
{
    !urgent_focused && (!hints.app_name.as_str().is_empty() || !hints.summary.as_str().is_empty())
}

/// The container to focus after searching the tree; see `fallback_focus_spec`.
pub fn fallback_focus_target(root: &SwayNode, hints: &FocusTargetHints) -> (r: Option<i64>)
    ensures
        r == fallback_focus_spec(*root, hints@),
{
    if hints.app_name.as_str().is_empty() && hints.summary.as_str().is_empty() {
        return None;
    }
    let (id, score) = find_best_matching_container(root, hints);
    if id > 0 && score > 0 {
        Some(id)
    } else {
        None
    }
}

// ---------------------------------------------------------------------------
// Finding the socket
// ---------------------------------------------------------------------------

/// A file of the runtime directory that is a Sway IPC socket: `sway-ipc…` or
/// `sway-…`, ending in `.sock`.
pub open spec fn sway_socket_name_spec(name: Seq<char>) -> bool {
    (is_prefix("sway-ipc"@, name) || is_prefix("sway-"@, name)) && has_suffix(name, ".sock"@)
}

/// A file of the runtime directory's `i3` folder that is an i3 IPC socket.
pub open spec fn i3_socket_name_spec(name: Seq<char>) -> bool {
    is_prefix("ipc-socket"@, name)
}

/// See `sway_socket_name_spec`.
pub fn is_sway_socket_name(name: &str) -> (r: bool)
    ensures
        r == sway_socket_name_spec(name@),
{
    let v = chars_of(name);
    (starts_with(&v, &chars_of("sway-ipc")) || starts_with(&v, &chars_of("sway-"))) && ends_with(
        &v,
        &chars_of(".sock"),
    )
}

/// See `i3_socket_name_spec`.
pub fn is_i3_socket_name(name: &str) -> (r: bool)
    ensures
        r == i3_socket_name_spec(name@),
{
    starts_with(&chars_of(name), &chars_of("ipc-socket"))
}

// ---------------------------------------------------------------------------
// i3-ipc framing
// ---------------------------------------------------------------------------

/// The magic string that starts every i3-ipc message.
pub const IPC_MAGIC: [u8; 6] = [105, 51, 45, 105, 112, 99];

pub const MESSAGE_TYPE_RUN_COMMAND: u32 = 0;

pub const MESSAGE_TYPE_SUBSCRIBE: u32 = 2;

pub const MESSAGE_TYPE_GET_TREE: u32 = 4;

/// Bit set in the type of an event message.
pub const EVENT_MASK: u32 = 0x8000_0000;

/// Largest payload accepted from the window manager: 16 MiB.
pub const MAX_PAYLOAD: usize = 16777216;

pub open spec fn magic_spec() -> Seq<u8> {
    seq![105u8, 51u8, 45u8, 105u8, 112u8, 99u8]
}

/// Little-endian bytes of `x`.
pub open spec fn le32(x: u32) -> Seq<u8> {
    seq![
        (x % 256) as u8,
        ((x / 256) % 256) as u8,
        ((x / 65536) % 256) as u8,
        ((x / 16777216) % 256) as u8,
    ]
}

/// The number whose little-endian bytes are `b[at..at + 4]`.
pub open spec fn from_le32(b: Seq<u8>, at: int) -> u32 {
    (b[at] as int + b[at + 1] as int * 256 + b[at + 2] as int * 65536 + b[at + 3] as int * 16777216) as u32
}

/// A framed message: magic, payload length and type (little-endian), payload.
pub open spec fn frame_spec(msg_type: u32, payload: Seq<u8>) -> Seq<u8> {
    magic_spec() + le32(payload.len() as u32) + le32(msg_type) + payload
}

fn push_le32(out: &mut Vec<u8>, x: u32)
    ensures
        final(out)@ == old(out)@ + le32(x),
{
    let ghost base = out@;
    out.push((x % 256) as u8);
    out.push(((x / 256) % 256) as u8);
    out.push(((x / 65536) % 256) as u8);
    out.push(((x / 16777216) % 256) as u8);
    assert(out@ =~= base + le32(x));
}

/// Frames a message of type `msg_type`; see `frame_spec`.
pub fn frame_ipc_message(msg_type: u32, payload: &[u8]) -> (r: Vec<u8>)
    requires
        payload@.len() <= u32::MAX,
    ensures
        r@ == frame_spec(msg_type, payload@),
{
    let mut out: Vec<u8> = Vec::new();
    for i in 0..6
        invariant
            out@ == magic_spec().subrange(0, i as int),
    {
        out.push(IPC_MAGIC[i]);
        assert(out@ =~= magic_spec().subrange(0, i as int + 1));
    }
    push_le32(&mut out, payload.len() as u32);
    push_le32(&mut out, msg_type);
    let ghost base = out@;
    for i in 0..payload.len()
        invariant
            out@ == base + payload@.subrange(0, i as int),
    {
        out.push(payload[i]);
        assert(out@ =~= base + payload@.subrange(0, i as int + 1));
    }
    assert(payload@.subrange(0, payload@.len() as int) =~= payload@);
    assert(out@ =~= frame_spec(msg_type, payload@));
    out
}

/// Why a message header was refused.
#[derive(Debug, PartialEq, Eq, Structural)]
pub enum IpcError {
    /// The header does not start with the magic string.
    BadMagic,
    /// The announced payload is larger than `MAX_PAYLOAD`.
    TooLarge,
}

/// The header of a received message: on valid magic and a length within the limit, the
/// message type and the payload length.
pub open spec fn parse_header_spec(h: Seq<u8>) -> Result<(u32, usize), IpcError> {
    if h.subrange(0, 6) != magic_spec() {
        Err(IpcError::BadMagic)
    } else if from_le32(h, 6) > MAX_PAYLOAD {
        Err(IpcError::TooLarge)
    } else {
        Ok((from_le32(h, 10), from_le32(h, 6) as usize))
    }
}

proof fn lemma_from_le32(b: Seq<u8>, at: int)
    requires
        0 <= at,
        at + 4 <= b.len(),
    ensures
        from_le32(b, at) as int == b[at] as int + b[at + 1] as int * 256 + b[at + 2] as int * 65536 + b[at + 3] as int
            * 16777216,
{
    let x0 = b[at] as int;
    let x1 = b[at + 1] as int;
    let x2 = b[at + 2] as int;
    let x3 = b[at + 3] as int;
    assert(0 <= x0 + x1 * 256 + x2 * 65536 + x3 * 16777216 <= 0xffff_ffff) by (nonlinear_arith)
        requires
            0 <= x0 <= 255,
            0 <= x1 <= 255,
            0 <= x2 <= 255,
            0 <= x3 <= 255,
    ;
}

/// Reads the number whose little-endian bytes start at `at`.
fn read_le32(h: &[u8; 14], at: usize) -> (r: u32)
    requires
        at + 4 <= 14,
    ensures
        r == from_le32(h@, at as int),
{
    proof {
        lemma_from_le32(h@, at as int);
    }
    let x0 = h[at] as u32;
    let x1 = h[at + 1] as u32;
    let x2 = h[at + 2] as u32;
    let x3 = h[at + 3] as u32;
    assert(x1 * 256 <= 255 * 256) by (nonlinear_arith)
        requires
            x1 <= 255,
    ;
    assert(x2 * 65536 <= 255 * 65536) by (nonlinear_arith)
        requires
            x2 <= 255,
    ;
    assert(x3 * 16777216 <= 255 * 16777216) by (nonlinear_arith)
        requires
            x3 <= 255,
    ;
    x0 + x1 * 256 + x2 * 65536 + x3 * 16777216
}

/// Reads a 14-byte message header; see `parse_header_spec`.
pub fn parse_ipc_header(header: &[u8; 14]) -> (r: Result<(u32, usize), IpcError>)
    ensures
        r == parse_header_spec(header@),
{
    let ghost h = header@;
    let mut i: usize = 0;
    while i < 6
        invariant
            i <= 6,
            h == header@,
            h.len() == 14,
            forall|k: int| 0 <= k < i ==> h[k] == magic_spec()[k],
        decreases 6 - i,
    {
        if header[i] != IPC_MAGIC[i] {
            proof {
                assert(h.subrange(0, 6)[i as int] != magic_spec()[i as int]);
            }
            return Err(IpcError::BadMagic);
        }
        i = i + 1;
    }
    assert(h.subrange(0, 6) =~= magic_spec());
    let length = read_le32(header, 6);
    let msg_type = read_le32(header, 10);
    if length as usize > MAX_PAYLOAD {
        return Err(IpcError::TooLarge);
    }
    Ok((msg_type, length as usize))
}

/// Whether `p` occurs in `s` as a run of bytes.
pub open spec fn contains_bytes_spec(s: Seq<u8>, p: Seq<u8>) -> bool {
    exists|at: int| 0 <= at && at + p.len() <= s.len() && #[trigger] s.subrange(at, at + p.len()) == p
}

fn contains_bytes(s: &[u8], p: &[u8]) -> (r: bool)
    ensures
        r == contains_bytes_spec(s@, p@),
{
    if p.len() == 0 {
        assert(s@.subrange(0int, 0int + p@.len()) =~= p@);
        return true;
    }
    if p.len() > s.len() {
        return false;
    }
    let last = s.len() - p.len();
    let mut at: usize = 0;
    while at <= last
        invariant
            p@.len() > 0,
            s@.len() == s.len(),
            last == s@.len() - p@.len(),
            at <= last + 1,
            forall|k: int| 0 <= k < at ==> #[trigger] s@.subrange(k, k + p@.len()) != p@,
        decreases last + 1 - at,
    {
        let mut j: usize = 0;
        let mut same = true;
        while j < p.len()
            invariant
                j <= p@.len(),
                at <= last,
                s@.len() == s.len(),
                last == s@.len() - p@.len(),
                same == (forall|k: int| 0 <= k < j ==> s@[at + k] == p@[k]),
            decreases p@.len() - j,
        {
            if s[at + j] != p[j] {
                same = false;
            }
            j = j + 1;
        }
        if same {
            assert(s@.subrange(at as int, at + p@.len()) =~= p@);
            return true;
        }
        proof {
            let k = choose|k: int| 0 <= k < p@.len() && s@[at + k] != p@[k];
            assert(s@.subrange(at as int, at + p@.len())[k] != p@[k]);
        }
        at = at + 1;
    }
    false
}

/// An event from the window manager tells of an urgent window.
pub open spec fn urgent_event_spec(msg_type: u32, payload: Seq<u8>) -> bool {
    msg_type >= EVENT_MASK && (contains_bytes_spec(payload, "\"urgent\":true"@.map_values(|c: char| c as u8))
        || contains_bytes_spec(payload, "\"change\":\"urgent\""@.map_values(|c: char| c as u8)))
}

fn ascii_bytes(s: &str) -> (r: Vec<u8>)
    ensures
        r@ == s@.map_values(|c: char| c as u8),
{
    let cs = chars_of(s);
    let mut out: Vec<u8> = Vec::new();
    for i in 0..cs.len()
        invariant
            out@ == cs@.subrange(0, i as int).map_values(|c: char| c as u8),
    {
        out.push(cs[i] as u8);
        assert(out@ =~= cs@.subrange(0, i as int + 1).map_values(|c: char| c as u8));
    }
    assert(cs@.subrange(0, cs@.len() as int) =~= cs@);
    out
}

proof fn lemma_le32_roundtrip(x: u32)
    ensures
        from_le32(le32(x), 0) == x,
{
    let b = le32(x);
    assert(b[0] as int == x % 256);
    assert(b[1] as int == (x / 256) % 256);
    assert(b[2] as int == (x / 65536) % 256);
    assert(b[3] as int == (x / 16777216) % 256);
    assert(x % 256 + ((x / 256) % 256) * 256 + ((x / 65536) % 256) * 65536 + ((x / 16777216) % 256) * 16777216 == x)
        by (nonlinear_arith)
        requires
            0 <= x <= 0xffff_ffff,
    ;
}

/// Law: the header of a framed message reads back as the message's type and length.
pub proof fn lemma_frame_then_parse(msg_type: u32, payload: Seq<u8>)
    requires
        payload.len() <= MAX_PAYLOAD,
    ensures
        parse_header_spec(frame_spec(msg_type, payload).subrange(0, 14)) == Ok::<(u32, usize), IpcError>(
            (msg_type, payload.len() as usize),
        ),
{
    let f = frame_spec(msg_type, payload);
    let h = f.subrange(0, 14);
    let len = payload.len() as u32;
    assert(h.subrange(0, 6) =~= magic_spec());
    assert(h.subrange(6, 10) =~= le32(len));
    assert(h.subrange(10, 14) =~= le32(msg_type));
    lemma_le32_roundtrip(len);
    lemma_le32_roundtrip(msg_type);
    assert(from_le32(h, 6) == from_le32(le32(len), 0));
    assert(from_le32(h, 10) == from_le32(le32(msg_type), 0));
}

/// Whether a message received after invoking an action reports an urgent window; see
/// `urgent_event_spec`.
pub fn is_urgent_event(msg_type: u32, payload: &[u8]) -> (r: bool)
    ensures
        r == urgent_event_spec(msg_type, payload@),
{
    if msg_type & EVENT_MASK == 0 {
        assert(msg_type < EVENT_MASK) by (bit_vector)
            requires
                msg_type & 0x8000_0000u32 == 0,
        ;
        return false;
    }
    assert(msg_type >= EVENT_MASK) by (bit_vector)
        requires
            msg_type & 0x8000_0000u32 != 0,
    ;
    let a = ascii_bytes("\"urgent\":true");
    let b = ascii_bytes("\"change\":\"urgent\"");
    contains_bytes(payload, a.as_slice()) || contains_bytes(payload, b.as_slice())
}

} // verus!
