//! Notifications, their markup-free text, and the status-bar summary line.
use vstd::prelude::*;
use crate::text::{
    chars_of, string_from_chars, trim_chars, replace_newlines, trim_spec, newlines_to_spaces,
    occurs_at, occurs_at_exec, decimal, u32_to_decimal, push_str_chars,
};

verus! {

/// Order in which the notifications of one view are listed.
#[derive(Clone, Copy, Debug, PartialEq, Eq, Structural)]
pub enum SortOrder {
    NewestToOldest,
    OldestToNewest,
}

impl Default for SortOrder {
    fn default() -> (r: Self)
        ensures
            r == SortOrder::NewestToOldest,
    {
        SortOrder::NewestToOldest
    }
}

#[derive(Debug, PartialEq)]
pub struct Notification {
    pub id: u32,
    pub app_name: String,
    pub app_icon: String,
    pub summary: String,
    pub body: String,
    pub actions: Vec<String>,
    pub urgency: u8,
    /// Creation time, nanoseconds since the Unix epoch.
    pub created_at: u64,
    /// Expiry time, nanoseconds since the Unix epoch.
    pub expires_at: Option<u64>,
    pub expires: bool,
    pub ignore_close: bool,
    pub transient: bool,
    pub resident: bool,
    pub action_icons: bool,
    pub category: Option<String>,
    pub sound_file: Option<String>,
    pub suppress_sound: bool,
    /// Grouping path the notification was filed under (kept across restarts).
    pub keys: Option<Vec<String>>,
    pub sort_order: SortOrder,
    pub group_sort_order: Option<SortOrder>,
}

/// Mathematical value of a notification: every text as a character sequence.
pub struct NotificationView {
    pub id: u32,
    pub app_name: Seq<char>,
    pub app_icon: Seq<char>,
    pub summary: Seq<char>,
    pub body: Seq<char>,
    pub actions: Seq<Seq<char>>,
    pub urgency: u8,
    pub created_at: u64,
    pub expires_at: Option<u64>,
    pub expires: bool,
    pub ignore_close: bool,
    pub transient: bool,
    pub resident: bool,
    pub action_icons: bool,
    pub category: Option<Seq<char>>,
    pub sound_file: Option<Seq<char>>,
    pub suppress_sound: bool,
    pub keys: Option<Seq<Seq<char>>>,
    pub sort_order: SortOrder,
    pub group_sort_order: Option<SortOrder>,
}

pub open spec fn opt_str_view(o: Option<String>) -> Option<Seq<char>> {
    match o {
        Some(s) => Some(s@),
        None => None,
    }
}

pub open spec fn opt_strs_view(o: Option<Vec<String>>) -> Option<Seq<Seq<char>>> {
    match o {
        Some(v) => Some(v.deep_view()),
        None => None,
    }
}

impl View for Notification {
    type V = NotificationView;

    open spec fn view(&self) -> NotificationView {
        NotificationView {
            id: self.id,
            app_name: self.app_name@,
            app_icon: self.app_icon@,
            summary: self.summary@,
            body: self.body@,
            actions: self.actions.deep_view(),
            urgency: self.urgency,
            created_at: self.created_at,
            expires_at: self.expires_at,
            expires: self.expires,
            ignore_close: self.ignore_close,
            transient: self.transient,
            resident: self.resident,
            action_icons: self.action_icons,
            category: opt_str_view(self.category),
            sound_file: opt_str_view(self.sound_file),
            suppress_sound: self.suppress_sound,
            keys: opt_strs_view(self.keys),
            sort_order: self.sort_order,
            group_sort_order: self.group_sort_order,
        }
    }
}

/// A copy of a list of strings.
pub fn clone_strings(v: &Vec<String>) -> (r: Vec<String>)
    ensures
        r@ == v@,
        r.deep_view() == v.deep_view(),
{
    let mut r: Vec<String> = Vec::new();
    for i in 0..v.len()
        invariant
            r@ == v@.subrange(0, i as int),
    {
        r.push(v[i].clone());
    }
    assert(r@ =~= v@);
    r
}

pub fn clone_opt_string(o: &Option<String>) -> (r: Option<String>)
    ensures
        r == *o,
{
    match o {
        Some(s) => Some(s.clone()),
        None => None,
    }
}

impl Clone for Notification {
    fn clone(&self) -> (r: Self)
        ensures
            r@ == self@,
    {
        let keys = match &self.keys {
            Some(k) => Some(clone_strings(k)),
            None => None,
        };
        Notification {
            id: self.id,
            app_name: self.app_name.clone(),
            app_icon: self.app_icon.clone(),
            summary: self.summary.clone(),
            body: self.body.clone(),
            actions: clone_strings(&self.actions),
            urgency: self.urgency,
            created_at: self.created_at,
            expires_at: self.expires_at,
            expires: self.expires,
            ignore_close: self.ignore_close,
            transient: self.transient,
            resident: self.resident,
            action_icons: self.action_icons,
            category: clone_opt_string(&self.category),
            sound_file: clone_opt_string(&self.sound_file),
            suppress_sound: self.suppress_sound,
            keys,
            sort_order: self.sort_order,
            group_sort_order: self.group_sort_order,
        }
    }
}

/// Expiry instant for a notification created at `created_at` with the client's timeout:
/// a positive timeout (milliseconds) gives `created_at` plus that many milliseconds,
/// saturating at `u64::MAX`; any other timeout gives none.
pub open spec fn expiry_for(created_at: u64, expire_timeout_ms: i32) -> Option<u64> {
    if expire_timeout_ms > 0 {
        let t = created_at + expire_timeout_ms * 1_000_000;
        Some(if t > u64::MAX { u64::MAX } else { t as u64 })
    } else {
        None
    }
}

/// Nanoseconds since the Unix epoch, from the system clock.
/// Calls `SystemTime::now` (std); a clock set before the epoch gives 0, as
/// `duration_since(..).unwrap_or_default()` does. Nothing is promised of the value.
#[verifier::external_body]
pub(crate) fn now_ns() -> u64 {
    std::time::SystemTime::now().duration_since(std::time::UNIX_EPOCH).unwrap_or_default().as_nanos() as u64
}

impl Notification {
    /// A fresh notification created at `created_at` (nanoseconds since the epoch).
    #[allow(clippy::too_many_arguments)]
    pub fn new_at(
        id: u32,
        app_name: String,
        app_icon: String,
        summary: String,
        body: String,
        actions: Vec<String>,
        urgency: u8,
        expire_timeout_ms: i32,
        created_at: u64,
    ) -> (n: Self)
        ensures
            n.id == id,
            n.app_name == app_name,
            n.app_icon == app_icon,
            n.summary == summary,
            n.body == body,
            n.actions == actions,
            n.urgency == urgency,
            n.created_at == created_at,
            n.expires_at == expiry_for(created_at, expire_timeout_ms),
            !n.expires && !n.ignore_close && !n.transient && !n.resident && !n.action_icons,
            n.category is None && n.sound_file is None && !n.suppress_sound,
            n.keys is None,
            n.sort_order == SortOrder::NewestToOldest,
            n.group_sort_order is None,
    {
        let expires_at = if expire_timeout_ms > 0 {
            Some(created_at.saturating_add((expire_timeout_ms as u64) * 1_000_000))
        } else {
            None
        };
        Notification {
            id,
            app_name,
            app_icon,
            summary,
            body,
            actions,
            urgency,
            created_at,
            expires_at,
            expires: false,
            ignore_close: false,
            transient: false,
            resident: false,
            action_icons: false,
            category: None,
            sound_file: None,
            suppress_sound: false,
            keys: None,
            sort_order: SortOrder::NewestToOldest,
            group_sort_order: None,
        }
    }

    /// A fresh notification stamped with the current time; see `new_at`.
    #[allow(clippy::too_many_arguments)]
    pub fn new(
        id: u32,
        app_name: String,
        app_icon: String,
        summary: String,
        body: String,
        actions: Vec<String>,
        urgency: u8,
        expire_timeout_ms: i32,
    ) -> (n: Self)
        ensures
            n.id == id,
            n.app_name == app_name,
            n.app_icon == app_icon,
            n.summary == summary,
            n.body == body,
            n.actions == actions,
            n.urgency == urgency,
            n.expires_at == expiry_for(n.created_at, expire_timeout_ms),
            !n.expires && !n.ignore_close && !n.transient && !n.resident && !n.action_icons,
            n.category is None && n.sound_file is None && !n.suppress_sound,
            n.keys is None,
            n.sort_order == SortOrder::NewestToOldest,
            n.group_sort_order is None,
    {
        let now = now_ns();
        Self::new_at(id, app_name, app_icon, summary, body, actions, urgency, expire_timeout_ms, now)
    }

    /// The clock time the notification was created, given the local hour and minute of
    /// `created_secs` when the system could tell them; see `clock_spec`.
    pub fn time_str(&self, local: Option<(u32, u32)>) -> (r: String)
        ensures
            r@ == clock_spec(self.created_at, local),
    {
        match local {
            Some((h, m)) => format_hh_mm(h, m),
            None => {
                let day = (self.created_at / 1_000_000_000) % 86400;
                let h = (day / 3600) as u32;
                let m = ((day % 3600) / 60) as u32;
                format_hh_mm(h, m)
            },
        }
    }

    /// Whole seconds since the epoch of the creation time.
    pub fn created_secs(&self) -> (s: i64)
        ensures
            s == self.created_at / 1_000_000_000,
    {
        (self.created_at / 1_000_000_000) as i64
    }

    /// Single line for status bars: `Summary : Body`, each cleaned of markup,
    /// line breaks and surrounding white space.
    pub fn single_line(&self) -> (r: String)
        ensures
            r@ == single_line_spec(self@),
    {
        let s = clean_line(self.summary.as_str());
        let b = clean_line(self.body.as_str());
        if s.len() == 0 && b.len() == 0 {
            self.app_name.clone()
        } else if b.len() == 0 {
            string_from_chars(&s)
        } else if s.len() == 0 {
            string_from_chars(&b)
        } else {
            let mut out = s;
            out.push(' ');
            out.push(':');
            out.push(' ');
            let mut i: usize = 0;
            let ghost base = out@;
            while i < b.len()
                invariant
                    i <= b@.len(),
                    out@ == base + b@.subrange(0, i as int),
                decreases b@.len() - i,
            {
                out.push(b[i]);
                i += 1;
            }
            assert(b@.subrange(0, b@.len() as int) =~= b@);
            assert(out@ =~= clean_line_spec(self@.summary) + seq![' ', ':', ' '] + clean_line_spec(
                self@.body,
            ));
            string_from_chars(&out)
        }
    }
}

/// A number printed with at least two digits (`{:02}`).
pub open spec fn pad2(n: nat) -> Seq<char> {
    if n < 10 {
        seq!['0'] + decimal(n)
    } else {
        decimal(n)
    }
}

/// `HH:MM`.
pub open spec fn hh_mm_spec(h: nat, m: nat) -> Seq<char> {
    pad2(h) + seq![':'] + pad2(m)
}

/// The clock time of a creation time: the local hour and minute when the system gave
/// them, else the UTC ones.
pub open spec fn clock_spec(created_at: u64, local: Option<(u32, u32)>) -> Seq<char> {
    match local {
        Some((h, m)) => hh_mm_spec(h as nat, m as nat),
        None => {
            let day = (created_at / 1_000_000_000) % 86400;
            hh_mm_spec((day / 3600) as nat, ((day % 3600) / 60) as nat)
        },
    }
}

/// `n` printed with at least two digits.
pub fn pad2_exec(n: u32) -> (r: Vec<char>)
    ensures
        r@ == pad2(n as nat),
{
    let mut out: Vec<char> = Vec::new();
    if n < 10 {
        out.push('0');
    }
    let d = u32_to_decimal(n);
    push_str_chars(&mut out, d.as_str());
    out
}

/// `HH:MM` of an hour and a minute.
pub fn format_hh_mm(h: u32, m: u32) -> (r: String)
    ensures
        r@ == hh_mm_spec(h as nat, m as nat),
{
    let mut out = pad2_exec(h);
    out.push(':');
    let mm = pad2_exec(m);
    let ghost base = out@;
    let mut mm2 = mm;
    out.append(&mut mm2);
    assert(out@ =~= hh_mm_spec(h as nat, m as nat));
    string_from_chars(&out)
}

/// Markup stripped, line breaks turned to spaces, surrounding white space trimmed.
pub open spec fn clean_line_spec(s: Seq<char>) -> Seq<char> {
    trim_spec(newlines_to_spaces(strip_markup_spec(s)))
}

/// The status-bar line of a notification: the app name when summary and body are both
/// empty once cleaned, else the non-empty one, else `summary : body`.
pub open spec fn single_line_spec(n: NotificationView) -> Seq<char> {
    let s = clean_line_spec(n.summary);
    let b = clean_line_spec(n.body);
    if s.len() == 0 && b.len() == 0 {
        n.app_name
    } else if b.len() == 0 {
        s
    } else if s.len() == 0 {
        b
    } else {
        s + seq![' ', ':', ' '] + b
    }
}

fn clean_line(s: &str) -> (r: Vec<char>)
    ensures
        r@ == clean_line_spec(s@),
{
    let v = chars_of(s);
    let stripped = strip_markup_chars(&v);
    let one = replace_newlines(&stripped);
    trim_chars(&one)
}

// ---------------------------------------------------------------------------
// Markup stripping
// ---------------------------------------------------------------------------

pub open spec fn is_ascii_alpha(c: char) -> bool {
    ('a' <= c && c <= 'z') || ('A' <= c && c <= 'Z')
}

/// First position at or after `j` holding `>`.
pub open spec fn find_gt(s: Seq<char>, j: int) -> Option<int>
    decreases s.len() - j,
{
    if j < 0 || j >= s.len() {
        None
    } else if s[j] == '>' {
        Some(j)
    } else {
        find_gt(s, j + 1)
    }
}

/// Where scanning resumes after a tag starting with the `<` at `i`:
/// a tag is `<`, an optional `/`, an ASCII letter, and everything up to the next `>`.
pub open spec fn tag_skip(s: Seq<char>, i: int) -> Option<int> {
    let n = s.len();
    let j0 = i + 1;
    let j = if j0 < n && s[j0] == '/' {
        j0 + 1
    } else {
        j0
    };
    if j < s.len() && is_ascii_alpha(s[j]) {
        match find_gt(s, j) {
            Some(k) => Some(k + 1),
            None => None,
        }
    } else {
        None
    }
}

/// Named and fixed numeric entities: the character and the entity's length.
pub open spec fn named_entity(s: Seq<char>, i: int) -> Option<(char, int)> {
    if occurs_at(s, seq!['&', 'q', 'u', 'o', 't', ';'], i) {
        Some(('"', 6))
    } else if occurs_at(s, seq!['&', 'a', 'p', 'o', 's', ';'], i) {
        Some(('\'', 6))
    } else if occurs_at(s, seq!['&', 'l', 't', ';'], i) {
        Some(('<', 4))
    } else if occurs_at(s, seq!['&', 'g', 't', ';'], i) {
        Some(('>', 4))
    } else if occurs_at(s, seq!['&', 'a', 'm', 'p', ';'], i) {
        Some(('&', 5))
    } else if occurs_at(s, seq!['&', 'n', 'b', 's', 'p', ';'], i) {
        Some((' ', 6))
    } else if occurs_at(s, seq!['&', 'h', 'e', 'l', 'l', 'i', 'p', ';'], i) {
        Some(('\u{2026}', 8))
    } else if occurs_at(s, seq!['&', 'n', 'd', 'a', 's', 'h', ';'], i) {
        Some(('\u{2013}', 7))
    } else if occurs_at(s, seq!['&', 'm', 'd', 'a', 's', 'h', ';'], i) {
        Some(('\u{2014}', 7))
    } else if occurs_at(s, seq!['&', 'b', 'u', 'l', 'l', ';'], i) {
        Some(('\u{2022}', 6))
    } else if occurs_at(s, seq!['&', 'c', 'o', 'p', 'y', ';'], i) {
        Some(('\u{a9}', 6))
    } else if occurs_at(s, seq!['&', 't', 'r', 'a', 'd', 'e', ';'], i) {
        Some(('\u{2122}', 7))
    } else if occurs_at(s, seq!['&', 'r', 'e', 'g', ';'], i) {
        Some(('\u{ae}', 5))
    } else if occurs_at(s, seq!['&', '#', '3', '9', ';'], i) {
        Some(('\'', 5))
    } else if occurs_at(s, seq!['&', '#', '3', '4', ';'], i) {
        Some(('"', 5))
    } else if occurs_at(s, seq!['&', '#', 'x', '2', '7', ';'], i) || occurs_at(
        s,
        seq!['&', '#', 'X', '2', '7', ';'],
        i,
    ) {
        Some(('\'', 6))
    } else {
        None
    }
}

/// Offset (from `i`) where the digits of a numeric entity stop: the first `;`,
/// the end of the text, or offset 10, whichever comes first.
pub open spec fn num_end(s: Seq<char>, i: int, e: int) -> int
    decreases 10 - e,
{
    if e >= 10 || i + e >= s.len() || s[i + e] == ';' {
        e
    } else {
        num_end(s, i, e + 1)
    }
}

/// Value of a digit in base 10 or 16.
pub open spec fn digit_value(c: char, radix: nat) -> Option<nat> {
    if '0' <= c && c <= '9' {
        Some((c as nat - '0' as nat) as nat)
    } else if radix == 16 && 'a' <= c && c <= 'f' {
        Some((c as nat - 'a' as nat + 10) as nat)
    } else if radix == 16 && 'A' <= c && c <= 'F' {
        Some((c as nat - 'A' as nat + 10) as nat)
    } else {
        None
    }
}

pub open spec fn digits_value(d: Seq<char>, radix: nat) -> Option<nat>
    decreases d.len(),
{
    if d.len() == 0 {
        Some(0)
    } else {
        match (digits_value(d.drop_last(), radix), digit_value(d.last(), radix)) {
            (Some(v), Some(x)) => Some(v * radix + x),
            _ => None,
        }
    }
}

/// What `u32::from_str_radix` accepts: an optional `+`, then at least one digit,
/// with a value that fits in a `u32`.
pub open spec fn parse_u32_radix(t: Seq<char>, radix: nat) -> Option<nat> {
    if t.len() == 0 || (t.len() == 1 && (t[0] == '+' || t[0] == '-')) {
        None
    } else {
        let d = if t[0] == '+' {
            t.drop_first()
        } else {
            t
        };
        match digits_value(d, radix) {
            Some(v) => if v <= u32::MAX {
                Some(v)
            } else {
                None
            },
            None => None,
        }
    }
}

/// Whether `v` is a Unicode scalar value (a valid `char`).
pub open spec fn is_scalar(v: nat) -> bool {
    v < 0x110000 && !(0xD800 <= v && v <= 0xDFFF)
}

/// Value of the number in a numeric entity body: `x`/`X` then hexadecimal, else decimal.
pub open spec fn entity_number(t: Seq<char>) -> Option<nat> {
    if t.len() > 0 && (t[0] == 'x' || t[0] == 'X') {
        parse_u32_radix(t.drop_first(), 16)
    } else {
        parse_u32_radix(t, 10)
    }
}

/// A generic numeric entity `&#...;` at `i`: its character and length.
pub open spec fn numeric_entity(s: Seq<char>, i: int) -> Option<(char, int)> {
    if occurs_at(s, seq!['&', '#'], i) {
        let e = num_end(s, i, 2);
        if i + e < s.len() && s[i + e] == ';' {
            match entity_number(s.subrange(i + 2, i + e)) {
                Some(v) => if is_scalar(v) {
                    Some(((v as u32) as char, e + 1))
                } else {
                    None
                },
                None => None,
            }
        } else {
            None
        }
    } else {
        None
    }
}

/// One scanning step at `i`: the characters produced and where scanning resumes.
pub open spec fn strip_step(s: Seq<char>, i: int) -> (Seq<char>, int) {
    if s[i] == '<' {
        match tag_skip(s, i) {
            Some(k) => (Seq::empty(), k),
            None => (seq!['<'], i + 1),
        }
    } else if s[i] == '&' {
        match named_entity(s, i) {
            Some((c, n)) => (seq![c], i + n),
            None => match numeric_entity(s, i) {
                Some((c, n)) => (seq![c], i + n),
                None => (seq!['&'], i + 1),
            },
        }
    } else {
        (seq![s[i]], i + 1)
    }
}

pub proof fn lemma_find_gt(s: Seq<char>, j: int)
    ensures
        find_gt(s, j) matches Some(k) ==> j <= k < s.len() && s[k] == '>',
        find_gt(s, j) is None ==> forall|k: int| 0 <= j <= k < s.len() ==> s[k] != '>',
    decreases s.len() - j,
{
    if j >= 0 && j < s.len() && s[j] != '>' {
        lemma_find_gt(s, j + 1);
    }
}

pub proof fn lemma_num_end(s: Seq<char>, i: int, e: int)
    requires
        e <= 10,
    ensures
        e <= num_end(s, i, e) <= 10,
    decreases 10 - e,
{
    if !(e >= 10 || i + e >= s.len() || s[i + e] == ';') {
        lemma_num_end(s, i, e + 1);
    }
}

pub proof fn lemma_step_advances(s: Seq<char>, i: int)
    requires
        0 <= i < s.len(),
    ensures
        i < strip_step(s, i).1 <= s.len(),
{
    if s[i] == '<' {
        let j0 = i + 1;
        let j = if j0 < s.len() && s[j0] == '/' {
            j0 + 1
        } else {
            j0
        };
        lemma_find_gt(s, j);
    } else if s[i] == '&' {
        lemma_num_end(s, i, 2);
    }
}

/// Markup removed from `s` starting at position `i`.
pub open spec fn strip_from(s: Seq<char>, i: int) -> Seq<char>
    decreases s.len() - i,
{
    if i < 0 || i >= s.len() {
        Seq::empty()
    } else {
        let (out, next) = strip_step(s, i);
        if next <= i || next > s.len() {
            Seq::empty()
        } else {
            out + strip_from(s, next)
        }
    }
}

/// Text with markup tags removed and entities decoded in a single pass.
pub open spec fn strip_markup_spec(s: Seq<char>) -> Seq<char> {
    strip_from(s, 0)
}

/// Law: text with no `<` and no `&` has no markup; it is left as it is.
pub proof fn lemma_strip_plain(s: Seq<char>)
    requires
        !s.contains('<'),
        !s.contains('&'),
    ensures
        strip_markup_spec(s) == s,
{
    lemma_strip_plain_from(s, 0);
    assert(s.subrange(0, s.len() as int) =~= s);
}

proof fn lemma_strip_plain_from(s: Seq<char>, i: int)
    requires
        0 <= i <= s.len(),
        forall|j: int| 0 <= j < s.len() ==> s[j] != '<' && s[j] != '&',
    ensures
        strip_from(s, i) == s.subrange(i, s.len() as int),
    decreases s.len() - i,
{
    if i < s.len() {
        lemma_strip_plain_from(s, i + 1);
        assert(seq![s[i]] + s.subrange(i + 1, s.len() as int) =~= s.subrange(i, s.len() as int));
    } else {
        assert(s.subrange(i, s.len() as int) =~= Seq::<char>::empty());
    }
}

/// Plain text up to `n` is copied as it is, then scanning goes on at `n`.
proof fn lemma_strip_plain_prefix(u: Seq<char>, n: int, i: int)
    requires
        0 <= i <= n <= u.len(),
        forall|j: int| 0 <= j < n ==> u[j] != '<' && u[j] != '&',
    ensures
        strip_from(u, i) == u.subrange(i, n) + strip_from(u, n),
    decreases n - i,
{
    if i < n {
        lemma_strip_plain_prefix(u, n, i + 1);
        assert(u.subrange(i, n) =~= seq![u[i]] + u.subrange(i + 1, n));
    } else {
        assert(u.subrange(i, n) =~= Seq::<char>::empty());
    }
}

proof fn lemma_entity_lt(s: Seq<char>)
    ensures
        strip_from(s + seq!['&', 'l', 't', ';'], s.len() as int) == seq!['<'],
{
    let u = s + seq!['&', 'l', 't', ';'];
    let n = s.len() as int;
    assert(u[n] == '&' && u[n + 1] == 'l');
    assert(u.subrange(n, n + 4) =~= seq!['&', 'l', 't', ';']);
    assert(strip_from(u, n + 4) == Seq::<char>::empty());
}

proof fn lemma_entity_gt(s: Seq<char>)
    ensures
        strip_from(s + seq!['&', 'g', 't', ';'], s.len() as int) == seq!['>'],
{
    let u = s + seq!['&', 'g', 't', ';'];
    let n = s.len() as int;
    assert(u[n] == '&' && u[n + 1] == 'g');
    assert(u.subrange(n, n + 4) =~= seq!['&', 'g', 't', ';']);
    assert(strip_from(u, n + 4) == Seq::<char>::empty());
}

proof fn lemma_entity_amp(s: Seq<char>)
    ensures
        strip_from(s + seq!['&', 'a', 'm', 'p', ';'], s.len() as int) == seq!['&'],
{
    let u = s + seq!['&', 'a', 'm', 'p', ';'];
    let n = s.len() as int;
    assert(u[n] == '&' && u[n + 1] == 'a');
    assert(u.subrange(n, n + 5) =~= seq!['&', 'a', 'm', 'p', ';']);
    assert(strip_from(u, n + 5) == Seq::<char>::empty());
}

proof fn lemma_entity_quot(s: Seq<char>)
    ensures
        strip_from(s + seq!['&', 'q', 'u', 'o', 't', ';'], s.len() as int) == seq!['"'],
{
    let u = s + seq!['&', 'q', 'u', 'o', 't', ';'];
    let n = s.len() as int;
    assert(u[n] == '&' && u[n + 1] == 'q');
    assert(u.subrange(n, n + 6) =~= seq!['&', 'q', 'u', 'o', 't', ';']);
    assert(strip_from(u, n + 6) == Seq::<char>::empty());
}

/// Text with no markup, then `e`: the text as it is, then what scanning `e` gives.
proof fn lemma_plain_then(s: Seq<char>, e: Seq<char>)
    requires
        !s.contains('<'),
        !s.contains('&'),
    ensures
        strip_markup_spec(s + e) == s + strip_from(s + e, s.len() as int),
{
    let n = s.len() as int;
    let u = s + e;
    assert forall|j: int| 0 <= j < n implies u[j] != '<' && u[j] != '&' by {
        assert(u[j] == s[j]);
        if s[j] == '<' || s[j] == '&' {
            assert(s.contains(s[j]));
        }
    }
    lemma_strip_plain_prefix(u, n, 0);
    assert(u.subrange(0, n) =~= s);
}

proof fn lemma_ends_with_lt(s: Seq<char>)
    requires
        !s.contains('<'),
        !s.contains('&'),
    ensures
        strip_markup_spec(s + seq!['&', 'l', 't', ';']) == s.push('<'),
{
    lemma_plain_then(s, seq!['&', 'l', 't', ';']);
    lemma_entity_lt(s);
    assert(s + seq!['<'] =~= s.push('<'));
}

proof fn lemma_ends_with_gt(s: Seq<char>)
    requires
        !s.contains('<'),
        !s.contains('&'),
    ensures
        strip_markup_spec(s + seq!['&', 'g', 't', ';']) == s.push('>'),
{
    lemma_plain_then(s, seq!['&', 'g', 't', ';']);
    lemma_entity_gt(s);
    assert(s + seq!['>'] =~= s.push('>'));
}

proof fn lemma_ends_with_amp(s: Seq<char>)
    requires
        !s.contains('<'),
        !s.contains('&'),
    ensures
        strip_markup_spec(s + seq!['&', 'a', 'm', 'p', ';']) == s.push('&'),
{
    lemma_plain_then(s, seq!['&', 'a', 'm', 'p', ';']);
    lemma_entity_amp(s);
    assert(s + seq!['&'] =~= s.push('&'));
}

proof fn lemma_ends_with_quot(s: Seq<char>)
    requires
        !s.contains('<'),
        !s.contains('&'),
    ensures
        strip_markup_spec(s + seq!['&', 'q', 'u', 'o', 't', ';']) == s.push('"'),
{
    lemma_plain_then(s, seq!['&', 'q', 'u', 'o', 't', ';']);
    lemma_entity_quot(s);
    assert(s + seq!['"'] =~= s.push('"'));
}

/// Law: the entities `&lt;`, `&gt;`, `&amp;` and `&quot;` decode to `<`, `>`, `&` and
/// `"`: after text with no markup, each one at the end becomes its character.
pub proof fn lemma_strip_decodes_entities(s: Seq<char>)
    requires
        !s.contains('<'),
        !s.contains('&'),
    ensures
        strip_markup_spec(s + seq!['&', 'l', 't', ';']) == s.push('<'),
        strip_markup_spec(s + seq!['&', 'g', 't', ';']) == s.push('>'),
        strip_markup_spec(s + seq!['&', 'a', 'm', 'p', ';']) == s.push('&'),
        strip_markup_spec(s + seq!['&', 'q', 'u', 'o', 't', ';']) == s.push('"'),
{
    lemma_ends_with_lt(s);
    lemma_ends_with_gt(s);
    lemma_ends_with_amp(s);
    lemma_ends_with_quot(s);
}

fn is_ascii_alpha_exec(c: char) -> (b: bool)
    ensures
        b == is_ascii_alpha(c),
{
    ('a' <= c && c <= 'z') || ('A' <= c && c <= 'Z')
}

fn tag_skip_exec(s: &[char], i: usize) -> (r: Option<usize>)
    requires
        i < s@.len(),
    ensures
        r matches Some(k) ==> tag_skip(s@, i as int) == Some(k as int),
        r is None ==> tag_skip(s@, i as int) is None,
{
    let n = s.len();
    let j0 = i + 1;
    let j = if j0 < n && s[j0] == '/' {
        j0 + 1
    } else {
        j0
    };
    if j < s.len() && is_ascii_alpha_exec(s[j]) {
        let mut k = j;
        while k < s.len() && s[k] != '>'
            invariant
                j <= k <= s@.len(),
                find_gt(s@, j as int) == find_gt(s@, k as int),
            decreases s@.len() - k,
        {
            k += 1;
        }
        if k < s.len() {
            Some(k + 1)
        } else {
            None
        }
    } else {
        None
    }
}

fn named_entity_exec(s: &[char], i: usize) -> (r: Option<(char, usize)>)
    ensures
        r matches Some((c, n)) ==> named_entity(s@, i as int) == Some((c, n as int)),
        r is None ==> named_entity(s@, i as int) is None,
{
    let p1: [char; 6] = ['&', 'q', 'u', 'o', 't', ';'];
    let p2: [char; 6] = ['&', 'a', 'p', 'o', 's', ';'];
    let p3: [char; 4] = ['&', 'l', 't', ';'];
    let p4: [char; 4] = ['&', 'g', 't', ';'];
    let p5: [char; 5] = ['&', 'a', 'm', 'p', ';'];
    let p6: [char; 6] = ['&', 'n', 'b', 's', 'p', ';'];
    let p7: [char; 8] = ['&', 'h', 'e', 'l', 'l', 'i', 'p', ';'];
    let p8: [char; 7] = ['&', 'n', 'd', 'a', 's', 'h', ';'];
    let p9: [char; 7] = ['&', 'm', 'd', 'a', 's', 'h', ';'];
    let p10: [char; 6] = ['&', 'b', 'u', 'l', 'l', ';'];
    let p11: [char; 6] = ['&', 'c', 'o', 'p', 'y', ';'];
    let p12: [char; 7] = ['&', 't', 'r', 'a', 'd', 'e', ';'];
    let p13: [char; 5] = ['&', 'r', 'e', 'g', ';'];
    let p14: [char; 5] = ['&', '#', '3', '9', ';'];
    let p15: [char; 5] = ['&', '#', '3', '4', ';'];
    let p16: [char; 6] = ['&', '#', 'x', '2', '7', ';'];
    let p17: [char; 6] = ['&', '#', 'X', '2', '7', ';'];
    assert(p1@ =~= seq!['&', 'q', 'u', 'o', 't', ';']);
    assert(p2@ =~= seq!['&', 'a', 'p', 'o', 's', ';']);
    assert(p3@ =~= seq!['&', 'l', 't', ';']);
    assert(p4@ =~= seq!['&', 'g', 't', ';']);
    assert(p5@ =~= seq!['&', 'a', 'm', 'p', ';']);
    assert(p6@ =~= seq!['&', 'n', 'b', 's', 'p', ';']);
    assert(p7@ =~= seq!['&', 'h', 'e', 'l', 'l', 'i', 'p', ';']);
    assert(p8@ =~= seq!['&', 'n', 'd', 'a', 's', 'h', ';']);
    assert(p9@ =~= seq!['&', 'm', 'd', 'a', 's', 'h', ';']);
    assert(p10@ =~= seq!['&', 'b', 'u', 'l', 'l', ';']);
    assert(p11@ =~= seq!['&', 'c', 'o', 'p', 'y', ';']);
    assert(p12@ =~= seq!['&', 't', 'r', 'a', 'd', 'e', ';']);
    assert(p13@ =~= seq!['&', 'r', 'e', 'g', ';']);
    assert(p14@ =~= seq!['&', '#', '3', '9', ';']);
    assert(p15@ =~= seq!['&', '#', '3', '4', ';']);
    assert(p16@ =~= seq!['&', '#', 'x', '2', '7', ';']);
    assert(p17@ =~= seq!['&', '#', 'X', '2', '7', ';']);
    if occurs_at_exec(s, &p1, i) {
        Some(('"', 6))
    } else if occurs_at_exec(s, &p2, i) {
        Some(('\'', 6))
    } else if occurs_at_exec(s, &p3, i) {
        Some(('<', 4))
    } else if occurs_at_exec(s, &p4, i) {
        Some(('>', 4))
    } else if occurs_at_exec(s, &p5, i) {
        Some(('&', 5))
    } else if occurs_at_exec(s, &p6, i) {
        Some((' ', 6))
    } else if occurs_at_exec(s, &p7, i) {
        Some(('\u{2026}', 8))
    } else if occurs_at_exec(s, &p8, i) {
        Some(('\u{2013}', 7))
    } else if occurs_at_exec(s, &p9, i) {
        Some(('\u{2014}', 7))
    } else if occurs_at_exec(s, &p10, i) {
        Some(('\u{2022}', 6))
    } else if occurs_at_exec(s, &p11, i) {
        Some(('\u{a9}', 6))
    } else if occurs_at_exec(s, &p12, i) {
        Some(('\u{2122}', 7))
    } else if occurs_at_exec(s, &p13, i) {
        Some(('\u{ae}', 5))
    } else if occurs_at_exec(s, &p14, i) {
        Some(('\'', 5))
    } else if occurs_at_exec(s, &p15, i) {
        Some(('"', 5))
    } else if occurs_at_exec(s, &p16, i) || occurs_at_exec(s, &p17, i) {
        Some(('\'', 6))
    } else {
        None
    }
}

fn digit_value_exec(c: char, radix: u32) -> (r: Option<u32>)
    requires
        radix == 10 || radix == 16,
    ensures
        r matches Some(x) ==> digit_value(c, radix as nat) == Some(x as nat) && x < radix,
        r is None ==> digit_value(c, radix as nat) is None,
{
    if '0' <= c && c <= '9' {
        Some((c as u32) - ('0' as u32))
    } else if radix == 16 && 'a' <= c && c <= 'f' {
        Some((c as u32) - ('a' as u32) + 10)
    } else if radix == 16 && 'A' <= c && c <= 'F' {
        Some((c as u32) - ('A' as u32) + 10)
    } else {
        None
    }
}

pub proof fn lemma_digits_value_prefix(d: Seq<char>, radix: nat, k: int)
    requires
        radix >= 1,
        0 <= k <= d.len(),
        digits_value(d, radix) is Some,
    ensures
        digits_value(d.subrange(0, k), radix) is Some,
        digits_value(d.subrange(0, k), radix).unwrap() <= digits_value(d, radix).unwrap(),
    decreases d.len(),
{
    if k == d.len() {
        assert(d.subrange(0, k) =~= d);
    } else {
        lemma_digits_value_prefix(d.drop_last(), radix, k);
        assert(d.drop_last().subrange(0, k) =~= d.subrange(0, k));
        let v = digits_value(d.drop_last(), radix).unwrap();
        let x = digit_value(d.last(), radix).unwrap();
        assert(v <= v * radix + x) by (nonlinear_arith)
            requires
                radix >= 1,
        ;
    }
}

/// The value of the digits `d` when it fits in a `u32`.
pub open spec fn bounded_digits_value(d: Seq<char>, radix: nat) -> Option<nat> {
    match digits_value(d, radix) {
        Some(v) => if v <= u32::MAX {
            Some(v)
        } else {
            None
        },
        None => None,
    }
}

proof fn lemma_digits_step(d: Seq<char>, radix: nat, k: int)
    requires
        0 <= k < d.len(),
    ensures
        digits_value(d.subrange(0, k + 1), radix) == (match (
            digits_value(d.subrange(0, k), radix),
            digit_value(d[k], radix),
        ) {
            (Some(v), Some(x)) => Some(v * radix + x),
            _ => None,
        }),
{
    assert(d.subrange(0, k + 1).drop_last() =~= d.subrange(0, k));
}

fn parse_digits(d: &[char], radix: u32) -> (r: Option<u32>)
    requires
        radix == 10 || radix == 16,
    ensures
        r matches Some(v) ==> bounded_digits_value(d@, radix as nat) == Some(v as nat),
        r is None ==> bounded_digits_value(d@, radix as nat) is None,
{
    let mut acc: u64 = 0;
    let mut i: usize = 0;
    while i < d.len()
        invariant
            i <= d@.len(),
            radix == 10 || radix == 16,
            digits_value(d@.subrange(0, i as int), radix as nat) == Some(acc as nat),
            acc <= u32::MAX,
        decreases d@.len() - i,
    {
        proof {
            lemma_digits_step(d@, radix as nat, i as int);
        }
        match digit_value_exec(d[i], radix) {
            Some(x) => {
                assert(acc * (radix as u64) + (x as u64) <= u64::MAX) by (nonlinear_arith)
                    requires
                        acc <= u32::MAX,
                        radix <= 16,
                        x < radix,
                ;
                let next = acc * (radix as u64) + (x as u64);
                if next > 4294967295 {
                    proof {
                        if digits_value(d@, radix as nat) is Some {
                            lemma_digits_value_prefix(d@, radix as nat, i + 1);
                        }
                    }
                    return None;
                }
                acc = next;
            },
            None => {
                proof {
                    if digits_value(d@, radix as nat) is Some {
                        lemma_digits_value_prefix(d@, radix as nat, i + 1);
                    }
                }
                return None;
            },
        }
        i += 1;
    }
    assert(d@.subrange(0, d@.len() as int) =~= d@);
    Some(acc as u32)
}

/// `u32::from_str_radix` on the characters `t` (base 10 or 16).
fn parse_u32_radix_exec(t: &[char], radix: u32) -> (r: Option<u32>)
    requires
        radix == 10 || radix == 16,
    ensures
        r matches Some(v) ==> parse_u32_radix(t@, radix as nat) == Some(v as nat),
        r is None ==> parse_u32_radix(t@, radix as nat) is None,
{
    if t.len() == 0 || (t.len() == 1 && (t[0] == '+' || t[0] == '-')) {
        return None;
    }
    if t[0] == '+' {
        let d: &[char] = &t[1..t.len()];
        assert(d@ =~= t@.drop_first());
        parse_digits(d, radix)
    } else {
        parse_digits(t, radix)
    }
}

/// The `char` with scalar value `v`, if there is one.
/// Calls `char::from_u32` (std), which the documentation says returns `None` exactly when
/// `v` is not a valid `char` (a surrogate or above `0x10FFFF`).
#[verifier::external_body]
pub(crate) fn char_from_u32(v: u32) -> (r: Option<char>)
    ensures
        r == (if is_scalar(v as nat) {
            Some(v as char)
        } else {
            None
        }),
{
    char::from_u32(v)
}

fn numeric_entity_exec(s: &[char], i: usize) -> (r: Option<(char, usize)>)
    requires
        i < s@.len(),
    ensures
        r matches Some((c, n)) ==> numeric_entity(s@, i as int) == Some((c, n as int)),
        r is None ==> numeric_entity(s@, i as int) is None,
{
    let p: [char; 2] = ['&', '#'];
    assert(p@ =~= seq!['&', '#']);
    if !occurs_at_exec(s, &p, i) {
        return None;
    }
    let n = s.len();
    let mut e: usize = 2;
    while e < 10 && e < n - i && s[i + e] != ';'
        invariant
            2 <= e <= 10,
            i + 2 <= n,
            n == s@.len(),
            num_end(s@, i as int, 2) == num_end(s@, i as int, e as int),
        decreases 10 - e,
    {
        e += 1;
    }
    if !(e < n - i && s[i + e] == ';') {
        return None;
    }
    let t: &[char] = &s[i + 2..i + e];
    proof {
        assert(t@ == s@.subrange(i + 2, i + e as int));
    }
    let num = if t.len() > 0 && (t[0] == 'x' || t[0] == 'X') {
        let h: &[char] = &t[1..t.len()];
        assert(h@ =~= t@.drop_first());
        parse_u32_radix_exec(h, 16)
    } else {
        parse_u32_radix_exec(t, 10)
    };
    match num {
        Some(v) => match char_from_u32(v) {
            Some(c) => Some((c, e + 1)),
            None => None,
        },
        None => None,
    }
}

/// Markup removal on characters; see `strip_markup_spec`.
pub fn strip_markup_chars(s: &[char]) -> (r: Vec<char>)
    ensures
        r@ == strip_markup_spec(s@),
{
    let mut out: Vec<char> = Vec::new();
    let mut i: usize = 0;
    while i < s.len()
        invariant
            i <= s@.len(),
            strip_from(s@, 0) == out@ + strip_from(s@, i as int),
        decreases s@.len() - i,
    {
        proof {
            lemma_step_advances(s@, i as int);
        }
        let ghost step = strip_step(s@, i as int);
        let ghost before = out@;
        let c = s[i];
        let next: usize;
        if c == '<' {
            match tag_skip_exec(s, i) {
                Some(k) => {
                    next = k;
                },
                None => {
                    out.push('<');
                    next = i + 1;
                },
            }
        } else if c == '&' {
            match named_entity_exec(s, i) {
                Some((ch, n)) => {
                    out.push(ch);
                    next = i + n;
                },
                None => match numeric_entity_exec(s, i) {
                    Some((ch, n)) => {
                        out.push(ch);
                        next = i + n;
                    },
                    None => {
                        out.push('&');
                        next = i + 1;
                    },
                },
            }
        } else {
            out.push(c);
            next = i + 1;
        }
        assert(next as int == step.1);
        assert(out@ =~= before + step.0);
        assert(strip_from(s@, i as int) == step.0 + strip_from(s@, step.1));
        assert(out@ + strip_from(s@, next as int) =~= before + strip_from(s@, i as int));
        i = next;
    }
    proof {
        r_eq_out(s@, out@);
    }
    out
}

proof fn r_eq_out(s: Seq<char>, out: Seq<char>)
    requires
        strip_from(s, 0) == out + strip_from(s, s.len() as int),
    ensures
        out == strip_markup_spec(s),
{
    assert(out + Seq::<char>::empty() =~= out);
}

/// HTML/Pango markup tag stripper and single-pass XML entity decoder.
pub fn strip_markup(input: &str) -> (r: String)
    ensures
        r@ == strip_markup_spec(input@),
{
    let v = chars_of(input);
    let out = strip_markup_chars(&v);
    string_from_chars(&out)
}

} // verus!
