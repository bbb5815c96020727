//! Behaviour settings and the declarative rules that rename, regroup and restyle
//! notifications.
use vstd::prelude::*;
use crate::data::notification::{Notification, NotificationView, SortOrder, expiry_for};
use crate::data::cluster::strs_view;
use crate::text::{
    chars_of, string_from_chars, trim_chars, trim_spec, is_prefix, starts_with, slice_chars,
    lines_of, lines_spec, join_lines_from, join_lines_spec, chars_eq,
};

verus! {

// ---------------------------------------------------------------------------
// Regular expressions (the `regex` crate)
// ---------------------------------------------------------------------------

#[verifier::external_type_specification]
#[verifier::external_body]
pub struct ExRegex(regex::Regex);

/// Whether `regex::Regex::new` accepts `pattern`.
pub uninterp spec fn regex_compiles(pattern: Seq<char>) -> bool;

/// Whether the regular expression `pattern` matches somewhere in `text`
/// (`regex::Regex::is_match`).
pub uninterp spec fn regex_accepts(pattern: Seq<char>, text: Seq<char>) -> bool;

/// A compiled regular expression together with its source pattern.
pub struct CompiledRegex {
    re: regex::Regex,
    pattern: String,
}

impl View for CompiledRegex {
    type V = Seq<char>;

    closed spec fn view(&self) -> Seq<char> {
        self.pattern@
    }
}

/// Compiles `pattern` with `regex::Regex::new`; `None` when the crate rejects it.
/// Claims: the result is present exactly when the pattern compiles, and it carries
/// that pattern.
#[verifier::external_body]
pub(crate) fn compile_regex(pattern: &str) -> (r: Option<CompiledRegex>)
    ensures
        r is Some <==> regex_compiles(pattern@),
        r matches Some(c) ==> c@ == pattern@,
{
    match regex::Regex::new(pattern) {
        Ok(re) => Some(CompiledRegex { re, pattern: pattern.to_string() }),
        Err(_) => None,
    }
}

/// `regex::Regex::is_match` of the compiled expression on `text`.
#[verifier::external_body]
pub(crate) fn regex_is_match(re: &CompiledRegex, text: &str) -> (b: bool)
    ensures
        b == regex_accepts(re@, text@),
{
    re.re.is_match(text)
}

// ---------------------------------------------------------------------------
// Settings
// ---------------------------------------------------------------------------

pub struct BehaviorConfig {
    pub focus_on_action: bool,
    pub urgent_timeout_ms: u64,
    pub default_expire_timeout_ms: u64,
    pub max_notifications: usize,
    pub default_expires: bool,
    pub sort_order: SortOrder,
    pub group_sort_order: SortOrder,
}

impl Default for BehaviorConfig {
    fn default() -> (r: Self)
        ensures
            r.focus_on_action,
            r.urgent_timeout_ms == 2500,
            r.default_expire_timeout_ms == 5000,
            r.max_notifications == 500,
            !r.default_expires,
            r.sort_order == SortOrder::NewestToOldest,
            r.group_sort_order == SortOrder::NewestToOldest,
    {
        BehaviorConfig {
            focus_on_action: true,
            urgent_timeout_ms: 2500,
            default_expire_timeout_ms: 5000,
            max_notifications: 500,
            default_expires: false,
            sort_order: SortOrder::NewestToOldest,
            group_sort_order: SortOrder::NewestToOldest,
        }
    }
}

impl Clone for BehaviorConfig {
    fn clone(&self) -> (r: Self)
        ensures
            r == *self,
    {
        BehaviorConfig {
            focus_on_action: self.focus_on_action,
            urgent_timeout_ms: self.urgent_timeout_ms,
            default_expire_timeout_ms: self.default_expire_timeout_ms,
            max_notifications: self.max_notifications,
            default_expires: self.default_expires,
            sort_order: self.sort_order,
            group_sort_order: self.group_sort_order,
        }
    }
}

/// A rule: conditions on a notification, and changes made to a matching one.
pub struct RuleConfig {
    pub name: Option<String>,
    pub app_name: Option<String>,
    pub body_prefix: Option<String>,
    pub summary_regex: Option<String>,
    pub body_regex: Option<String>,
    pub compiled_summary_regex: Option<CompiledRegex>,
    pub compiled_body_regex: Option<CompiledRegex>,
    pub set_app_name: Option<String>,
    pub set_app_name_from_summary: Option<bool>,
    pub set_app_name_from_body_line: Option<usize>,
    pub strip_body_lines: Option<usize>,
    pub strip_body_prefix: Option<String>,
    pub set_app_icon: Option<String>,
    pub set_urgency: Option<u8>,
    pub set_expires: Option<bool>,
    pub expire_timeout_ms: Option<i32>,
    pub ignore_close: Option<bool>,
    pub group_by: Option<Vec<String>>,
    pub sort: Option<SortOrder>,
    pub group_sort: Option<SortOrder>,
}

impl Default for RuleConfig {
    fn default() -> (r: Self)
        ensures
            r.name is None && r.app_name is None && r.body_prefix is None,
            r.summary_regex is None && r.body_regex is None,
            r.compiled_summary_regex is None && r.compiled_body_regex is None,
            r.set_app_name is None && r.set_app_name_from_summary is None,
            r.set_app_name_from_body_line is None && r.strip_body_lines is None,
            r.strip_body_prefix is None && r.set_app_icon is None && r.set_urgency is None,
            r.set_expires is None && r.expire_timeout_ms is None && r.ignore_close is None,
            r.group_by is None && r.sort is None && r.group_sort is None,
    {
        RuleConfig {
            name: None,
            app_name: None,
            body_prefix: None,
            summary_regex: None,
            body_regex: None,
            compiled_summary_regex: None,
            compiled_body_regex: None,
            set_app_name: None,
            set_app_name_from_summary: None,
            set_app_name_from_body_line: None,
            strip_body_lines: None,
            strip_body_prefix: None,
            set_app_icon: None,
            set_urgency: None,
            set_expires: None,
            expire_timeout_ms: None,
            ignore_close: None,
            group_by: None,
            sort: None,
            group_sort: None,
        }
    }
}

/// Settings that decide how notifications are filed (the display settings are kept by
/// the renderer).
pub struct Config {
    pub behavior: BehaviorConfig,
    pub rules: Vec<RuleConfig>,
}

// ---------------------------------------------------------------------------
// What a rule does
// ---------------------------------------------------------------------------

/// The regular-expression condition on `text`: a compiled expression decides; else a
/// pattern that compiles decides; else the condition holds.
pub open spec fn regex_condition(
    compiled: Option<CompiledRegex>,
    pattern: Option<String>,
    text: Seq<char>,
) -> bool {
    match compiled {
        Some(c) => regex_accepts(c@, text),
        None => match pattern {
            Some(p) => !regex_compiles(p@) || regex_accepts(p@, text),
            None => true,
        },
    }
}

/// Whether rule `r` applies to `n`: every condition it sets holds.
pub open spec fn rule_matches_spec(r: RuleConfig, n: NotificationView) -> bool {
    &&& (r.app_name matches Some(a) ==> n.app_name == a@)
    &&& (r.body_prefix matches Some(p) ==> is_prefix(p@, n.body))
    &&& regex_condition(r.compiled_summary_regex, r.summary_regex, n.summary)
    &&& regex_condition(r.compiled_body_regex, r.body_regex, n.body)
}

#[verifier::opaque]
pub open spec fn step_strip_prefix(prefix: Option<String>, n: NotificationView) -> NotificationView {
    match prefix {
        Some(p) => if is_prefix(p@, n.body) {
            NotificationView { body: trim_spec(n.body.subrange(p@.len() as int, n.body.len() as int)), ..n }
        } else {
            n
        },
        None => n,
    }
}

#[verifier::opaque]
pub open spec fn step_app_name(
    set: Option<String>,
    from_summary: Option<bool>,
    from_line: Option<usize>,
    n: NotificationView,
) -> NotificationView {
    let n1 = match set {
        Some(a) => NotificationView { app_name: a@, ..n },
        None => n,
    };
    let n2 = if from_summary == Some(true) && n1.summary.len() > 0 {
        NotificationView { app_name: n1.summary, ..n1 }
    } else {
        n1
    };
    match from_line {
        Some(idx) => {
            let ls = lines_spec(n2.body);
            if idx < ls.len() && trim_spec(ls[idx as int]).len() > 0 {
                NotificationView { app_name: trim_spec(ls[idx as int]), ..n2 }
            } else {
                n2
            }
        },
        None => n2,
    }
}

#[verifier::opaque]
pub open spec fn step_strip_lines(count: Option<usize>, n: NotificationView) -> NotificationView {
    match count {
        Some(c) => {
            let ls = lines_spec(n.body);
            let start = if c < ls.len() {
                c as int
            } else {
                ls.len() as int
            };
            NotificationView { body: trim_spec(join_lines_spec(ls.subrange(start, ls.len() as int))), ..n }
        },
        None => n,
    }
}

#[verifier::opaque]
pub open spec fn step_attributes(
    icon: Option<String>,
    urgency: Option<u8>,
    expires: Option<bool>,
    ignore_close: Option<bool>,
    n: NotificationView,
) -> NotificationView {
    let n1 = match icon {
        Some(i) => NotificationView { app_icon: i@, ..n },
        None => n,
    };
    let n2 = match urgency {
        Some(u) => NotificationView { urgency: u, ..n1 },
        None => n1,
    };
    let n3 = match expires {
        Some(e) => if e {
            NotificationView { expires: true, ..n2 }
        } else {
            NotificationView { expires: false, expires_at: None, ..n2 }
        },
        None => n2,
    };
    match ignore_close {
        Some(b) => NotificationView { ignore_close: b, ..n3 },
        None => n3,
    }
}

#[verifier::opaque]
pub open spec fn step_timeout_and_sort(
    timeout: Option<i32>,
    sort: Option<SortOrder>,
    group_sort: Option<SortOrder>,
    n: NotificationView,
) -> NotificationView {
    let n1 = match timeout {
        Some(t) => if t > 0 {
            if n.expires_at is None {
                NotificationView { expires_at: expiry_for(n.created_at, t), expires: true, ..n }
            } else {
                n
            }
        } else {
            NotificationView { expires_at: None, expires: false, ..n }
        },
        None => n,
    };
    let n2 = match sort {
        Some(s) => NotificationView { sort_order: s, ..n1 },
        None => n1,
    };
    match group_sort {
        Some(g) => NotificationView { group_sort_order: Some(g), ..n2 },
        None => n2,
    }
}

/// A rule's changes, in order: body prefix, app name (set, from the summary, from a body
/// line), leading body lines, icon, urgency, expiry flag, ignore-close, timeout, sorting.
pub open spec fn apply_rule_spec(r: RuleConfig, n: NotificationView) -> NotificationView {
    let n1 = step_strip_prefix(r.strip_body_prefix, n);
    let n2 = step_app_name(r.set_app_name, r.set_app_name_from_summary, r.set_app_name_from_body_line, n1);
    let n3 = step_strip_lines(r.strip_body_lines, n2);
    let n4 = step_attributes(r.set_app_icon, r.set_urgency, r.set_expires, r.ignore_close, n3);
    step_timeout_and_sort(r.expire_timeout_ms, r.sort, r.group_sort, n4)
}

// ---------------------------------------------------------------------------
// What the configuration does
// ---------------------------------------------------------------------------

/// Index of the first rule at or after `i` that matches `n`.
pub open spec fn first_match(rules: Seq<RuleConfig>, n: NotificationView, i: int) -> Option<int>
    decreases rules.len() - i,
{
    if i < 0 || i >= rules.len() {
        None
    } else if rule_matches_spec(rules[i], n) {
        Some(i)
    } else {
        first_match(rules, n, i + 1)
    }
}

/// Behaviour defaults for what a rule leaves unset: the expiry flag (when the rule sets
/// neither it nor a timeout), the sort order, and the group sort order.
#[verifier::opaque]
pub open spec fn with_defaults(
    keep_expiry: bool,
    keep_sort: bool,
    keep_group_sort: bool,
    b: BehaviorConfig,
    m: NotificationView,
) -> NotificationView {
    let m1 = if keep_expiry {
        m
    } else {
        NotificationView { expires: b.default_expires, ..m }
    };
    let m2 = if keep_sort {
        m1
    } else {
        NotificationView { sort_order: b.sort_order, ..m1 }
    };
    if keep_group_sort {
        m2
    } else {
        NotificationView { group_sort_order: Some(b.group_sort_order), ..m2 }
    }
}

/// The notification after the first matching rule and the behaviour defaults for
/// whatever that rule leaves unset (expiry flag, sort orders).
pub open spec fn configured_spec(cfg: Config, n: NotificationView) -> NotificationView {
    match first_match(cfg.rules@, n, 0) {
        Some(i) => {
            let r = cfg.rules@[i];
            with_defaults(
                r.set_expires is Some || r.expire_timeout_ms is Some,
                r.sort is Some,
                r.group_sort is Some,
                cfg.behavior,
                apply_rule_spec(r, n),
            )
        },
        None => with_defaults(false, false, false, cfg.behavior, n),
    }
}

/// `a` and `b` agree on id, creation time, transient and resident flags, and stored
/// grouping path.
pub open spec fn same_identity(a: NotificationView, b: NotificationView) -> bool {
    &&& a.id == b.id
    &&& a.created_at == b.created_at
    &&& a.transient == b.transient
    &&& a.resident == b.resident
    &&& a.keys == b.keys
}

proof fn lemma_rule_keeps(r: RuleConfig, n: NotificationView)
    ensures
        same_identity(apply_rule_spec(r, n), n),
{
    let n1 = step_strip_prefix(r.strip_body_prefix, n);
    assert(same_identity(n1, n)) by {
        reveal(step_strip_prefix);
    }
    let n2 = step_app_name(r.set_app_name, r.set_app_name_from_summary, r.set_app_name_from_body_line, n1);
    assert(same_identity(n2, n1)) by {
        reveal(step_app_name);
    }
    let n3 = step_strip_lines(r.strip_body_lines, n2);
    assert(same_identity(n3, n2)) by {
        reveal(step_strip_lines);
    }
    let n4 = step_attributes(r.set_app_icon, r.set_urgency, r.set_expires, r.ignore_close, n3);
    assert(same_identity(n4, n3)) by {
        reveal(step_attributes);
    }
    assert(same_identity(step_timeout_and_sort(r.expire_timeout_ms, r.sort, r.group_sort, n4), n4)) by {
        reveal(step_timeout_and_sort);
    }
}

/// Rules and behaviour defaults never change a notification's id, creation time,
/// transient and resident flags, or stored grouping path.
pub proof fn lemma_configured_keeps(cfg: Config, n: NotificationView)
    ensures
        same_identity(configured_spec(cfg, n), n),
{
    reveal(with_defaults);
    match first_match(cfg.rules@, n, 0) {
        Some(i) => {
            lemma_rule_keeps(cfg.rules@[i], n);
        },
        None => {},
    }
}

fn apply_defaults(
    keep_expiry: bool,
    keep_sort: bool,
    keep_group_sort: bool,
    b: &BehaviorConfig,
    n: &mut Notification,
)
    ensures
        final(n)@ == with_defaults(keep_expiry, keep_sort, keep_group_sort, *b, old(n)@),
{
    reveal(with_defaults);
    if !keep_expiry {
        n.expires = b.default_expires;
    }
    if !keep_sort {
        n.sort_order = b.sort_order;
    }
    if !keep_group_sort {
        n.group_sort_order = Some(b.group_sort_order);
    }
}

pub open spec fn app_name_field() -> Seq<char> {
    seq!['a', 'p', 'p', '_', 'n', 'a', 'm', 'e']
}

pub open spec fn summary_field() -> Seq<char> {
    seq!['s', 'u', 'm', 'm', 'a', 'r', 'y']
}

pub open spec fn body_field() -> Seq<char> {
    seq!['b', 'o', 'd', 'y']
}

/// Fields grouped by: those of the first matching rule, else app name then body.
pub open spec fn group_fields_spec(cfg: Config, n: NotificationView) -> Seq<Seq<char>> {
    match first_match(cfg.rules@, n, 0) {
        Some(i) => match cfg.rules@[i].group_by {
            Some(g) => strs_view(g@),
            None => seq![app_name_field(), body_field()],
        },
        None => seq![app_name_field(), body_field()],
    }
}

/// `s`, or `_` when it is empty.
pub open spec fn or_placeholder(s: Seq<char>) -> Seq<char> {
    if s.len() == 0 {
        seq!['_']
    } else {
        s
    }
}

/// The grouping key a field gives: the named field's text (`_` when empty), or any
/// other field name itself, as a fixed key.
pub open spec fn key_for_field(f: Seq<char>, n: NotificationView) -> Seq<char> {
    if f == app_name_field() {
        or_placeholder(n.app_name)
    } else if f == summary_field() {
        or_placeholder(n.summary)
    } else if f == body_field() {
        or_placeholder(n.body)
    } else {
        f
    }
}

/// The grouping path of `n` under `cfg`.
pub open spec fn keys_spec(cfg: Config, n: NotificationView) -> Seq<Seq<char>> {
    let fields = group_fields_spec(cfg, n);
    let m = configured_spec(cfg, n);
    Seq::new(fields.len(), |i: int| key_for_field(fields[i], m))
}

/// A rule's cached expressions agree with its patterns.
pub open spec fn regex_cache_ok(r: RuleConfig) -> bool {
    &&& (r.compiled_summary_regex matches Some(c) ==> r.summary_regex matches Some(p) && c@ == p@)
    &&& (r.compiled_body_regex matches Some(c) ==> r.body_regex matches Some(p) && c@ == p@)
}

/// `b` is `a` with its patterns compiled: every setting kept, and each pattern that
/// compiles cached as its compiled expression.
pub open spec fn compiled_from(a: RuleConfig, b: RuleConfig) -> bool {
    &&& b.name == a.name && b.app_name == a.app_name && b.body_prefix == a.body_prefix
    &&& b.summary_regex == a.summary_regex && b.body_regex == a.body_regex
    &&& b.set_app_name == a.set_app_name && b.set_app_name_from_summary == a.set_app_name_from_summary
    &&& b.set_app_name_from_body_line == a.set_app_name_from_body_line
    &&& b.strip_body_lines == a.strip_body_lines && b.strip_body_prefix == a.strip_body_prefix
    &&& b.set_app_icon == a.set_app_icon && b.set_urgency == a.set_urgency
    &&& b.set_expires == a.set_expires && b.expire_timeout_ms == a.expire_timeout_ms
    &&& b.ignore_close == a.ignore_close && b.group_by == a.group_by
    &&& b.sort == a.sort && b.group_sort == a.group_sort
    &&& (match a.summary_regex {
        Some(p) => if regex_compiles(p@) {
            b.compiled_summary_regex matches Some(c) && c@ == p@
        } else {
            b.compiled_summary_regex == a.compiled_summary_regex
        },
        None => b.compiled_summary_regex == a.compiled_summary_regex,
    })
    &&& (match a.body_regex {
        Some(p) => if regex_compiles(p@) {
            b.compiled_body_regex matches Some(c) && c@ == p@
        } else {
            b.compiled_body_regex == a.compiled_body_regex
        },
        None => b.compiled_body_regex == a.compiled_body_regex,
    })
}

// ---------------------------------------------------------------------------
// Executable rules
// ---------------------------------------------------------------------------

fn apply_strip_prefix(prefix: &Option<String>, n: &mut Notification)
    ensures
        final(n)@ == step_strip_prefix(*prefix, old(n)@),
{
    reveal(step_strip_prefix);
    if let Some(p) = prefix {
        let b = chars_of(n.body.as_str());
        let pc = chars_of(p.as_str());
        if starts_with(&b, &pc) {
            let rest = slice_chars(&b, pc.len(), b.len());
            let t = trim_chars(&rest);
            n.body = string_from_chars(&t);
        }
    }
}

fn apply_app_name(
    set: &Option<String>,
    from_summary: Option<bool>,
    from_line: Option<usize>,
    n: &mut Notification,
)
    ensures
        final(n)@ == step_app_name(*set, from_summary, from_line, old(n)@),
{
    reveal(step_app_name);
    if let Some(a) = set {
        n.app_name = a.clone();
    }
    let use_summary = match from_summary {
        Some(b) => b,
        None => false,
    };
    if use_summary && !n.summary.as_str().is_empty() {
        n.app_name = n.summary.clone();
    }
    if let Some(idx) = from_line {
        let b = chars_of(n.body.as_str());
        let lines = lines_of(&b);
        if idx < lines.len() {
            let t = trim_chars(&lines[idx]);
            if t.len() > 0 {
                n.app_name = string_from_chars(&t);
            }
        }
    }
}

fn apply_strip_lines(count: Option<usize>, n: &mut Notification)
    ensures
        final(n)@ == step_strip_lines(count, old(n)@),
{
    reveal(step_strip_lines);
    if let Some(c) = count {
        let b = chars_of(n.body.as_str());
        let lines = lines_of(&b);
        let start = if c < lines.len() {
            c
        } else {
            lines.len()
        };
        let joined = join_lines_from(&lines, start);
        let t = trim_chars(&joined);
        n.body = string_from_chars(&t);
    }
}

fn apply_attributes(
    icon: &Option<String>,
    urgency: Option<u8>,
    expires: Option<bool>,
    ignore_close: Option<bool>,
    n: &mut Notification,
)
    ensures
        final(n)@ == step_attributes(*icon, urgency, expires, ignore_close, old(n)@),
{
    reveal(step_attributes);
    if let Some(i) = icon {
        n.app_icon = i.clone();
    }
    if let Some(u) = urgency {
        n.urgency = u;
    }
    if let Some(e) = expires {
        n.expires = e;
        if !e {
            n.expires_at = None;
        }
    }
    if let Some(b) = ignore_close {
        n.ignore_close = b;
    }
}

fn apply_timeout_and_sort(
    timeout: Option<i32>,
    sort: Option<SortOrder>,
    group_sort: Option<SortOrder>,
    n: &mut Notification,
)
    ensures
        final(n)@ == step_timeout_and_sort(timeout, sort, group_sort, old(n)@),
{
    reveal(step_timeout_and_sort);
    if let Some(timeout_ms) = timeout {
        if timeout_ms > 0 {
            if n.expires_at.is_none() {
                let expire_ns = n.created_at.saturating_add((timeout_ms as u64) * 1_000_000);
                n.expires_at = Some(expire_ns);
                n.expires = true;
            }
        } else {
            n.expires_at = None;
            n.expires = false;
        }
    }
    if let Some(s) = sort {
        n.sort_order = s;
    }
    if let Some(g) = group_sort {
        n.group_sort_order = Some(g);
    }
}

fn regex_condition_exec(
    compiled: &Option<CompiledRegex>,
    pattern: &Option<String>,
    text: &String,
) -> (b: bool)
    ensures
        b == regex_condition(*compiled, *pattern, text@),
{
    match compiled {
        Some(re) => regex_is_match(re, text.as_str()),
        None => match pattern {
            Some(p) => match compile_regex(p.as_str()) {
                Some(re) => regex_is_match(&re, text.as_str()),
                None => true,
            },
            None => true,
        },
    }
}

impl RuleConfig {
    /// Caches the compiled form of each pattern that compiles; other settings are kept.
    pub fn compile_regexes(&mut self)
        ensures
            compiled_from(*old(self), *final(self)),
    {
        if let Some(pattern) = &self.summary_regex {
            match compile_regex(pattern.as_str()) {
                Some(re) => {
                    self.compiled_summary_regex = Some(re);
                },
                None => {},
            }
        }
        if let Some(pattern) = &self.body_regex {
            match compile_regex(pattern.as_str()) {
                Some(re) => {
                    self.compiled_body_regex = Some(re);
                },
                None => {},
            }
        }
    }

    /// Whether this rule applies to `n`; see `rule_matches_spec`.
    pub fn matches(&self, n: &Notification) -> (b: bool)
        ensures
            b == rule_matches_spec(*self, n@),
    {
        if let Some(expected) = &self.app_name {
            if n.app_name != *expected {
                return false;
            }
        }
        if let Some(prefix) = &self.body_prefix {
            let b = chars_of(n.body.as_str());
            let p = chars_of(prefix.as_str());
            if !starts_with(&b, &p) {
                return false;
            }
        }
        if !regex_condition_exec(&self.compiled_summary_regex, &self.summary_regex, &n.summary) {
            return false;
        }
        regex_condition_exec(&self.compiled_body_regex, &self.body_regex, &n.body)
    }

    /// Makes this rule's changes to `n`; see `apply_rule_spec`.
    pub fn apply(&self, n: &mut Notification)
        ensures
            final(n)@ == apply_rule_spec(*self, old(n)@),
    {
        apply_strip_prefix(&self.strip_body_prefix, n);
        apply_app_name(&self.set_app_name, self.set_app_name_from_summary, self.set_app_name_from_body_line, n);
        apply_strip_lines(self.strip_body_lines, n);
        apply_attributes(&self.set_app_icon, self.set_urgency, self.set_expires, self.ignore_close, n);
        apply_timeout_and_sort(self.expire_timeout_ms, self.sort, self.group_sort, n);
    }
}

fn field_key(field: &String, n: &Notification) -> (k: String)
    ensures
        k@ == key_for_field(field@, n@),
{
    let f = chars_of(field.as_str());
    let app: [char; 8] = ['a', 'p', 'p', '_', 'n', 'a', 'm', 'e'];
    let sum: [char; 7] = ['s', 'u', 'm', 'm', 'a', 'r', 'y'];
    let bod: [char; 4] = ['b', 'o', 'd', 'y'];
    let under: [char; 1] = ['_'];
    assert(app@ =~= app_name_field());
    assert(sum@ =~= summary_field());
    assert(bod@ =~= body_field());
    assert(under@ =~= seq!['_']);
    let value: &String = if chars_eq(&f, &app) {
        &n.app_name
    } else if chars_eq(&f, &sum) {
        &n.summary
    } else if chars_eq(&f, &bod) {
        &n.body
    } else {
        return field.clone();
    };
    if value.as_str().is_empty() {
        string_from_chars(&under)
    } else {
        value.clone()
    }
}

impl Config {
    /// A configuration with the default behaviour and no rules.
    pub fn empty() -> (r: Self)
        ensures
            r.rules@.len() == 0,
            r.behavior.max_notifications == 500,
            r.behavior.focus_on_action,
            !r.behavior.default_expires,
    {
        Config { behavior: BehaviorConfig::default(), rules: Vec::new() }
    }

    /// Compiles the patterns of every rule.
    pub fn compile_all_rules(&mut self)
        ensures
            final(self).behavior == old(self).behavior,
            final(self).rules@.len() == old(self).rules@.len(),
            forall|i: int| 0 <= i < old(self).rules@.len() ==> compiled_from(#[trigger] old(self).rules@[i], final(self).rules@[i]),
    {
        let n = self.rules.len();
        let ghost orig = self.rules@;
        for i in 0..n
            invariant
                n == orig.len(),
                self.rules@.len() == n,
                self.behavior == old(self).behavior,
                orig == old(self).rules@,
                forall|j: int| 0 <= j < i ==> compiled_from(#[trigger] orig[j], self.rules@[j]),
                forall|j: int| i <= j < n ==> #[trigger] self.rules@[j] == orig[j],
        {
            let mut tmp = RuleConfig::default();
            self.rules.set_and_swap(i, &mut tmp);
            tmp.compile_regexes();
            self.rules.set(i, tmp);
        }
    }

    /// Applies the first matching rule to `notification` (and the behaviour defaults for
    /// what it leaves unset), and returns the grouping path; see `configured_spec` and
    /// `keys_spec`.
    pub fn apply_and_get_keys(&self, notification: &mut Notification) -> (keys: Vec<String>)
        ensures
            final(notification)@ == configured_spec(*self, old(notification)@),
            strs_view(keys@) == keys_spec(*self, old(notification)@),
    {
        let ghost n0 = notification@;
        let nrules = self.rules.len();
        let mut found: Option<usize> = None;
        let mut i: usize = 0;
        while i < nrules
            invariant_except_break
                first_match(self.rules@, n0, 0) == first_match(self.rules@, n0, i as int),
                found is None,
            invariant
                i <= nrules,
                nrules == self.rules@.len(),
                notification@ == n0,
            ensures
                found matches Some(idx) ==> idx < nrules && first_match(self.rules@, n0, 0) == Some(idx as int),
                found is None ==> first_match(self.rules@, n0, 0) is None,
            decreases nrules - i,
        {
            if self.rules[i].matches(notification) {
                found = Some(i);
                break;
            }
            i += 1;
        }
        let app_f: [char; 8] = ['a', 'p', 'p', '_', 'n', 'a', 'm', 'e'];
        let body_f: [char; 4] = ['b', 'o', 'd', 'y'];
        assert(app_f@ =~= app_name_field());
        assert(body_f@ =~= body_field());
        let mut default_fields: Vec<String> = Vec::new();
        default_fields.push(string_from_chars(&app_f));
        default_fields.push(string_from_chars(&body_f));
        assert(strs_view(default_fields@) =~= seq![app_name_field(), body_field()]);
        let fields: Vec<String> = match found {
            Some(idx) => {
                let rule = &self.rules[idx];
                rule.apply(notification);
                apply_defaults(
                    rule.set_expires.is_some() || rule.expire_timeout_ms.is_some(),
                    rule.sort.is_some(),
                    rule.group_sort.is_some(),
                    &self.behavior,
                    notification,
                );
                match &rule.group_by {
                    Some(g) => {
                        let c = crate::data::notification::clone_strings(g);
                        assert(strs_view(c@) =~= strs_view(g@));
                        c
                    },
                    None => default_fields,
                }
            },
            None => {
                apply_defaults(false, false, false, &self.behavior, notification);
                default_fields
            },
        };
        let ghost fv = strs_view(fields@);
        assert(fv == group_fields_spec(*self, n0));
        let mut keys: Vec<String> = Vec::new();
        for j in 0..fields.len()
            invariant
                strs_view(fields@) == fv,
                fv.len() == fields@.len(),
                notification@ == configured_spec(*self, n0),
                keys@.len() == j,
                forall|m: int| 0 <= m < j ==> #[trigger] keys@[m]@ == key_for_field(fv[m], notification@),
        {
            assert(fields@[j as int]@ == fv[j as int]);
            let k = field_key(&fields[j], notification);
            keys.push(k);
        }
        assert(strs_view(keys@) =~= keys_spec(*self, n0));
        keys
    }
}

fn owned(s: &str) -> (r: String)
    ensures
        r@ == s@,
{
    s.to_owned()
}

/// `o` holds a string with the characters `s`.
pub open spec fn str_is(o: Option<String>, s: Seq<char>) -> bool {
    o matches Some(x) && x@ == s
}

/// A rule with no condition or change besides those named in the built-in table.
pub open spec fn no_patterns(r: RuleConfig) -> bool {
    &&& r.summary_regex is None && r.body_regex is None
    &&& r.compiled_summary_regex is None && r.compiled_body_regex is None
    &&& r.strip_body_prefix is None && r.set_urgency is None && r.group_sort is None
}

/// The built-in rule for a web app in Chrome: a notification from "Google Chrome" whose
/// body starts with the site is renamed after the app, given its icon, loses its first
/// body line and is kept when the client dismisses it; `by_sender` groups it by app and
/// summary, oldest first.
pub open spec fn is_site_rule(r: RuleConfig, site: Seq<char>, name: Seq<char>, icon: Seq<char>, by_sender: bool) -> bool {
    &&& no_patterns(r)
    &&& str_is(r.name, name)
    &&& str_is(r.app_name, "Google Chrome"@)
    &&& str_is(r.body_prefix, site)
    &&& str_is(r.set_app_name, name)
    &&& r.set_app_name_from_summary is None && r.set_app_name_from_body_line is None
    &&& r.strip_body_lines == Some(1usize)
    &&& str_is(r.set_app_icon, icon)
    &&& r.set_expires is None && r.expire_timeout_ms is None
    &&& r.ignore_close == Some(true)
    &&& if by_sender {
        &&& (r.group_by matches Some(g) && strs_view(g@) == seq!["app_name"@, "summary"@])
        &&& r.sort == Some(SortOrder::OldestToNewest)
    } else {
        r.group_by is None && r.sort is None
    }
}

/// The built-in rule for any other site in Chrome: named after the first body line,
/// which is then removed, with Chrome's icon, grouped by app.
pub open spec fn is_chrome_rule(r: RuleConfig) -> bool {
    &&& no_patterns(r)
    &&& str_is(r.name, "Chrome web app"@)
    &&& str_is(r.app_name, "Google Chrome"@)
    &&& r.body_prefix is None
    &&& r.set_app_name is None && r.set_app_name_from_summary is None
    &&& r.set_app_name_from_body_line == Some(0usize)
    &&& r.strip_body_lines == Some(1usize)
    &&& str_is(r.set_app_icon, "google-chrome"@)
    &&& r.set_expires is None && r.expire_timeout_ms is None && r.ignore_close is None
    &&& (r.group_by matches Some(g) && strs_view(g@) == seq!["app_name"@])
    &&& r.sort is None
}

/// The built-in rule for `notify-send`: named after the summary, with a generic icon,
/// expiring after five seconds.
pub open spec fn is_notify_send_rule(r: RuleConfig) -> bool {
    &&& no_patterns(r)
    &&& str_is(r.name, "notify-send"@)
    &&& str_is(r.app_name, "notify-send"@)
    &&& r.body_prefix is None
    &&& r.set_app_name is None && r.set_app_name_from_summary == Some(true)
    &&& r.set_app_name_from_body_line is None && r.strip_body_lines is None
    &&& str_is(r.set_app_icon, "plugin-notification"@)
    &&& r.set_expires == Some(true) && r.expire_timeout_ms == Some(5000i32)
    &&& r.ignore_close is None && r.group_by is None && r.sort is None
}

/// The built-in rules, in the order they are tried.
pub open spec fn builtin_rules(rules: Seq<RuleConfig>) -> bool {
    &&& rules.len() == 8
    &&& is_site_rule(rules[0], "mail.google.com"@, "Gmail"@, "gmail"@, false)
    &&& is_site_rule(rules[1], "web.whatsapp.com"@, "WhatsApp"@, "whatsapp"@, true)
    &&& is_site_rule(rules[2], "chat.google.com"@, "Google Chat"@, "google-chat"@, true)
    &&& is_site_rule(rules[3], "meet.google.com"@, "Google Meet"@, "google-meet"@, false)
    &&& is_site_rule(rules[4], "x.com"@, "X"@, "twitter"@, false)
    &&& is_site_rule(rules[5], "www.instagram.com"@, "Instagram"@, "instagram"@, false)
    &&& is_chrome_rule(rules[6])
    &&& is_notify_send_rule(rules[7])
}

/// Compiling the patterns of a rule that has none changes nothing.
proof fn lemma_compile_no_patterns(a: RuleConfig, b: RuleConfig)
    requires
        compiled_from(a, b),
        no_patterns(a),
    ensures
        b == a,
{
}

/// A rule for a web app running in Chrome, recognised by the site on the first body line.
fn site_rule(site: &str, name: &str, icon: &str, by_sender: bool) -> (r: RuleConfig)
    ensures
        is_site_rule(r, site@, name@, icon@, by_sender),
{
    let mut r = RuleConfig::default();
    r.name = Some(owned(name));
    r.app_name = Some(owned("Google Chrome"));
    r.body_prefix = Some(owned(site));
    r.set_app_name = Some(owned(name));
    r.set_app_icon = Some(owned(icon));
    r.strip_body_lines = Some(1);
    r.ignore_close = Some(true);
    if by_sender {
        let mut g: Vec<String> = Vec::new();
        g.push(owned("app_name"));
        g.push(owned("summary"));
        assert(strs_view(g@) =~= seq!["app_name"@, "summary"@]);
        r.group_by = Some(g);
        r.sort = Some(SortOrder::OldestToNewest);
    }
    r
}

impl Default for Config {
    /// The built-in configuration: default behaviour and rules for Chrome web apps
    /// (Gmail, WhatsApp, Google Chat, Google Meet, X, Instagram, then any other site,
    /// named after the first body line) and for `notify-send` (named after the summary,
    /// expiring after five seconds).
    fn default() -> (r: Self)
        ensures
            r.behavior.max_notifications == 500,
            r.behavior.focus_on_action,
            !r.behavior.default_expires,
            r.behavior.urgent_timeout_ms == 2500,
            r.behavior.default_expire_timeout_ms == 5000,
            r.behavior.sort_order == SortOrder::NewestToOldest,
            r.behavior.group_sort_order == SortOrder::NewestToOldest,
            builtin_rules(r.rules@),
            forall|i: int| 0 <= i < r.rules@.len() ==> #[trigger] regex_cache_ok(r.rules@[i]),
    {
        let mut rules: Vec<RuleConfig> = Vec::new();
        rules.push(site_rule("mail.google.com", "Gmail", "gmail", false));
        rules.push(site_rule("web.whatsapp.com", "WhatsApp", "whatsapp", true));
        rules.push(site_rule("chat.google.com", "Google Chat", "google-chat", true));
        rules.push(site_rule("meet.google.com", "Google Meet", "google-meet", false));
        rules.push(site_rule("x.com", "X", "twitter", false));
        rules.push(site_rule("www.instagram.com", "Instagram", "instagram", false));

        let mut chrome = RuleConfig::default();
        chrome.name = Some(owned("Chrome web app"));
        chrome.app_name = Some(owned("Google Chrome"));
        chrome.set_app_name_from_body_line = Some(0);
        chrome.strip_body_lines = Some(1);
        chrome.set_app_icon = Some(owned("google-chrome"));
        let mut g: Vec<String> = Vec::new();
        g.push(owned("app_name"));
        assert(strs_view(g@) =~= seq!["app_name"@]);
        chrome.group_by = Some(g);
        rules.push(chrome);

        let mut notify_send = RuleConfig::default();
        notify_send.name = Some(owned("notify-send"));
        notify_send.app_name = Some(owned("notify-send"));
        notify_send.set_app_name_from_summary = Some(true);
        notify_send.set_app_icon = Some(owned("plugin-notification"));
        notify_send.set_expires = Some(true);
        notify_send.expire_timeout_ms = Some(5000);
        rules.push(notify_send);

        let mut cfg = Config { behavior: BehaviorConfig::default(), rules };
        let ghost before = cfg.rules@;
        assert(forall|i: int| 0 <= i < before.len() ==> #[trigger] regex_cache_ok(before[i]));
        cfg.compile_all_rules();
        assert forall|i: int| 0 <= i < cfg.rules@.len() implies #[trigger] regex_cache_ok(cfg.rules@[i]) by {
            lemma_compile_keeps_meaning(before[i], cfg.rules@[i], arbitrary());
        }
        assert forall|i: int| 0 <= i < 8 implies #[trigger] cfg.rules@[i] == before[i] by {
            lemma_compile_no_patterns(before[i], cfg.rules@[i]);
        }
        cfg
    }
}

/// The body of `n` without its first line (trimmed), as the web-app rules leave it.
pub open spec fn body_after_first_line(body: Seq<char>) -> Seq<char> {
    let ls = lines_spec(body);
    let start = if 1 < ls.len() {
        1int
    } else {
        ls.len() as int
    };
    trim_spec(join_lines_spec(ls.subrange(start, ls.len() as int)))
}

/// Law: under the built-in rules, a notification from "Google Chrome" whose body starts
/// with "mail.google.com" is handled by the Gmail rule: it is renamed "Gmail", gets the
/// "gmail" icon, loses its first body line, keeps its urgency, is kept when the client
/// dismisses it, and is filed under "Gmail" and its remaining body.
pub proof fn lemma_builtin_gmail(cfg: Config, n: NotificationView)
    requires
        builtin_rules(cfg.rules@),
        n.app_name == "Google Chrome"@,
        is_prefix("mail.google.com"@, n.body),
    ensures
        first_match(cfg.rules@, n, 0) == Some(0int),
        configured_spec(cfg, n).app_name == "Gmail"@,
        configured_spec(cfg, n).app_icon == "gmail"@,
        configured_spec(cfg, n).body == body_after_first_line(n.body),
        configured_spec(cfg, n).urgency == n.urgency,
        configured_spec(cfg, n).ignore_close,
        keys_spec(cfg, n) == seq!["Gmail"@, or_placeholder(body_after_first_line(n.body))],
{
    reveal(step_strip_prefix);
    reveal(step_app_name);
    reveal(step_strip_lines);
    reveal(step_attributes);
    reveal(step_timeout_and_sort);
    reveal(with_defaults);
    reveal_strlit("Gmail");
    assert(rule_matches_spec(cfg.rules@[0], n));
    let m = configured_spec(cfg, n);
    assert(m.app_name == "Gmail"@);
    assert(keys_spec(cfg, n) =~= seq!["Gmail"@, or_placeholder(body_after_first_line(n.body))]);
}

/// The first rule matching at or after `k` comes no later than a rule `i` that matches.
proof fn lemma_first_match_upto(rules: Seq<RuleConfig>, n: NotificationView, k: int, i: int)
    requires
        0 <= k <= i < rules.len(),
        rule_matches_spec(rules[i], n),
    ensures
        first_match(rules, n, k) matches Some(j) && k <= j <= i && rule_matches_spec(rules[j], n),
    decreases i - k,
{
    if !rule_matches_spec(rules[k], n) {
        lemma_first_match_upto(rules, n, k + 1, i);
    }
}

/// Law (protection against auto-dismiss): under the built-in rules, a notification from
/// "Google Chrome" whose body starts with the site of one of the six web-app rules is
/// handled by a web-app rule, and so it is kept when the client dismisses it.
pub proof fn lemma_builtin_web_apps_kept(cfg: Config, n: NotificationView, i: int)
    requires
        builtin_rules(cfg.rules@),
        0 <= i < 6,
        n.app_name == "Google Chrome"@,
        cfg.rules@[i].body_prefix matches Some(p) && is_prefix(p@, n.body),
    ensures
        first_match(cfg.rules@, n, 0) matches Some(j) && j <= i,
        configured_spec(cfg, n).ignore_close,
{
    reveal(step_attributes);
    reveal(step_timeout_and_sort);
    reveal(with_defaults);
    assert(rule_matches_spec(cfg.rules@[i], n));
    lemma_first_match_upto(cfg.rules@, n, 0, i);
}

/// Law: compiling a rule's patterns (from a consistent cache) keeps the cache consistent
/// and changes neither which notifications it matches nor what it does to them.
pub proof fn lemma_compile_keeps_meaning(a: RuleConfig, b: RuleConfig, n: NotificationView)
    requires
        compiled_from(a, b),
        regex_cache_ok(a),
    ensures
        regex_cache_ok(b),
        rule_matches_spec(b, n) == rule_matches_spec(a, n),
        apply_rule_spec(b, n) == apply_rule_spec(a, n),
{
}

} // verus!
