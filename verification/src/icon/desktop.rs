//! XDG desktop entries: parsing `.desktop` files, the file names an application id may
//! have, and a memo of earlier lookups.
use vstd::prelude::*;
use crate::text::{
    chars_of, string_from_chars, trim_chars, trim_spec, lines_of, lines_spec, vviews, lowercase_of,
    to_lowercase, chars_eq, push_str_chars, ascii_lower, has_suffix, ends_with, split_nonempty, nonempty_fields,
};
use crate::icon::{join_path, join_path_exec};
use crate::data::notification::opt_str_view;

verus! {

/// Name and icon of an application, from its desktop entry.
#[derive(Debug, PartialEq, Eq)]
pub struct DesktopEntry {
    pub name: String,
    pub icon: String,
    pub startup_wm_class: Option<String>,
}

pub struct DesktopEntryView {
    pub name: Seq<char>,
    pub icon: Seq<char>,
    pub startup_wm_class: Option<Seq<char>>,
}

impl View for DesktopEntry {
    type V = DesktopEntryView;

    open spec fn view(&self) -> DesktopEntryView {
        DesktopEntryView {
            name: self.name@,
            icon: self.icon@,
            startup_wm_class: match self.startup_wm_class {
                Some(s) => Some(s@),
                None => None,
            },
        }
    }
}

impl Clone for DesktopEntry {
    fn clone(&self) -> (r: Self)
        ensures
            r@ == self@,
    {
        DesktopEntry {
            name: self.name.clone(),
            icon: self.icon.clone(),
            startup_wm_class: match &self.startup_wm_class {
                Some(s) => Some(s.clone()),
                None => None,
            },
        }
    }
}

pub open spec fn opt_entry_view(o: Option<DesktopEntry>) -> Option<DesktopEntryView> {
    match o {
        Some(e) => Some(e@),
        None => None,
    }
}

// ---------------------------------------------------------------------------
// Values
// ---------------------------------------------------------------------------

/// Number of leading `"` of `s`.
pub open spec fn lead_quotes(s: Seq<char>) -> nat
    decreases s.len(),
{
    if s.len() > 0 && s[0] == '"' {
        1 + lead_quotes(s.subrange(1, s.len() as int))
    } else {
        0
    }
}

/// Number of trailing `"` of `s`.
pub open spec fn trail_quotes(s: Seq<char>) -> nat
    decreases s.len(),
{
    if s.len() > 0 && s.last() == '"' {
        1 + trail_quotes(s.drop_last())
    } else {
        0
    }
}

/// `s` without its leading and trailing `"` (what `trim_matches('"')` leaves).
pub open spec fn strip_quotes(s: Seq<char>) -> Seq<char> {
    let a = lead_quotes(s);
    if a == s.len() {
        Seq::empty()
    } else {
        s.subrange(a as int, s.len() - trail_quotes(s))
    }
}

/// The character an escape `\c` of a desktop-entry value stands for: `\s` a space,
/// `\n` a line feed, `\t` a tab, `\r` a carriage return, `\\` a backslash.
pub open spec fn escaped_char(c: char) -> Option<char> {
    if c == 's' {
        Some(' ')
    } else if c == 'n' {
        Some('\n')
    } else if c == 't' {
        Some('\t')
    } else if c == 'r' {
        Some('\r')
    } else if c == '\\' {
        Some('\\')
    } else {
        None
    }
}

/// `s` with its escapes decoded in one pass from the left: a backslash followed by an
/// escape character stands for the character it denotes (the pair is consumed, so the
/// second backslash of `\\` starts nothing); any other character, a backslash before
/// another character or at the end included, stands for itself.
pub open spec fn decode_escapes(s: Seq<char>) -> Seq<char>
    decreases s.len(),
{
    if s.len() == 0 {
        Seq::empty()
    } else if s[0] == '\\' && s.len() >= 2 && escaped_char(s[1]) is Some {
        seq![escaped_char(s[1]).unwrap()] + decode_escapes(s.subrange(2, s.len() as int))
    } else {
        seq![s[0]] + decode_escapes(s.subrange(1, s.len() as int))
    }
}

/// A desktop-entry value with surrounding white space and quotes removed and its
/// escapes decoded; see `decode_escapes`.
pub open spec fn unescape_spec(v: Seq<char>) -> Seq<char> {
    decode_escapes(strip_quotes(trim_spec(v)))
}

proof fn lemma_lead_quotes(s: Seq<char>)
    ensures
        lead_quotes(s) <= s.len(),
        forall|i: int| 0 <= i < lead_quotes(s) ==> s[i] == '"',
        lead_quotes(s) < s.len() ==> s[lead_quotes(s) as int] != '"',
    decreases s.len(),
{
    if s.len() > 0 && s[0] == '"' {
        let t = s.subrange(1, s.len() as int);
        lemma_lead_quotes(t);
        assert forall|i: int| 0 <= i < lead_quotes(s) implies s[i] == '"' by {
            if i > 0 {
                assert(s[i] == t[i - 1]);
            }
        }
    }
}

proof fn lemma_trail_quotes(s: Seq<char>)
    ensures
        trail_quotes(s) <= s.len(),
        forall|i: int| s.len() - trail_quotes(s) <= i < s.len() ==> s[i] == '"',
        trail_quotes(s) < s.len() ==> s[s.len() - trail_quotes(s) - 1] != '"',
    decreases s.len(),
{
    if s.len() > 0 && s.last() == '"' {
        let t = s.drop_last();
        lemma_trail_quotes(t);
        assert forall|i: int| s.len() - trail_quotes(s) <= i < s.len() implies s[i] == '"' by {
            if i < s.len() - 1 {
                assert(s[i] == t[i]);
            }
        }
    }
}

/// `strip_quotes`.
fn strip_quotes_exec(v: &Vec<char>) -> (r: Vec<char>)
    ensures
        r@ == strip_quotes(v@),
{
    proof {
        lemma_lead_quotes(v@);
        lemma_trail_quotes(v@);
    }
    let n = v.len();
    let mut a: usize = 0;
    while a < n && v[a] == '"'
        invariant
            a <= n,
            n == v@.len(),
            lead_quotes(v@) <= n,
            forall|i: int| 0 <= i < lead_quotes(v@) ==> v@[i] == '"',
            lead_quotes(v@) < n ==> v@[lead_quotes(v@) as int] != '"',
            a <= lead_quotes(v@),
        decreases n - a,
    {
        a = a + 1;
    }
    if a == n {
        return Vec::new();
    }
    let mut b: usize = n;
    while b > a && v[b - 1] == '"'
        invariant
            a < b <= n || b == a,
            a == lead_quotes(v@),
            a < n,
            n == v@.len(),
            trail_quotes(v@) <= n,
            forall|i: int| n - trail_quotes(v@) <= i < n ==> v@[i] == '"',
            trail_quotes(v@) < n ==> v@[n - trail_quotes(v@) - 1] != '"',
            n - b <= trail_quotes(v@),
        decreases b,
    {
        b = b - 1;
    }
    crate::text::slice_chars(v.as_slice(), a, b)
}

fn escaped_char_exec(c: char) -> (r: Option<char>)
    ensures
        r == escaped_char(c),
{
    if c == 's' {
        Some(' ')
    } else if c == 'n' {
        Some('\n')
    } else if c == 't' {
        Some('\t')
    } else if c == 'r' {
        Some('\r')
    } else if c == '\\' {
        Some('\\')
    } else {
        None
    }
}

/// `decode_escapes` over characters.
fn decode_escapes_exec(s: &Vec<char>) -> (out: Vec<char>)
    ensures
        out@ == decode_escapes(s@),
{
    let mut out: Vec<char> = Vec::new();
    let mut i: usize = 0;
    let n = s.len();
    assert(s@.subrange(0, n as int) =~= s@);
    assert(out@ + decode_escapes(s@) =~= decode_escapes(s@));
    while i < n
        invariant
            i <= n,
            n == s@.len(),
            out@ + decode_escapes(s@.subrange(i as int, n as int)) == decode_escapes(s@),
        decreases n - i,
    {
        let ghost rest = s@.subrange(i as int, n as int);
        let ghost before = out@;
        let e = if s[i] == '\\' && i + 1 < n {
            escaped_char_exec(s[i + 1])
        } else {
            None
        };
        match e {
            Some(c) => {
                assert(rest[1] == s@[i + 1]);
                assert(rest.subrange(2, rest.len() as int) =~= s@.subrange(i + 2, n as int));
                out.push(c);
                assert(out@ + decode_escapes(s@.subrange(i + 2, n as int)) =~= before + (seq![c]
                    + decode_escapes(s@.subrange(i + 2, n as int))));
                i = i + 2;
            },
            None => {
                proof {
                    if rest.len() >= 2 {
                        assert(rest[1] == s@[i + 1]);
                    }
                }
                assert(rest.subrange(1, rest.len() as int) =~= s@.subrange(i + 1, n as int));
                out.push(s[i]);
                assert(out@ + decode_escapes(s@.subrange(i + 1, n as int)) =~= before + (seq![rest[0]]
                    + decode_escapes(s@.subrange(i + 1, n as int))));
                i = i + 1;
            },
        }
    }
    assert(s@.subrange(n as int, n as int) =~= Seq::<char>::empty());
    assert(out@ + Seq::<char>::empty() =~= out@);
    out
}

/// Decodes a desktop-entry value; see `unescape_spec`.
pub fn unescape_desktop_val(val: &str) -> (r: String)
    ensures
        r@ == unescape_spec(val@),
{
    let v = chars_of(val);
    let t = trim_chars(&v);
    let q = strip_quotes_exec(&t);
    let d = decode_escapes_exec(&q);
    string_from_chars(&d)
}

// ---------------------------------------------------------------------------
// Desktop files
// ---------------------------------------------------------------------------

/// What a scan of a desktop file has found so far.
pub struct EntryScan {
    pub in_section: bool,
    pub name: Option<Seq<char>>,
    pub icon: Option<Seq<char>>,
    pub wm_class: Option<Seq<char>>,
    pub hidden: bool,
}

/// Position of the first `c` of `t` at or after `j`.
pub open spec fn find_char(t: Seq<char>, c: char, j: int) -> Option<int>
    decreases t.len() - j,
{
    if j < 0 || j >= t.len() {
        None
    } else if t[j] == c {
        Some(j)
    } else {
        find_char(t, c, j + 1)
    }
}

proof fn lemma_find_char(t: Seq<char>, c: char, j: int)
    requires
        0 <= j,
    ensures
        find_char(t, c, j) matches Some(k) ==> j <= k < t.len() && t[k] == c && forall|m: int| j <= m < k ==> t[m] != c,
        find_char(t, c, j) is None ==> forall|m: int| j <= m < t.len() ==> t[m] != c,
    decreases t.len() - j,
{
    if j < t.len() && t[j] != c {
        lemma_find_char(t, c, j + 1);
    }
}

/// `a` and `b` are equal up to ASCII case.
pub open spec fn eq_ignore_ascii_case(a: Seq<char>, b: Seq<char>) -> bool {
    a.len() == b.len() && forall|i: int| 0 <= i < a.len() ==> ascii_lower(#[trigger] a[i]) == ascii_lower(b[i])
}

/// One line of a desktop file: comments and blank lines are skipped; a `[...]` header
/// enters or leaves the `[Desktop Entry]` group; inside it, the first `Name`, `Icon` and
/// `StartupWMClass` are kept, decoded, and `Hidden=true` (any case) marks the entry hidden.
pub open spec fn scan_line(st: EntryScan, line: Seq<char>) -> EntryScan {
    let t = trim_spec(line);
    if t.len() == 0 || t[0] == '#' {
        st
    } else if t[0] == '[' && t.last() == ']' {
        EntryScan { in_section: t == "[Desktop Entry]"@, ..st }
    } else if st.in_section {
        match find_char(t, '=', 0) {
            Some(e) => {
                let key = trim_spec(t.subrange(0, e));
                let val = trim_spec(t.subrange(e + 1, t.len() as int));
                if key == "Name"@ && st.name is None {
                    EntryScan { name: Some(unescape_spec(val)), ..st }
                } else if key == "Icon"@ && st.icon is None {
                    EntryScan { icon: Some(unescape_spec(val)), ..st }
                } else if key == "StartupWMClass"@ && st.wm_class is None {
                    EntryScan { wm_class: Some(unescape_spec(val)), ..st }
                } else if key == "Hidden"@ && eq_ignore_ascii_case(val, "true"@) {
                    EntryScan { hidden: true, ..st }
                } else {
                    st
                }
            },
            None => st,
        }
    } else {
        st
    }
}

pub open spec fn scan_lines(ls: Seq<Seq<char>>) -> EntryScan
    decreases ls.len(),
{
    if ls.len() == 0 {
        EntryScan { in_section: false, name: None, icon: None, wm_class: None, hidden: false }
    } else {
        scan_line(scan_lines(ls.drop_last()), ls.last())
    }
}

/// The entry a desktop file describes: none when hidden or without both a name and an
/// icon.
pub open spec fn desktop_entry_spec(content: Seq<char>) -> Option<DesktopEntryView> {
    let st = scan_lines(lines_spec(content));
    if st.hidden {
        None
    } else {
        match (st.name, st.icon) {
            (Some(n), Some(i)) => Some(DesktopEntryView { name: n, icon: i, startup_wm_class: st.wm_class }),
            _ => None,
        }
    }
}

fn eq_ignore_ascii_case_exec(a: &Vec<char>, b: &Vec<char>) -> (r: bool)
    ensures
        r == eq_ignore_ascii_case(a@, b@),
{
    if a.len() != b.len() {
        return false;
    }
    let mut i: usize = 0;
    while i < a.len()
        invariant
            i <= a@.len(),
            a@.len() == b@.len(),
            forall|k: int| 0 <= k < i ==> ascii_lower(#[trigger] a@[k]) == ascii_lower(b@[k]),
        decreases a@.len() - i,
    {
        let x = a[i];
        let y = b[i];
        let lx = if 'A' <= x && x <= 'Z' {
            ((x as u32) + 32) as u8 as char
        } else {
            x
        };
        let ly = if 'A' <= y && y <= 'Z' {
            ((y as u32) + 32) as u8 as char
        } else {
            y
        };
        if lx != ly {
            assert(ascii_lower(a@[i as int]) != ascii_lower(b@[i as int]));
            return false;
        }
        i = i + 1;
    }
    true
}

/// Parses the text of a `.desktop` file; see `desktop_entry_spec`.
pub fn parse_desktop_content(content: &str) -> (r: Option<DesktopEntry>)
    ensures
        opt_entry_view(r) == desktop_entry_spec(content@),
{
    let chars = chars_of(content);
    let lines = lines_of(&chars);
    let ghost ls = vviews(lines@);
    let mut in_section = false;
    let mut name: Option<String> = None;
    let mut icon: Option<String> = None;
    let mut wm_class: Option<String> = None;
    let mut hidden = false;
    let header = chars_of("[Desktop Entry]");
    let k_name = chars_of("Name");
    let k_icon = chars_of("Icon");
    let k_wm = chars_of("StartupWMClass");
    let k_hidden = chars_of("Hidden");
    let v_true = chars_of("true");
    for li in 0..lines.len()
        invariant
            ls == vviews(lines@),
            ls == lines_spec(content@),
            header@ == "[Desktop Entry]"@,
            k_name@ == "Name"@,
            k_icon@ == "Icon"@,
            k_wm@ == "StartupWMClass"@,
            k_hidden@ == "Hidden"@,
            v_true@ == "true"@,
            scan_lines(ls.subrange(0, li as int)) == (EntryScan {
                in_section,
                name: match name {
                    Some(s) => Some(s@),
                    None => None,
                },
                icon: match icon {
                    Some(s) => Some(s@),
                    None => None,
                },
                wm_class: match wm_class {
                    Some(s) => Some(s@),
                    None => None,
                },
                hidden,
            }),
    {
        proof {
            assert(ls.subrange(0, li as int + 1).drop_last() =~= ls.subrange(0, li as int));
        }
        let t = trim_chars(&lines[li]);
        if t.len() == 0 || t[0] == '#' {
        } else if t[0] == '[' && t[t.len() - 1] == ']' {
            in_section = chars_eq(&t, &header);
        } else if in_section {
            let mut e: usize = 0;
            proof {
                lemma_find_char(t@, '=', 0);
            }
            while e < t.len() && t[e] != '='
                invariant
                    e <= t@.len(),
                    forall|m: int| 0 <= m < e ==> t@[m] != '=',
                decreases t@.len() - e,
            {
                e = e + 1;
            }
            if e < t.len() {
                proof {
                    let k = find_char(t@, '=', 0);
                    if k != Some(e as int) {
                        assert(k matches Some(kk) && kk < e);
                    }
                }
                let key_raw = crate::text::slice_chars(t.as_slice(), 0, e);
                let key = trim_chars(&key_raw);
                let val_raw = crate::text::slice_chars(t.as_slice(), e + 1, t.len());
                let val = trim_chars(&val_raw);
                let val_s = string_from_chars(&val);
                if chars_eq(&key, &k_name) && name.is_none() {
                    name = Some(unescape_desktop_val(val_s.as_str()));
                } else if chars_eq(&key, &k_icon) && icon.is_none() {
                    icon = Some(unescape_desktop_val(val_s.as_str()));
                } else if chars_eq(&key, &k_wm) && wm_class.is_none() {
                    wm_class = Some(unescape_desktop_val(val_s.as_str()));
                } else if chars_eq(&key, &k_hidden) && eq_ignore_ascii_case_exec(&val, &v_true) {
                    hidden = true;
                }
            } else {
                proof {
                    assert(find_char(t@, '=', 0) is None);
                }
            }
        }
    }
    proof {
        assert(ls.subrange(0, lines@.len() as int) =~= ls);
    }
    if hidden {
        return None;
    }
    match (name, icon) {
        (Some(n), Some(i)) => Some(DesktopEntry { name: n, icon: i, startup_wm_class: wm_class }),
        _ => None,
    }
}

// ---------------------------------------------------------------------------
// File names for an application id
// ---------------------------------------------------------------------------

/// Position of the last `c` of `t` before `j`.
pub open spec fn rfind_char(t: Seq<char>, c: char, j: int) -> Option<int>
    decreases j,
{
    if j <= 0 || j > t.len() {
        None
    } else if t[j - 1] == c {
        Some(j - 1)
    } else {
        rfind_char(t, c, j - 1)
    }
}

/// `id` without a `.desktop` suffix.
pub open spec fn base_id(id: Seq<char>) -> Seq<char> {
    if has_suffix(id, ".desktop"@) {
        id.subrange(0, id.len() - 8)
    } else {
        id
    }
}

/// The last dot-separated part of the id (without `.desktop`), lower-cased: the
/// application name of a reverse-DNS id such as `org.gnome.Calculator`.
pub open spec fn reverse_dns_suffix_spec(id: Seq<char>) -> Seq<char> {
    let b = base_id(id);
    match rfind_char(b, '.', b.len() as int) {
        Some(k) => lowercase_of(b.subrange(k + 1, b.len() as int)),
        None => lowercase_of(b),
    }
}

/// The application name of a reverse-DNS desktop id; see `reverse_dns_suffix_spec`.
pub fn reverse_dns_suffix(id: &str) -> (r: String)
    ensures
        r@ == reverse_dns_suffix_spec(id@),
{
    proof {
        reveal_strlit(".desktop");
    }
    let v = chars_of(id);
    let suffix = chars_of(".desktop");
    let b = if ends_with(&v, &suffix) {
        crate::text::slice_chars(v.as_slice(), 0, v.len() - 8)
    } else {
        v
    };
    let mut j: usize = b.len();
    while j > 0 && b[j - 1] != '.'
        invariant
            j <= b@.len(),
            rfind_char(b@, '.', b@.len() as int) == rfind_char(b@, '.', j as int),
        decreases j,
    {
        j = j - 1;
    }
    let part = if j > 0 {
        crate::text::slice_chars(b.as_slice(), j, b.len())
    } else {
        b
    };
    let ps = string_from_chars(&part);
    to_lowercase(ps.as_str())
}

/// The file names a desktop id may have: the exact file name, and, compared without
/// case, the lower-cased name, the lower-cased id with spaces as hyphens, and the
/// reverse-DNS application name.
pub struct DesktopCandidates {
    pub filename: String,
    pub lower_name: String,
    pub hyphenated: String,
    pub stripped_filename: String,
}

pub open spec fn with_desktop(s: Seq<char>) -> Seq<char> {
    s + ".desktop"@
}

pub open spec fn spaces_to_hyphens(s: Seq<char>) -> Seq<char> {
    s.map_values(|c: char| if c == ' ' { '-' } else { c })
}

pub open spec fn filename_spec(id: Seq<char>) -> Seq<char> {
    if has_suffix(id, ".desktop"@) {
        id
    } else {
        with_desktop(id)
    }
}

/// The candidate names of `id`.
pub fn desktop_candidates(id: &str) -> (r: DesktopCandidates)
    ensures
        r.filename@ == filename_spec(id@),
        r.lower_name@ == lowercase_of(filename_spec(id@)),
        r.hyphenated@ == with_desktop(spaces_to_hyphens(lowercase_of(id@))),
        r.stripped_filename@ == with_desktop(reverse_dns_suffix_spec(id@)),
{
    let v = chars_of(id);
    let suffix = chars_of(".desktop");
    let filename = if ends_with(&v, &suffix) {
        id.to_owned()
    } else {
        let mut f = v.clone();
        push_str_chars(&mut f, ".desktop");
        string_from_chars(&f)
    };
    let lower_name = to_lowercase(filename.as_str());
    let lid = to_lowercase(id);
    let lv = chars_of(lid.as_str());
    let mut h: Vec<char> = Vec::new();
    for i in 0..lv.len()
        invariant
            h@ == spaces_to_hyphens(lv@.subrange(0, i as int)),
    {
        h.push(if lv[i] == ' ' {
            '-'
        } else {
            lv[i]
        });
        assert(h@ =~= spaces_to_hyphens(lv@.subrange(0, i as int + 1)));
    }
    assert(lv@.subrange(0, lv@.len() as int) =~= lv@);
    push_str_chars(&mut h, ".desktop");
    let stripped = reverse_dns_suffix(id);
    let mut sv = chars_of(stripped.as_str());
    push_str_chars(&mut sv, ".desktop");
    DesktopCandidates {
        filename,
        lower_name,
        hyphenated: string_from_chars(&h),
        stripped_filename: string_from_chars(&sv),
    }
}

/// Whether a file met while listing a directory is a fallback match for the candidates:
/// its name, lower-cased, is one of the three compared names.
pub fn is_fallback_match(c: &DesktopCandidates, file_name: &str) -> (r: bool)
    ensures
        r == (lowercase_of(file_name@) == c.lower_name@ || lowercase_of(file_name@) == c.hyphenated@
            || lowercase_of(file_name@) == c.stripped_filename@),
{
    let l = to_lowercase(file_name);
    let lv = chars_of(l.as_str());
    chars_eq(&lv, &chars_of(c.lower_name.as_str())) || chars_eq(&lv, &chars_of(c.hyphenated.as_str())) || chars_eq(
        &lv,
        &chars_of(c.stripped_filename.as_str()),
    )
}

// ---------------------------------------------------------------------------
// Application name and icon of an incoming notification
// ---------------------------------------------------------------------------

/// The desktop entry named by the `desktop-entry` hint is looked up: there is such a
/// hint, and the name or the icon is still missing (after the raw image).
pub open spec fn hint_lookup_made(app: Seq<char>, icon: Seq<char>, desktop_hint: Option<Seq<char>>) -> bool {
    desktop_hint is Some && (icon.len() == 0 || app.len() == 0)
}

/// Name and icon after the desktop-entry hint's entry `by_hint` fills what is missing.
pub open spec fn after_hint(
    app: Seq<char>,
    icon: Seq<char>,
    desktop_hint: Option<Seq<char>>,
    by_hint: Option<DesktopEntryView>,
) -> (Seq<char>, Seq<char>) {
    if hint_lookup_made(app, icon, desktop_hint) {
        match by_hint {
            Some(e) => (
                if app.len() == 0 {
                    e.name
                } else {
                    app
                },
                if icon.len() == 0 {
                    e.icon
                } else {
                    icon
                },
            ),
            None => (app, icon),
        }
    } else {
        (app, icon)
    }
}

/// The application's own desktop entry is looked up: the icon is still missing and the
/// name is known.
pub open spec fn app_lookup_made(app: Seq<char>, icon: Seq<char>) -> bool {
    icon.len() == 0 && app.len() > 0
}

/// The application name and icon of an incoming notification. The icon is, in order of
/// preference: the decoded raw image (`raw_image`, its memo key), the given icon, the
/// icon of the desktop entry the `desktop-entry` hint names (`by_hint`, which also
/// supplies a missing name), the icon of the application's own desktop entry
/// (`by_app`), the `image-path` hint.
pub open spec fn identity_spec(
    app: Seq<char>,
    icon: Seq<char>,
    raw_image: Option<Seq<char>>,
    desktop_hint: Option<Seq<char>>,
    image_path: Option<Seq<char>>,
    by_hint: Option<DesktopEntryView>,
    by_app: Option<DesktopEntryView>,
) -> (Seq<char>, Seq<char>) {
    let icon1 = match raw_image {
        Some(k) => k,
        None => icon,
    };
    let (app2, icon2) = after_hint(app, icon1, desktop_hint, by_hint);
    let icon3 = if app_lookup_made(app2, icon2) {
        match by_app {
            Some(e) => e.icon,
            None => icon2,
        }
    } else {
        icon2
    };
    let icon4 = if icon3.len() == 0 {
        match image_path {
            Some(p) => p,
            None => icon3,
        }
    } else {
        icon3
    };
    (app2, icon4)
}

/// `x` is what `lookup` may return for some string holding `arg`.
pub open spec fn looked_up<F: Fn(&str) -> Option<DesktopEntry>>(lookup: F, arg: Seq<char>, x: Option<DesktopEntry>) -> bool {
    exists|s: &str| s@ == arg && #[trigger] lookup.ensures((s,), x)
}

/// `r` is the name and icon resolved when `lookup` answered `by_hint` for the hint's
/// entry and `by_app` for the application's own (each when that lookup is made).
pub open spec fn resolved_by<F: Fn(&str) -> Option<DesktopEntry>>(
    lookup: F,
    app: Seq<char>,
    icon: Seq<char>,
    raw_image: Option<Seq<char>>,
    desktop_hint: Option<Seq<char>>,
    image_path: Option<Seq<char>>,
    by_hint: Option<DesktopEntry>,
    by_app: Option<DesktopEntry>,
    r: (Seq<char>, Seq<char>),
) -> bool {
    let icon1 = match raw_image {
        Some(k) => k,
        None => icon,
    };
    let (app2, icon2) = after_hint(app, icon1, desktop_hint, opt_entry_view(by_hint));
    &&& hint_lookup_made(app, icon1, desktop_hint) ==> looked_up(lookup, desktop_hint.unwrap(), by_hint)
    &&& app_lookup_made(app2, icon2) ==> looked_up(lookup, app2, by_app)
    &&& r == identity_spec(
        app,
        icon,
        raw_image,
        desktop_hint,
        image_path,
        opt_entry_view(by_hint),
        opt_entry_view(by_app),
    )
}

/// Resolves the application name and icon of an incoming notification; `lookup` finds
/// the desktop entry of a desktop id or application name. See `identity_spec`: each
/// lookup it makes is one `lookup` call.
pub fn resolve_identity<F: Fn(&str) -> Option<DesktopEntry>>(
    app_name: String,
    app_icon: String,
    raw_image: Option<String>,
    desktop_hint: Option<String>,
    image_path: Option<String>,
    lookup: &F,
) -> (r: (String, String))
    requires
        forall|s: &str| lookup.requires((s,)),
    ensures
        exists|by_hint: Option<DesktopEntry>, by_app: Option<DesktopEntry>|
            #[trigger] resolved_by(
                *lookup,
                app_name@,
                app_icon@,
                opt_str_view(raw_image),
                opt_str_view(desktop_hint),
                opt_str_view(image_path),
                by_hint,
                by_app,
                (r.0@, r.1@),
            ),
{
    let ghost hint = match &desktop_hint {
        Some(h) => Some(h@),
        None => None::<Seq<char>>,
    };
    let mut app = app_name;
    let mut icon = match raw_image {
        Some(k) => k,
        None => app_icon,
    };
    let ghost icon1 = icon@;
    let mut by_hint: Option<DesktopEntry> = None;
    if icon.as_str().is_empty() || app.as_str().is_empty() {
        match &desktop_hint {
            Some(h) => {
                let x = lookup(h.as_str());
                proof {
                    assert(looked_up(*lookup, h@, x));
                }
                match &x {
                    Some(e) => {
                        if app.as_str().is_empty() {
                            app = e.name.clone();
                        }
                        if icon.as_str().is_empty() {
                            icon = e.icon.clone();
                        }
                    },
                    None => {},
                }
                by_hint = x;
            },
            None => {},
        }
    }
    let ghost app2 = app@;
    let ghost icon2 = icon@;
    assert((app2, icon2) == after_hint(app_name@, icon1, hint, opt_entry_view(by_hint)));
    let mut by_app: Option<DesktopEntry> = None;
    if icon.as_str().is_empty() && !app.as_str().is_empty() {
        let x = lookup(app.as_str());
        proof {
            assert(looked_up(*lookup, app@, x));
        }
        match &x {
            Some(e) => {
                icon = e.icon.clone();
            },
            None => {},
        }
        by_app = x;
    }
    if icon.as_str().is_empty() {
        match image_path {
            Some(p) => {
                icon = p;
            },
            None => {},
        }
    }
    let r = (app, icon);
    proof {
        assert(hint == opt_str_view(desktop_hint));
        assert(resolved_by(
            *lookup,
            app_name@,
            app_icon@,
            opt_str_view(raw_image),
            opt_str_view(desktop_hint),
            opt_str_view(image_path),
            by_hint,
            by_app,
            (r.0@, r.1@),
        ));
    }
    r
}

// ---------------------------------------------------------------------------
// Where desktop files are
// ---------------------------------------------------------------------------

/// The `applications` folders of the data directories listed in an `XDG_DATA_DIRS`
/// value: its non-empty `:`-separated entries, in order, each joined with
/// `applications`.
pub fn xdg_application_dirs(xdg_data_dirs: &str) -> (r: Vec<String>)
    ensures
        r@.len() == nonempty_fields(xdg_data_dirs@, ':').len(),
        forall|i: int|
            0 <= i < r@.len() ==> #[trigger] r@[i]@ == join_path(
                nonempty_fields(xdg_data_dirs@, ':')[i],
                "applications"@,
            ),
{
    let parts = split_nonempty(xdg_data_dirs, ':');
    let ghost f = nonempty_fields(xdg_data_dirs@, ':');
    assert(parts@.len() == f.len()) by {
        assert(parts@.map_values(|x: String| x@).len() == parts@.len());
    }
    let mut r: Vec<String> = Vec::new();
    for i in 0..parts.len()
        invariant
            parts@.map_values(|x: String| x@) == f,
            parts@.len() == f.len(),
            r@.len() == i,
            forall|j: int| 0 <= j < i ==> #[trigger] r@[j]@ == join_path(f[j], "applications"@),
    {
        assert(parts@.map_values(|x: String| x@)[i as int] == parts@[i as int]@);
        r.push(join_path_exec(parts[i].as_str(), "applications"));
    }
    r
}

// ---------------------------------------------------------------------------
// Memo of lookups
// ---------------------------------------------------------------------------

/// Entries remembered before the memo is emptied.
pub const MAX_DESKTOP_CACHE: usize = 256;

/// Results of earlier lookups, misses included, by trimmed id; no id occurs twice.
pub struct DesktopCache {
    entries: Vec<(String, Option<DesktopEntry>)>,
}

pub open spec fn cache_entries_view(s: Seq<(String, Option<DesktopEntry>)>) -> Seq<(Seq<char>, Option<DesktopEntryView>)> {
    s.map_values(|e: (String, Option<DesktopEntry>)| (e.0@, opt_entry_view(e.1)))
}

/// The id of an entry of the memo, when there is one.
pub open spec fn cache_get(c: Seq<(Seq<char>, Option<DesktopEntryView>)>, k: Seq<char>) -> Option<Option<DesktopEntryView>> {
    if exists|i: int| 0 <= i < c.len() && c[i].0 == k {
        Some(c[choose|i: int| 0 <= i < c.len() && c[i].0 == k].1)
    } else {
        None
    }
}

impl View for DesktopCache {
    type V = Seq<(Seq<char>, Option<DesktopEntryView>)>;

    closed spec fn view(&self) -> Self::V {
        cache_entries_view(self.entries@)
    }
}

impl DesktopCache {
    /// No id is remembered twice, and the memo is within its size.
    pub open spec fn wf(&self) -> bool {
        &&& forall|i: int, j: int| 0 <= i < j < self@.len() ==> (#[trigger] self@[i]).0 != (#[trigger] self@[j]).0
        &&& self@.len() <= MAX_DESKTOP_CACHE
    }

    pub fn new() -> (r: Self)
        ensures
            r.wf(),
            r@.len() == 0,
    {
        let r = DesktopCache { entries: Vec::new() };
        assert(r@ =~= Seq::<(Seq<char>, Option<DesktopEntryView>)>::empty());
        r
    }

    fn find(&self, key: &Vec<char>) -> (r: Option<usize>)
        ensures
            r matches Some(i) ==> i < self@.len() && self@[i as int].0 == key@,
            r is None ==> forall|i: int| 0 <= i < self@.len() ==> self@[i].0 != key@,
    {
        let n = self.entries.len();
        for i in 0..n
            invariant
                n == self.entries@.len(),
                self@.len() == n,
                forall|j: int| 0 <= j < i ==> self@[j].0 != key@,
        {
            let k = chars_of(self.entries[i].0.as_str());
            if chars_eq(&k, key) {
                return Some(i);
            }
        }
        None
    }
}

/// The memo after a miss for `k` resolved to `r`: emptied first when full.
pub open spec fn cache_after_miss(
    c: Seq<(Seq<char>, Option<DesktopEntryView>)>,
    k: Seq<char>,
    r: Option<DesktopEntryView>,
) -> Seq<(Seq<char>, Option<DesktopEntryView>)> {
    if c.len() >= MAX_DESKTOP_CACHE {
        seq![(k, r)]
    } else {
        c.push((k, r))
    }
}

/// Law: a miss, once remembered, is found by the next lookup of the same id, which then
/// returns what the miss resolved without resolving again; the result remembered for
/// another id stays, unless the memo was full and emptied.
pub proof fn lemma_memo_remembers(
    c: Seq<(Seq<char>, Option<DesktopEntryView>)>,
    k: Seq<char>,
    r: Option<DesktopEntryView>,
    k2: Seq<char>,
)
    requires
        cache_get(c, k) is None,
        forall|i: int, j: int| 0 <= i < j < c.len() ==> c[i].0 != c[j].0,
    ensures
        cache_get(cache_after_miss(c, k, r), k) == Some(r),
        k2 != k ==> cache_get(cache_after_miss(c, k, r), k2) == (if c.len() >= MAX_DESKTOP_CACHE {
            None
        } else {
            cache_get(c, k2)
        }),
{
    let d = cache_after_miss(c, k, r);
    if c.len() >= MAX_DESKTOP_CACHE {
        assert(d[0].0 == k);
    } else {
        let n = c.len() as int;
        assert(d[n].0 == k);
        let i = choose|i: int| 0 <= i < d.len() && d[i].0 == k;
        if i < n {
            assert(c[i].0 == k);
        }
        if k2 != k && cache_get(c, k2) is Some {
            let j = choose|j: int| 0 <= j < c.len() && c[j].0 == k2;
            assert(d[j].0 == k2);
            let j2 = choose|j2: int| 0 <= j2 < d.len() && d[j2].0 == k2;
            if j2 != j {
                assert(j2 < n);
                if j < j2 {
                    assert(c[j].0 != c[j2].0);
                } else {
                    assert(c[j2].0 != c[j].0);
                }
            }
        }
        if k2 != k && cache_get(d, k2) is Some {
            let j2 = choose|j2: int| 0 <= j2 < d.len() && d[j2].0 == k2;
            assert(c[j2].0 == k2);
        }
    }
}

/// Looks up the desktop entry of an application name or desktop id. An empty id has
/// none. The id is trimmed; a remembered result is returned as it was; else `resolve`
/// searches the disk, and its result (a miss too) is remembered, so the next lookup of
/// the same id finds it (unless the memo is emptied in between, when full).
pub fn lookup_desktop_entry<F: Fn(&str) -> Option<DesktopEntry>>(
    cache: &mut DesktopCache,
    id: &str,
    resolve: &F,
) -> (r: Option<DesktopEntry>)
    requires
        old(cache).wf(),
        forall|s: &str| resolve.requires((s,)),
    ensures
        final(cache).wf(),
        id@.len() == 0 ==> r is None && final(cache)@ == old(cache)@,
        id@.len() > 0 && cache_get(old(cache)@, trim_spec(id@)) is Some ==> opt_entry_view(r) == cache_get(
            old(cache)@,
            trim_spec(id@),
        ).unwrap() && final(cache)@ == old(cache)@,
        id@.len() > 0 && cache_get(old(cache)@, trim_spec(id@)) is None ==> exists|s: &str, x: Option<DesktopEntry>|
            s@ == trim_spec(id@) && resolve.ensures((s,), x) && opt_entry_view(r) == opt_entry_view(x)
                && final(cache)@ == cache_after_miss(old(cache)@, trim_spec(id@), opt_entry_view(x)),
        id@.len() > 0 ==> cache_get(final(cache)@, trim_spec(id@)) == Some(opt_entry_view(r)),
{
    if id.is_empty() {
        return None;
    }
    let v = chars_of(id);
    let clean = trim_chars(&v);
    match cache.find(&clean) {
        Some(i) => {
            proof {
                let c = cache@;
                let k = trim_spec(id@);
                assert(c[i as int].0 == k);
                let j = choose|j: int| 0 <= j < c.len() && c[j].0 == k;
                if j != i as int {
                    if j < i {
                        assert(c[j].0 != c[i as int].0);
                    } else {
                        assert(c[i as int].0 != c[j].0);
                    }
                }
            }
            match &cache.entries[i].1 {
                Some(e) => Some(e.clone()),
                None => None,
            }
        },
        None => {
            let clean_s = string_from_chars(&clean);
            let arg: &str = clean_s.as_str();
            let result = resolve(arg);
            let ghost before = cache@;
            if cache.entries.len() >= MAX_DESKTOP_CACHE {
                cache.entries.clear();
            }
            let kept = match &result {
                Some(e) => Some(e.clone()),
                None => None,
            };
            cache.entries.push((clean_s, kept));
            proof {
                assert(cache@ =~= cache_after_miss(before, trim_spec(id@), opt_entry_view(result)));
                assert(arg@ == trim_spec(id@));
                assert(resolve.ensures((arg,), result));
                lemma_memo_remembers(before, trim_spec(id@), opt_entry_view(result), trim_spec(id@));
            }
            result
        },
    }
}

} // verus!
