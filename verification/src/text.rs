//! Character-level string utilities with exact specifications.
use vstd::prelude::*;

verus! {

/// The characters of `s`, in order.
pub fn chars_of(s: &str) -> (v: Vec<char>)
    ensures
        v@ == s@,
{
    broadcast use vstd::string::group_string_axioms;

    let mut v: Vec<char> = Vec::new();
    for c in it: s.chars()
        invariant
            v@ == it.seq().take(it.index() as int),
            it.seq() == s@,
    {
        v.push(c);
    }
    v
}

/// Builds a `String` holding exactly the characters of `v`.
/// Collects the characters with `String`'s `FromIterator<&char>` (std), which builds
/// the string of the iterated characters in order.
#[verifier::external_body]
pub(crate) fn string_from_chars(v: &[char]) -> (s: String)
    ensures
        s@ == v@,
{
    v.iter().collect()
}

/// The Unicode `White_Space` property, which `char::is_whitespace` tests.
pub open spec fn is_white(c: char) -> bool {
    ||| ('\u{9}' <= c && c <= '\u{d}')
    ||| c == ' '
    ||| c == '\u{85}'
    ||| c == '\u{a0}'
    ||| c == '\u{1680}'
    ||| ('\u{2000}' <= c && c <= '\u{200a}')
    ||| c == '\u{2028}'
    ||| c == '\u{2029}'
    ||| c == '\u{202f}'
    ||| c == '\u{205f}'
    ||| c == '\u{3000}'
}

pub fn is_whitespace(c: char) -> (b: bool)
    ensures
        b == is_white(c),
{
    ('\u{9}' <= c && c <= '\u{d}') || c == ' ' || c == '\u{85}' || c == '\u{a0}' || c
        == '\u{1680}' || ('\u{2000}' <= c && c <= '\u{200a}') || c == '\u{2028}' || c
        == '\u{2029}' || c == '\u{202f}' || c == '\u{205f}' || c == '\u{3000}'
}

/// Number of leading white-space characters of `s`.
pub open spec fn lead_ws(s: Seq<char>) -> nat
    decreases s.len(),
{
    if s.len() > 0 && is_white(s[0]) {
        1 + lead_ws(s.drop_first())
    } else {
        0
    }
}

/// Number of trailing white-space characters of `s`.
pub open spec fn trail_ws(s: Seq<char>) -> nat
    decreases s.len(),
{
    if s.len() > 0 && is_white(s.last()) {
        1 + trail_ws(s.drop_last())
    } else {
        0
    }
}

/// `s` with leading and trailing white space removed (what `str::trim` returns).
pub open spec fn trim_spec(s: Seq<char>) -> Seq<char> {
    let a = lead_ws(s) as int;
    let rest = s.subrange(a, s.len() as int);
    rest.subrange(0, rest.len() - trail_ws(rest))
}

pub proof fn lemma_lead_ws(s: Seq<char>)
    ensures
        lead_ws(s) <= s.len(),
        forall|i: int| 0 <= i < lead_ws(s) ==> is_white(#[trigger] s[i]),
        lead_ws(s) < s.len() ==> !is_white(s[lead_ws(s) as int]),
    decreases s.len(),
{
    if s.len() > 0 && is_white(s[0]) {
        lemma_lead_ws(s.drop_first());
        assert forall|i: int| 0 <= i < lead_ws(s) implies is_white(#[trigger] s[i]) by {
            if i > 0 {
                assert(s[i] == s.drop_first()[i - 1]);
            }
        }
    }
}

pub proof fn lemma_trail_ws(s: Seq<char>)
    ensures
        trail_ws(s) <= s.len(),
        forall|i: int| s.len() - trail_ws(s) <= i < s.len() ==> is_white(#[trigger] s[i]),
        trail_ws(s) < s.len() ==> !is_white(s[s.len() - trail_ws(s) - 1]),
    decreases s.len(),
{
    if s.len() > 0 && is_white(s.last()) {
        lemma_trail_ws(s.drop_last());
        assert forall|i: int| s.len() - trail_ws(s) <= i < s.len() implies is_white(
            #[trigger] s[i],
        ) by {
            if i < s.len() - 1 {
                assert(s[i] == s.drop_last()[i]);
            }
        }
    }
}

/// Characters `lo..hi` of `v` (each kept).
pub fn slice_chars(v: &[char], lo: usize, hi: usize) -> (r: Vec<char>)
    requires
        lo <= hi <= v@.len(),
    ensures
        r@ == v@.subrange(lo as int, hi as int),
{
    let mut r: Vec<char> = Vec::new();
    let mut i = lo;
    while i < hi
        invariant
            lo <= i <= hi <= v@.len(),
            r@ == v@.subrange(lo as int, i as int),
        decreases hi - i,
    {
        r.push(v[i]);
        i += 1;
    }
    r
}

/// What `str::trim` returns, on characters.
pub fn trim_chars(v: &[char]) -> (r: Vec<char>)
    ensures
        r@ == trim_spec(v@),
{
    proof {
        lemma_lead_ws(v@);
    }
    let mut a: usize = 0;
    while a < v.len() && is_whitespace(v[a])
        invariant
            a <= v@.len(),
            a <= lead_ws(v@),
            lead_ws(v@) <= v@.len(),
            lead_ws(v@) < v@.len() ==> !is_white(v@[lead_ws(v@) as int]),
            forall|i: int| 0 <= i < a ==> is_white(#[trigger] v@[i]),
        decreases v@.len() - a,
    {
        a += 1;
    }
    proof {
        if a < lead_ws(v@) {
            assert(is_white(v@[a as int]));
        }
    }
    let ghost rest = v@.subrange(a as int, v@.len() as int);
    proof {
        lemma_trail_ws(rest);
    }
    let mut b: usize = v.len();
    while b > a && is_whitespace(v[b - 1])
        invariant
            a <= b <= v@.len(),
            rest == v@.subrange(a as int, v@.len() as int),
            v@.len() - b <= trail_ws(rest),
            trail_ws(rest) <= rest.len(),
            trail_ws(rest) < rest.len() ==> !is_white(rest[rest.len() - trail_ws(rest) - 1]),
            forall|i: int| b <= i < v@.len() ==> is_white(#[trigger] v@[i]),
        decreases b,
    {
        proof {
            if v@.len() - b == trail_ws(rest) {
                assert(rest[rest.len() - trail_ws(rest) - 1] == v@[b - 1]);
            }
        }
        b -= 1;
    }
    proof {
        if v@.len() - b < trail_ws(rest) {
            assert(rest[b - 1 - a] == v@[b - 1]);
        }
    }
    let r = slice_chars(v, a, b);
    assert(r@ =~= trim_spec(v@));
    r
}

/// Every line-feed of `s` replaced by a space.
pub open spec fn newlines_to_spaces(s: Seq<char>) -> Seq<char> {
    Seq::new(s.len(), |i: int| if s[i] == '\n' { ' ' } else { s[i] })
}

pub fn replace_newlines(v: &[char]) -> (r: Vec<char>)
    ensures
        r@ == newlines_to_spaces(v@),
{
    let mut r: Vec<char> = Vec::new();
    for i in 0..v.len()
        invariant
            r@ =~= newlines_to_spaces(v@.subrange(0, i as int)),
    {
        if v[i] == '\n' {
            r.push(' ');
        } else {
            r.push(v[i]);
        }
        assert(newlines_to_spaces(v@.subrange(0, i + 1)) =~= newlines_to_spaces(
            v@.subrange(0, i as int),
        ).push(r@.last()));
    }
    assert(v@.subrange(0, v@.len() as int) =~= v@);
    r
}

/// `s` ends with `p`.
pub open spec fn has_suffix(s: Seq<char>, p: Seq<char>) -> bool {
    p.len() <= s.len() && s.subrange(s.len() - p.len(), s.len() as int) == p
}

/// Whether `s` ends with `p`; see `has_suffix`.
pub fn ends_with(s: &[char], p: &[char]) -> (r: bool)
    ensures
        r == has_suffix(s@, p@),
{
    if p.len() > s.len() {
        return false;
    }
    let tail = slice_chars(s, s.len() - p.len(), s.len());
    chars_eq(&tail, p)
}

/// Splitting `s` at each `c`, as far as it goes: the non-empty fields completed so
/// far, and the field being read.
pub open spec fn fields_so_far(s: Seq<char>, c: char) -> (Seq<Seq<char>>, Seq<char>)
    decreases s.len(),
{
    if s.len() == 0 {
        (Seq::empty(), Seq::empty())
    } else {
        let (done, cur) = fields_so_far(s.drop_last(), c);
        if s.last() == c {
            (if cur.len() > 0 { done.push(cur) } else { done }, Seq::empty())
        } else {
            (done, cur.push(s.last()))
        }
    }
}

/// The non-empty fields of `s` separated by `c`, in order.
pub open spec fn nonempty_fields(s: Seq<char>, c: char) -> Seq<Seq<char>> {
    let (done, cur) = fields_so_far(s, c);
    if cur.len() > 0 {
        done.push(cur)
    } else {
        done
    }
}

/// The non-empty fields of `s` separated by `c`; see `nonempty_fields`.
pub fn split_nonempty(s: &str, c: char) -> (r: Vec<String>)
    ensures
        r@.map_values(|x: String| x@) == nonempty_fields(s@, c),
{
    let v = chars_of(s);
    let mut done: Vec<String> = Vec::new();
    let mut cur: Vec<char> = Vec::new();
    for i in 0..v.len()
        invariant
            (done@.map_values(|x: String| x@), cur@) == fields_so_far(v@.subrange(0, i as int), c),
    {
        proof {
            assert(v@.subrange(0, i as int + 1).drop_last() =~= v@.subrange(0, i as int));
        }
        if v[i] == c {
            if cur.len() > 0 {
                let ghost before = done@;
                done.push(string_from_chars(&cur));
                assert(done@.map_values(|x: String| x@) =~= before.map_values(|x: String| x@).push(cur@));
            }
            cur = Vec::new();
        } else {
            cur.push(v[i]);
        }
    }
    assert(v@.subrange(0, v@.len() as int) =~= v@);
    if cur.len() > 0 {
        let ghost before = done@;
        done.push(string_from_chars(&cur));
        assert(done@.map_values(|x: String| x@) =~= before.map_values(|x: String| x@).push(cur@));
    }
    done
}

/// Whether `p` is a prefix of `s`.
pub open spec fn is_prefix(p: Seq<char>, s: Seq<char>) -> bool {
    p.len() <= s.len() && s.subrange(0, p.len() as int) =~= p
}

pub fn starts_with(s: &[char], p: &[char]) -> (b: bool)
    ensures
        b == is_prefix(p@, s@),
{
    if p.len() > s.len() {
        return false;
    }
    let mut i: usize = 0;
    while i < p.len()
        invariant
            p@.len() <= s@.len(),
            i <= p@.len(),
            forall|j: int| 0 <= j < i ==> s@[j] == p@[j],
        decreases p@.len() - i,
    {
        if s[i] != p[i] {
            assert(s@.subrange(0, p@.len() as int)[i as int] != p@[i as int]);
            return false;
        }
        i += 1;
    }
    true
}

/// Whether `p` occurs in `s` starting at position `at`.
pub open spec fn occurs_at(s: Seq<char>, p: Seq<char>, at: int) -> bool {
    0 <= at && at + p.len() <= s.len() && s.subrange(at, at + p.len()) =~= p
}

/// Whether `p` occurs anywhere in `s` (what `str::contains` with a string pattern tests).
pub open spec fn contains_spec(s: Seq<char>, p: Seq<char>) -> bool {
    exists|at: int| occurs_at(s, p, at)
}

pub fn occurs_at_exec(s: &[char], p: &[char], at: usize) -> (b: bool)
    ensures
        b == occurs_at(s@, p@, at as int),
{
    if at > s.len() || p.len() > s.len() - at {
        return false;
    }
    let end = at + p.len();
    let mut i: usize = 0;
    while i < p.len()
        invariant
            end == at + p@.len(),
            end <= s@.len(),
            i <= p@.len(),
            forall|j: int| 0 <= j < i ==> s@[at + j] == p@[j],
        decreases p@.len() - i,
    {
        let k = at + i;
        if s[k] != p[i] {
            assert(s@.subrange(at as int, at + p@.len())[i as int] != p@[i as int]);
            return false;
        }
        i += 1;
    }
    assert(s@.subrange(at as int, at + p@.len()) =~= p@);
    true
}

pub fn contains(s: &[char], p: &[char]) -> (b: bool)
    ensures
        b == contains_spec(s@, p@),
{
    if p.len() > s.len() {
        assert forall|at: int| !occurs_at(s@, p@, at) by {}
        return false;
    }
    let mut at: usize = 0;
    while at <= s.len() - p.len()
        invariant
            p@.len() <= s@.len(),
            at <= s@.len() - p@.len() + 1,
            forall|k: int| 0 <= k < at ==> !occurs_at(s@, p@, k),
        decreases s@.len() - p@.len() + 1 - at,
    {
        if occurs_at_exec(s, p, at) {
            return true;
        }
        at += 1;
    }
    assert forall|k: int| !occurs_at(s@, p@, k) by {
        if 0 <= k && k + p@.len() <= s@.len() {
            assert(k < at);
        }
    }
    false
}

/// The decimal digit character for `d < 10`.
pub open spec fn digit_char(d: nat) -> char {
    ((d + 48) as u8) as char
}

/// Decimal representation of `n`, without leading zeros (what `u32::to_string` gives).
pub open spec fn decimal(n: nat) -> Seq<char>
    decreases n,
{
    if n < 10 {
        seq![digit_char(n)]
    } else {
        decimal(n / 10).push(digit_char(n % 10))
    }
}

proof fn lemma_decimal_len(n: nat)
    ensures
        decimal(n).len() >= 1,
        n >= 10 ==> decimal(n).len() >= 2,
    decreases n,
{
    if n >= 10 {
        lemma_decimal_len(n / 10);
    }
}

/// Law: different numbers have different decimal representations.
pub proof fn lemma_decimal_injective(a: nat, b: nat)
    requires
        decimal(a) == decimal(b),
    ensures
        a == b,
    decreases a,
{
    lemma_decimal_len(a);
    lemma_decimal_len(b);
    if a < 10 && b < 10 {
        assert(decimal(a) == seq![digit_char(a)]);
        assert(decimal(b) == seq![digit_char(b)]);
        assert(seq![digit_char(a)][0] == digit_char(a));
        assert(seq![digit_char(b)][0] == digit_char(b));
        assert(decimal(a)[0] == decimal(b)[0]);
        assert(digit_char(a) == digit_char(b));
        assert(digit_char(a) as int == a + 48);
        assert(digit_char(b) as int == b + 48);
    } else if a >= 10 && b >= 10 {
        let da = decimal(a / 10);
        let db = decimal(b / 10);
        assert(decimal(a).drop_last() =~= da);
        assert(decimal(b).drop_last() =~= db);
        assert(decimal(a).last() == digit_char(a % 10));
        assert(decimal(b).last() == digit_char(b % 10));
        assert(a % 10 == b % 10);
        lemma_decimal_injective(a / 10, b / 10);
    } else if a < 10 {
        assert(decimal(a).len() == 1);
    } else {
        assert(decimal(b).len() == 1);
    }
}

/// Appends the characters of `s` to `out`.
pub fn push_str_chars(out: &mut Vec<char>, s: &str)
    ensures
        final(out)@ == old(out)@ + s@,
{
    let cs = chars_of(s);
    let ghost base = out@;
    for i in 0..cs.len()
        invariant
            out@ == base + cs@.subrange(0, i as int),
    {
        out.push(cs[i]);
    }
    assert(cs@.subrange(0, cs@.len() as int) =~= cs@);
}

/// `n.to_string()` for a `u32`.
pub fn u32_to_decimal(n: u32) -> (s: String)
    ensures
        s@ == decimal(n as nat),
{
    u64_to_decimal(n as u64)
}

/// `n.to_string()` for a `u64`.
pub fn u64_to_decimal(n: u64) -> (s: String)
    ensures
        s@ == decimal(n as nat),
{
    let mut digits: Vec<char> = Vec::new();
    let mut m: u64 = n;
    // digits holds the decimal form of n % 10^k reversed; rebuilt below
    let ghost mut rest: nat = n as nat;
    loop
        invariant
            m as nat == rest,
            decimal(n as nat) == decimal(rest) + digits@,
        decreases m,
    {
        let d = (m % 10) as u8;
        let c = (d + 48) as char;
        if m < 10 {
            let mut out: Vec<char> = Vec::new();
            out.push(c);
            let mut i: usize = 0;
            while i < digits.len()
                invariant
                    i <= digits@.len(),
                    out@ == seq![c] + digits@.subrange(0, i as int),
                decreases digits@.len() - i,
            {
                out.push(digits[i]);
                i += 1;
            }
            assert(digits@.subrange(0, digits@.len() as int) =~= digits@);
            assert(decimal(rest) == seq![c]);
            assert(out@ =~= decimal(n as nat));
            return string_from_chars(&out);
        }
        let mut nd: Vec<char> = Vec::new();
        nd.push(c);
        let mut i: usize = 0;
        while i < digits.len()
            invariant
                i <= digits@.len(),
                nd@ == seq![c] + digits@.subrange(0, i as int),
            decreases digits@.len() - i,
        {
            nd.push(digits[i]);
            i += 1;
        }
        assert(digits@.subrange(0, digits@.len() as int) =~= digits@);
        proof {
            assert(decimal(rest) == decimal(rest / 10).push(digit_char(rest % 10)));
            assert(decimal(rest) + digits@ =~= decimal(rest / 10) + nd@);
            rest = rest / 10;
        }
        digits = nd;
        m = m / 10;
    }
}


pub open spec fn vviews(s: Seq<Vec<char>>) -> Seq<Seq<char>> {
    s.map_values(|v: Vec<char>| v@)
}

/// Position of the first line feed at or after `j`.
pub open spec fn next_newline(s: Seq<char>, j: int) -> Option<int>
    decreases s.len() - j,
{
    if j < 0 || j >= s.len() {
        None
    } else if s[j] == '\n' {
        Some(j)
    } else {
        next_newline(s, j + 1)
    }
}

pub proof fn lemma_next_newline(s: Seq<char>, j: int)
    requires
        0 <= j,
    ensures
        next_newline(s, j) matches Some(k) ==> j <= k < s.len() && s[k] == '\n' && forall|m: int| j <= m < k ==> s[m] != '\n',
        next_newline(s, j) is None ==> forall|m: int| j <= m < s.len() ==> s[m] != '\n',
    decreases s.len() - j,
{
    if j < s.len() && s[j] != '\n' {
        lemma_next_newline(s, j + 1);
    }
}

/// A line without its terminating carriage return, if any.
pub open spec fn drop_cr(l: Seq<char>) -> Seq<char> {
    if l.len() > 0 && l.last() == '\r' {
        l.drop_last()
    } else {
        l
    }
}

/// What `str::lines` yields: pieces split at `\n` (a `\r` just before it dropped);
/// a final line feed ends the last line instead of starting an empty one.
pub open spec fn lines_spec(s: Seq<char>) -> Seq<Seq<char>>
    decreases s.len(),
{
    if s.len() == 0 {
        Seq::empty()
    } else {
        match next_newline(s, 0) {
            None => seq![s],
            Some(k) => {
                if k + 1 <= s.len() && k >= 0 {
                    seq![drop_cr(s.subrange(0, k))] + lines_spec(s.subrange(k + 1, s.len() as int))
                } else {
                    Seq::empty()
                }
            },
        }
    }
}

/// The lines of `v`, as `str::lines` gives them.
pub fn lines_of(v: &[char]) -> (r: Vec<Vec<char>>)
    ensures
        vviews(r@) == lines_spec(v@),
{
    let mut out: Vec<Vec<char>> = Vec::new();
    let mut start: usize = 0;
    let n = v.len();
    assert(v@.subrange(0, n as int) =~= v@);
    assert(vviews(out@) + lines_spec(v@) =~= lines_spec(v@));
    while start < n
        invariant
            start <= n,
            n == v@.len(),
            lines_spec(v@) == vviews(out@) + lines_spec(v@.subrange(start as int, n as int)),
        decreases n - start,
    {
        let ghost rest = v@.subrange(start as int, n as int);
        proof {
            lemma_next_newline(rest, 0);
        }
        let mut k = start;
        while k < n && v[k] != '\n'
            invariant
                start <= k <= n,
                n == v@.len(),
                rest == v@.subrange(start as int, n as int),
                next_newline(rest, 0) == next_newline(rest, k - start),
            decreases n - k,
        {
            k += 1;
        }
        let ghost before = vviews(out@);
        if k == n {
            let line = slice_chars(v, start, n);
            out.push(line);
            proof {
                assert(next_newline(rest, (k - start) as int) is None);
                assert(lines_spec(rest) == seq![rest]);
                assert(vviews(out@) =~= before + seq![rest]);
                assert(v@.subrange(n as int, n as int) =~= Seq::<char>::empty());
                assert(lines_spec(Seq::<char>::empty()) == Seq::<Seq<char>>::empty());
                assert(vviews(out@) + Seq::<Seq<char>>::empty() =~= vviews(out@));
            }
            start = n;
        } else {
            let end = if k > start && v[k - 1] == '\r' {
                k - 1
            } else {
                k
            };
            let line = slice_chars(v, start, end);
            out.push(line);
            proof {
                assert(next_newline(rest, (k - start) as int) == Some((k - start) as int));
                assert(rest.subrange(0, (k - start) as int) =~= v@.subrange(start as int, k as int));
                assert(line@ =~= drop_cr(rest.subrange(0, (k - start) as int)));
                assert(rest.subrange((k - start) + 1, rest.len() as int) =~= v@.subrange(k + 1, n as int));
                assert(vviews(out@) =~= before + seq![line@]);
            }
            start = k + 1;
        }
    }
    proof {
        assert(v@.subrange(n as int, n as int) =~= Seq::<char>::empty());
        assert(vviews(out@) + Seq::<Seq<char>>::empty() =~= vviews(out@));
    }
    out
}

/// Pieces joined with `\n` between them (what `join("\n")` gives).
pub open spec fn join_lines_spec(parts: Seq<Seq<char>>) -> Seq<char>
    decreases parts.len(),
{
    if parts.len() == 0 {
        Seq::empty()
    } else if parts.len() == 1 {
        parts[0]
    } else {
        join_lines_spec(parts.drop_last()) + seq!['\n'] + parts.last()
    }
}

/// Joins `parts[from..]` with line feeds.
pub fn join_lines_from(parts: &Vec<Vec<char>>, from: usize) -> (r: Vec<char>)
    requires
        from <= parts@.len(),
    ensures
        r@ == join_lines_spec(vviews(parts@).subrange(from as int, parts@.len() as int)),
{
    let mut out: Vec<char> = Vec::new();
    let n = parts.len();
    let mut i = from;
    while i < n
        invariant
            from <= i <= n,
            n == parts@.len(),
            out@ == join_lines_spec(vviews(parts@).subrange(from as int, i as int)),
        decreases n - i,
    {
        let ghost prev = vviews(parts@).subrange(from as int, i as int);
        let ghost next = vviews(parts@).subrange(from as int, i + 1);
        assert(next.drop_last() =~= prev);
        if i > from {
            out.push('\n');
        }
        let ghost mid = out@;
        let part = &parts[i];
        let mut j: usize = 0;
        while j < part.len()
            invariant
                j <= part@.len(),
                out@ == mid + part@.subrange(0, j as int),
            decreases part@.len() - j,
        {
            out.push(part[j]);
            j += 1;
        }
        proof {
            assert(part@.subrange(0, part@.len() as int) =~= part@);
            assert(next.last() == part@);
            if i > from {
                assert(out@ =~= join_lines_spec(prev) + seq!['\n'] + part@);
            } else {
                assert(next =~= seq![part@]);
                assert(out@ =~= part@);
            }
        }
        i += 1;
    }
    out
}


/// Whether two character sequences are equal.
pub fn chars_eq(a: &[char], b: &[char]) -> (r: bool)
    ensures
        r == (a@ == b@),
{
    if a.len() != b.len() {
        return false;
    }
    let mut i: usize = 0;
    while i < a.len()
        invariant
            a@.len() == b@.len(),
            i <= a@.len(),
            forall|j: int| 0 <= j < i ==> a@[j] == b@[j],
        decreases a@.len() - i,
    {
        if a[i] != b[i] {
            return false;
        }
        i += 1;
    }
    assert(a@ =~= b@);
    true
}

// ---------------------------------------------------------------------------
// Lower-casing (std's `str::to_lowercase`)
// ---------------------------------------------------------------------------

/// The Unicode lower-case mapping of `s`, as `str::to_lowercase` computes it.
pub uninterp spec fn lowercase_of(s: Seq<char>) -> Seq<char>;

/// The lower case of an ASCII upper-case letter; any other character itself.
pub open spec fn ascii_lower(c: char) -> char {
    if 'A' <= c && c <= 'Z' {
        ((c as u32) + 32) as char
    } else {
        c
    }
}

/// Every character of `s` is ASCII.
pub open spec fn is_ascii_text(s: Seq<char>) -> bool {
    forall|i: int| 0 <= i < s.len() ==> (s[i] as u32) < 128
}

/// `s` with its ASCII letters in lower case.
pub open spec fn ascii_fold(s: Seq<char>) -> Seq<char> {
    s.map_values(|c: char| ascii_lower(c))
}

/// Calls `str::to_lowercase`; its result is named `lowercase_of` of the argument. Of
/// that result the contract states only what std's documentation gives plainly: ASCII
/// text is lower-cased character by character, ASCII letters to their lower case and
/// other ASCII characters unchanged (so the empty string stays empty). Nothing is
/// stated of text with other characters.
#[verifier::external_body]
pub(crate) fn to_lowercase(s: &str) -> (r: String)
    ensures
        r@ == lowercase_of(s@),
        is_ascii_text(s@) ==> r@ == ascii_fold(s@),
{
    s.to_lowercase()
}

} // verus!
