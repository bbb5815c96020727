//! Notification icons: raw image data from hints, the memo of loaded icons, and where
//! an icon may be found on disk.
use vstd::prelude::*;
use crate::text::{chars_of, string_from_chars, trim_chars, trim_spec, chars_eq, push_str_chars, u32_to_decimal, decimal};

pub mod desktop;

verus! {

// ---------------------------------------------------------------------------
// Raw image data (the `image-data` hint, signature `iiibiiay`)
// ---------------------------------------------------------------------------

/// Whether an image of `w`×`h` pixels, `rs` bytes per row, `bps` bits per sample and
/// `ch` channels is accepted: at most 4096 on a side, 8-bit RGB or RGBA, rows long
/// enough for their pixels.
pub open spec fn image_shape_ok(w: i32, h: i32, rs: i32, bps: i32, ch: i32) -> bool {
    0 < w <= 4096 && 0 < h <= 4096 && bps == 8 && (ch == 3 || ch == 4) && rs >= w * ch
}

/// Bytes the image needs: every row but the last in full, and the pixels of the last.
pub open spec fn required_len(w: i32, h: i32, rs: i32, ch: i32) -> int {
    (h - 1) * rs + w * ch
}

/// One pixel, its colour channels premultiplied by alpha (rounded to nearest).
pub open spec fn premultiply(r: u8, g: u8, b: u8, a: u8) -> (u8, u8, u8, u8) {
    if a == 255 {
        (r, g, b, 255)
    } else if a == 0 {
        (0, 0, 0, 0)
    } else {
        (((r * a + 127) / 255) as u8, ((g * a + 127) / 255) as u8, ((b * a + 127) / 255) as u8, a)
    }
}

/// The pixel at column `x`, row `y`: alpha from the fourth channel when the image has
/// one and says so, else opaque.
pub open spec fn pixel_at(data: Seq<u8>, rs: i32, ch: i32, has_alpha: bool, x: int, y: int) -> (u8, u8, u8, u8) {
    let off = y * rs + x * ch;
    premultiply(
        data[off],
        data[off + 1],
        data[off + 2],
        if has_alpha && ch >= 4 {
            data[off + 3]
        } else {
            255
        },
    )
}

/// The premultiplied pixels of an accepted image, row by row; none when the shape is
/// refused, its size overflows, or the data is too short.
pub open spec fn image_pixels_spec(
    w: i32,
    h: i32,
    rs: i32,
    has_alpha: bool,
    bps: i32,
    ch: i32,
    data: Seq<u8>,
) -> Option<Seq<(u8, u8, u8, u8)>> {
    if !image_shape_ok(w, h, rs, bps, ch) || required_len(w, h, rs, ch) > usize::MAX || data.len()
        < required_len(w, h, rs, ch) {
        None
    } else {
        Some(Seq::new((w * h) as nat, |i: int| pixel_at(data, rs, ch, has_alpha, i % (w as int), i / (w as int))))
    }
}

fn premultiply_exec(r: u8, g: u8, b: u8, a: u8) -> (p: (u8, u8, u8, u8))
    ensures
        p == premultiply(r, g, b, a),
{
    if a == 255 {
        (r, g, b, 255)
    } else if a == 0 {
        (0, 0, 0, 0)
    } else {
        let al = a as u32;
        assert(r as u32 * al + 127 <= 255 * 255 + 127) by (nonlinear_arith)
            requires
                r <= 255,
                al <= 255,
        ;
        assert(g as u32 * al + 127 <= 255 * 255 + 127) by (nonlinear_arith)
            requires
                g <= 255,
                al <= 255,
        ;
        assert(b as u32 * al + 127 <= 255 * 255 + 127) by (nonlinear_arith)
            requires
                b <= 255,
                al <= 255,
        ;
        let pr = (r as u32 * al + 127) / 255;
        let pg = (g as u32 * al + 127) / 255;
        let pb = (b as u32 * al + 127) / 255;
        (pr as u8, pg as u8, pb as u8, a)
    }
}

proof fn lemma_offsets(w: int, h: int, rs: int, ch: int, x: int, y: int)
    requires
        0 < w,
        0 < h,
        3 <= ch <= 4,
        rs >= w * ch,
        0 <= x < w,
        0 <= y < h,
    ensures
        0 <= y * rs + x * ch,
        y * rs + x * ch + ch <= (h - 1) * rs + w * ch,
{
    assert(0 <= y * rs + x * ch) by (nonlinear_arith)
        requires
            0 <= y,
            0 <= x,
            0 <= rs,
            0 <= ch,
    ;
    assert(y * rs <= (h - 1) * rs) by (nonlinear_arith)
        requires
            y <= h - 1,
            0 <= rs,
    ;
    assert(x * ch + ch <= w * ch) by (nonlinear_arith)
        requires
            x + 1 <= w,
            0 <= ch,
    ;
}

/// Decodes raw image data into premultiplied RGBA pixels; see `image_pixels_spec`.
pub fn decode_image_data(
    width: i32,
    height: i32,
    rowstride: i32,
    has_alpha: bool,
    bits_per_sample: i32,
    channels: i32,
    data: &[u8],
) -> (r: Option<Vec<(u8, u8, u8, u8)>>)
    ensures
        match r {
            Some(p) => image_pixels_spec(width, height, rowstride, has_alpha, bits_per_sample, channels, data@) == Some(p@),
            None => image_pixels_spec(width, height, rowstride, has_alpha, bits_per_sample, channels, data@) is None,
        },
{
    if width <= 0 || height <= 0 || width > 4096 || height > 4096 {
        return None;
    }
    if bits_per_sample != 8 || (channels != 3 && channels != 4) {
        return None;
    }
    assert(0 < width * channels <= 4096 * 4) by (nonlinear_arith)
        requires
            0 < width <= 4096,
            3 <= channels <= 4,
    ;
    let min_rowstride = width * channels;
    if rowstride < min_rowstride {
        return None;
    }
    let w = width as usize;
    let h = height as usize;
    let rs = rowstride as usize;
    let ch = channels as usize;
    let last_row: u64 = (h - 1) as u64;
    assert(last_row * (rs as u64) <= 4095 * 0x7fff_ffff) by (nonlinear_arith)
        requires
            last_row <= 4095,
            rs <= 0x7fff_ffff,
    ;
    let need: u64 = last_row * (rs as u64) + (w * ch) as u64;
    if need > usize::MAX as u64 {
        return None;
    }
    let need = need as usize;
    if data.len() < need {
        return None;
    }
    let ghost wi = width as int;
    let mut out: Vec<(u8, u8, u8, u8)> = Vec::new();
    let mut y: usize = 0;
    while y < h
        invariant
            w == width,
            wi == width as int,
            h == height,
            rs == rowstride,
            ch == channels,
            0 < w <= 4096,
            0 < h <= 4096,
            3 <= ch <= 4,
            rs >= w * ch,
            need == required_len(width, height, rowstride, channels),
            data@.len() >= need,
            y <= h,
            out@.len() == y * w,
            forall|j: int| 0 <= j < out@.len() ==> #[trigger] out@[j] == pixel_at(data@, rowstride, channels, has_alpha, j % wi, j / wi),
        decreases h - y,
    {
        let mut x: usize = 0;
        while x < w
            invariant
                w == width,
                wi == width as int,
                h == height,
                rs == rowstride,
                ch == channels,
                0 < w <= 4096,
                0 < h <= 4096,
                3 <= ch <= 4,
                rs >= w * ch,
                need == required_len(width, height, rowstride, channels),
                data@.len() >= need,
                y < h,
                x <= w,
                out@.len() == y * w + x,
                forall|j: int| 0 <= j < out@.len() ==> #[trigger] out@[j] == pixel_at(data@, rowstride, channels, has_alpha, j % wi, j / wi),
            decreases w - x,
        {
            proof {
                lemma_offsets(w as int, h as int, rs as int, ch as int, x as int, y as int);
                assert((y * rs + x * ch) as int == y as int * rs as int + x as int * ch as int) by (nonlinear_arith)
                    requires
                        y * rs + x * ch <= need,
                ;
            }
            let off = y * rs + x * ch;
            let a = if has_alpha && ch >= 4 {
                data[off + 3]
            } else {
                255u8
            };
            let p = premultiply_exec(data[off], data[off + 1], data[off + 2], a);
            let ghost j = out@.len() as int;
            proof {
                assert(j == (y as int) * wi + (x as int));
                vstd::arithmetic::div_mod::lemma_fundamental_div_mod_converse(j, wi, y as int, x as int);
            }
            out.push(p);
            x = x + 1;
        }
        assert((y + 1) * w == y * w + w) by (nonlinear_arith);
        y = y + 1;
    }
    proof {
        assert(h * w == width * height) by (nonlinear_arith)
            requires
                h == height,
                w == width,
        ;
        assert(out@.len() == width * height);
        assert(out@ =~= Seq::new((width * height) as nat, |i: int| pixel_at(data@, rowstride, channels, has_alpha, i % wi, i / wi)));
    }
    Some(out)
}

/// The cache key of the decoded image of notification `id`.
pub open spec fn raw_image_key_spec(id: u32) -> Seq<char> {
    "raw-image:"@ + decimal(id as nat)
}

/// `raw-image:<id>`.
pub fn raw_image_key(id: u32) -> (r: String)
    ensures
        r@ == raw_image_key_spec(id),
{
    let mut v = chars_of("raw-image:");
    let d = u32_to_decimal(id);
    push_str_chars(&mut v, d.as_str());
    string_from_chars(&v)
}

// ---------------------------------------------------------------------------
// The memo of loaded icons
// ---------------------------------------------------------------------------

#[verifier::external_type_specification]
#[verifier::external_body]
pub struct ExPixmap(tiny_skia::Pixmap);

/// Calls `Pixmap::clone`, which `derive(Clone)` writes: the copy equals the original.
#[verifier::external_body]
fn clone_pixmap(p: &tiny_skia::Pixmap) -> (r: tiny_skia::Pixmap)
    ensures
        r == *p,
{
    p.clone()
}

/// Entries held before the memo makes room.
pub const MAX_ICON_CACHE_ENTRIES: usize = 256;

/// Loaded icons by name (misses remembered as empty), and decoded images of
/// notifications under their `raw-image:` keys; no key occurs twice.
pub struct IconCache {
    entries: Vec<(String, Option<tiny_skia::Pixmap>)>,
    theme_name: Option<String>,
    target_size: u32,
}

/// Mathematical value of the memo: each key, and the image it holds, if any.
pub open spec fn icon_entries_view(s: Seq<(String, Option<tiny_skia::Pixmap>)>) -> Seq<(Seq<char>, Option<tiny_skia::Pixmap>)> {
    s.map_values(|e: (String, Option<tiny_skia::Pixmap>)| (e.0@, e.1))
}

impl View for IconCache {
    type V = Seq<(Seq<char>, Option<tiny_skia::Pixmap>)>;

    closed spec fn view(&self) -> Seq<(Seq<char>, Option<tiny_skia::Pixmap>)> {
        icon_entries_view(self.entries@)
    }
}

pub open spec fn is_raw_key(k: Seq<char>) -> bool {
    k.len() >= 10 && k.subrange(0, 10) == "raw-image:"@
}

/// The entries of `c` that hold decoded notification images, in order.
pub open spec fn keep_raw(c: Seq<(Seq<char>, Option<tiny_skia::Pixmap>)>) -> Seq<(Seq<char>, Option<tiny_skia::Pixmap>)>
    decreases c.len(),
{
    if c.len() == 0 {
        c
    } else if is_raw_key(c.last().0) {
        keep_raw(c.drop_last()).push(c.last())
    } else {
        keep_raw(c.drop_last())
    }
}

/// Room for one more entry: when full, only decoded notification images stay, and if
/// they alone fill it, nothing stays.
pub open spec fn make_room(c: Seq<(Seq<char>, Option<tiny_skia::Pixmap>)>) -> Seq<(Seq<char>, Option<tiny_skia::Pixmap>)> {
    if c.len() >= MAX_ICON_CACHE_ENTRIES {
        if keep_raw(c).len() >= MAX_ICON_CACHE_ENTRIES {
            Seq::empty()
        } else {
            keep_raw(c)
        }
    } else {
        c
    }
}

pub open spec fn key_index(c: Seq<(Seq<char>, Option<tiny_skia::Pixmap>)>, k: Seq<char>) -> Option<int> {
    if exists|i: int| 0 <= i < c.len() && c[i].0 == k {
        Some(choose|i: int| 0 <= i < c.len() && c[i].0 == k)
    } else {
        None
    }
}

/// `c` with key `k` set to hold image `v` (or, for `None`, a remembered miss).
pub open spec fn put(
    c: Seq<(Seq<char>, Option<tiny_skia::Pixmap>)>,
    k: Seq<char>,
    v: Option<tiny_skia::Pixmap>,
) -> Seq<(Seq<char>, Option<tiny_skia::Pixmap>)> {
    match key_index(c, k) {
        Some(i) => c.update(i, (k, v)),
        None => c.push((k, v)),
    }
}

pub open spec fn keys_unique(c: Seq<(Seq<char>, Option<tiny_skia::Pixmap>)>) -> bool {
    forall|i: int, j: int| 0 <= i < j < c.len() ==> (#[trigger] c[i]).0 != (#[trigger] c[j]).0
}

proof fn lemma_keep_raw_unique(c: Seq<(Seq<char>, Option<tiny_skia::Pixmap>)>)
    requires
        keys_unique(c),
    ensures
        keys_unique(keep_raw(c)),
        forall|x: (Seq<char>, Option<tiny_skia::Pixmap>)| keep_raw(c).contains(x) ==> c.contains(x),
    decreases c.len(),
{
    if c.len() > 0 {
        let d = c.drop_last();
        assert(keys_unique(d));
        lemma_keep_raw_unique(d);
        assert forall|x: (Seq<char>, Option<tiny_skia::Pixmap>)| keep_raw(c).contains(x) implies c.contains(x) by {
            if keep_raw(d).contains(x) {
                assert(d.contains(x));
                let i = choose|i: int| 0 <= i < d.len() && d[i] == x;
                assert(c[i] == x);
            } else {
                assert(is_raw_key(c.last().0));
                let k = keep_raw(d).push(c.last());
                let j = choose|j: int| 0 <= j < k.len() && k[j] == x;
                assert(j == keep_raw(d).len());
                assert(c[c.len() - 1] == x);
            }
        }
        if is_raw_key(c.last().0) {
            let k = keep_raw(d);
            assert forall|i: int, j: int| 0 <= i < j < k.push(c.last()).len() implies (#[trigger] k.push(
                c.last(),
            )[i]).0 != (#[trigger] k.push(c.last())[j]).0 by {
                if j == k.len() {
                    let x = k[i];
                    assert(k[i] == x);
                    assert(k.contains(x));
                    assert(d.contains(x));
                    let m = choose|m: int| 0 <= m < d.len() && d[m] == x;
                    assert(c[m] == d[m]);
                    assert(c[m].0 != c[c.len() - 1].0);
                } else {
                    assert(k.push(c.last())[i] == k[i]);
                    assert(k.push(c.last())[j] == k[j]);
                }
            }
        }
    }
}

/// Law: making room keeps every decoded notification image, unless those alone fill
/// the memo.
pub proof fn lemma_make_room_keeps_raw(c: Seq<(Seq<char>, Option<tiny_skia::Pixmap>)>, e: (Seq<char>, Option<tiny_skia::Pixmap>))
    requires
        c.contains(e),
        is_raw_key(e.0),
        keep_raw(c).len() < MAX_ICON_CACHE_ENTRIES,
    ensures
        make_room(c).contains(e),
    decreases c.len(),
{
    lemma_keep_raw_contains(c, e);
}

proof fn lemma_keep_raw_contains(c: Seq<(Seq<char>, Option<tiny_skia::Pixmap>)>, e: (Seq<char>, Option<tiny_skia::Pixmap>))
    requires
        c.contains(e),
        is_raw_key(e.0),
    ensures
        keep_raw(c).contains(e),
    decreases c.len(),
{
    let d = c.drop_last();
    if c.last() == e {
        assert(keep_raw(c) == keep_raw(d).push(e));
        assert(keep_raw(c)[keep_raw(d).len() as int] == e);
    } else {
        let i = choose|i: int| 0 <= i < c.len() && c[i] == e;
        assert(d[i] == e);
        lemma_keep_raw_contains(d, e);
        let k = keep_raw(d);
        let j = choose|j: int| 0 <= j < k.len() && k[j] == e;
        if is_raw_key(c.last().0) {
            assert(keep_raw(c)[j] == e);
        }
    }
}

/// The view of an optional borrowed string.
pub open spec fn opt_str_ref_view(o: Option<&str>) -> Option<Seq<char>> {
    match o {
        Some(t) => Some(t@),
        None => None,
    }
}

impl IconCache {
    pub open spec fn wf(&self) -> bool {
        keys_unique(self@)
    }

    pub closed spec fn target_size_spec(&self) -> u32 {
        self.target_size
    }

    /// The icon theme the memo loads from.
    pub closed spec fn theme_spec(&self) -> Option<Seq<char>> {
        match self.theme_name {
            Some(t) => Some(t@),
            None => None,
        }
    }

    pub fn new(theme_name: Option<String>, target_size: u32) -> (r: Self)
        ensures
            r.wf(),
            r@.len() == 0,
            r.target_size_spec() == target_size,
            r.theme_spec() == (match theme_name {
                Some(t) => Some(t@),
                None => None::<Seq<char>>,
            }),
    {
        let r = IconCache { entries: Vec::new(), theme_name, target_size };
        assert(r@ =~= Seq::<(Seq<char>, Option<tiny_skia::Pixmap>)>::empty());
        r
    }

    pub fn target_size(&self) -> (r: u32)
        ensures
            r == self.target_size_spec(),
    {
        self.target_size
    }

    fn find(&self, key: &Vec<char>) -> (r: Option<usize>)
        requires
            self.wf(),
        ensures
            r matches Some(i) ==> i < self@.len() && key_index(self@, key@) == Some(i as int),
            r is None ==> key_index(self@, key@) is None,
    {
        let n = self.entries.len();
        for i in 0..n
            invariant
                n == self.entries@.len(),
                self@.len() == n,
                keys_unique(self@),
                forall|j: int| 0 <= j < i ==> self@[j].0 != key@,
        {
            let k = chars_of(self.entries[i].0.as_str());
            if chars_eq(&k, key) {
                proof {
                    let c = self@;
                    assert(c[i as int].0 == key@);
                    let m = choose|m: int| 0 <= m < c.len() && c[m].0 == key@;
                    if m != i as int {
                        if m < i {
                        } else {
                            assert(c[i as int].0 != c[m].0);
                        }
                    }
                }
                return Some(i);
            }
        }
        None
    }

    /// Makes room for one more entry; see `make_room`.
    fn make_room_exec(&mut self)
        requires
            old(self).wf(),
        ensures
            final(self).wf(),
            final(self)@ == make_room(old(self)@),
            final(self)@.len() < MAX_ICON_CACHE_ENTRIES,
            final(self).target_size == old(self).target_size,
            final(self).theme_name == old(self).theme_name,
    {
        if self.entries.len() >= MAX_ICON_CACHE_ENTRIES {
            let ghost c = self@;
            proof {
                lemma_keep_raw_unique(c);
            }
            let mut kept: Vec<(String, Option<tiny_skia::Pixmap>)> = Vec::new();
            let n = self.entries.len();
            for i in 0..n
                invariant
                    n == self.entries@.len(),
                    c == self@,
                    icon_entries_view(kept@) == keep_raw(c.subrange(0, i as int)),
            {
                proof {
                    assert(c.subrange(0, i as int + 1).drop_last() =~= c.subrange(0, i as int));
                }
                let raw = is_raw_exec(self.entries[i].0.as_str());
                if raw {
                    let k = self.entries[i].0.clone();
                    let v = match &self.entries[i].1 {
                        Some(p) => Some(clone_pixmap(p)),
                        None => None,
                    };
                    let ghost kb = kept@;
                    kept.push((k, v));
                    assert(icon_entries_view(kept@) =~= icon_entries_view(kb).push(c[i as int]));
                }
            }
            assert(c.subrange(0, n as int) =~= c);
            if kept.len() >= MAX_ICON_CACHE_ENTRIES {
                kept.clear();
                assert(icon_entries_view(kept@) =~= Seq::<(Seq<char>, Option<tiny_skia::Pixmap>)>::empty());
            }
            self.entries = kept;
        }
    }

    /// Stores `pixmap` under `key`, making room first; see `make_room` and `put`.
    pub fn insert_pixmap(&mut self, key: String, pixmap: tiny_skia::Pixmap)
        requires
            old(self).wf(),
        ensures
            final(self).wf(),
            final(self)@ == put(make_room(old(self)@), key@, Some(pixmap)),
            final(self).target_size_spec() == old(self).target_size_spec(),
            final(self).theme_spec() == old(self).theme_spec(),
    {
        self.make_room_exec();
        self.put_exec(key, Some(pixmap));
    }

    fn put_exec(&mut self, key: String, value: Option<tiny_skia::Pixmap>)
        requires
            old(self).wf(),
        ensures
            final(self).wf(),
            final(self)@ == put(old(self)@, key@, value),
            final(self).target_size == old(self).target_size,
            final(self).theme_name == old(self).theme_name,
    {
        let kc = chars_of(key.as_str());
        let ghost has = value;
        match self.find(&kc) {
            Some(i) => {
                let ghost before = self@;
                let mut slot = (key, value);
                std::mem::swap(&mut slot, &mut self.entries[i]);
                proof {
                    assert(self@ =~= before.update(i as int, (kc@, has)));
                    assert forall|a: int, b: int| 0 <= a < b < self@.len() implies (#[trigger] self@[a]).0 != (#[trigger] self@[b]).0 by {
                        assert(before[a].0 != before[b].0);
                    }
                }
            },
            None => {
                let ghost before = self@;
                self.entries.push((key, value));
                proof {
                    assert(self@ =~= before.push((kc@, has)));
                    assert forall|a: int, b: int| 0 <= a < b < self@.len() implies (#[trigger] self@[a]).0 != (#[trigger] self@[b]).0 by {
                        if b == before.len() {
                            assert(before[a].0 != kc@);
                        }
                    }
                }
            },
        }
    }

    /// Drops the entry `key`.
    pub fn remove(&mut self, key: &str)
        requires
            old(self).wf(),
        ensures
            final(self).wf(),
            final(self).target_size_spec() == old(self).target_size_spec(),
            final(self).theme_spec() == old(self).theme_spec(),
            match key_index(old(self)@, key@) {
                Some(i) => final(self)@ == old(self)@.remove(i),
                None => final(self)@ == old(self)@,
            },
    {
        let kc = chars_of(key);
        match self.find(&kc) {
            Some(i) => {
                let ghost before = self@;
                let _ = self.entries.remove(i);
                proof {
                    assert(self@ =~= before.remove(i as int));
                    assert forall|a: int, b: int| 0 <= a < b < self@.len() implies (#[trigger] self@[a]).0 != (#[trigger] self@[b]).0 by {
                        let a2 = if a < i { a } else { a + 1 };
                        let b2 = if b < i { b } else { b + 1 };
                        assert(before[a2].0 != before[b2].0);
                    }
                }
            },
            None => {},
        }
    }

    /// The icon named `name` (trimmed): remembered, or else loaded by `load` with the
    /// trimmed name and the theme and size of the memo, and remembered (a miss too). An
    /// empty name has none.
    pub fn get<F: Fn(&str, Option<&str>, u32) -> Option<tiny_skia::Pixmap>>(
        &mut self,
        name: &str,
        load: &F,
    ) -> (r: Option<tiny_skia::Pixmap>)
        requires
            old(self).wf(),
            forall|a: &str, t: Option<&str>, z: u32| load.requires((a, t, z)),
        ensures
            final(self).wf(),
            final(self).target_size_spec() == old(self).target_size_spec(),
            final(self).theme_spec() == old(self).theme_spec(),
            name@.len() == 0 ==> r is None && final(self)@ == old(self)@,
            name@.len() > 0 ==> match key_index(old(self)@, trim_spec(name@)) {
                Some(i) => r == old(self)@[i].1 && final(self)@ == old(self)@,
                None => exists|s: &str, t: Option<&str>, x: Option<tiny_skia::Pixmap>|
                    #[trigger] load.ensures((s, t, old(self).target_size_spec()), x) && s@ == trim_spec(name@)
                        && opt_str_ref_view(t) == old(self).theme_spec() && r == x && final(self)@ == put(
                        make_room(old(self)@),
                        trim_spec(name@),
                        x,
                    ),
            },
    {
        if name.is_empty() {
            return None;
        }
        let v = chars_of(name);
        let key = trim_chars(&v);
        match self.find(&key) {
            Some(i) => match &self.entries[i].1 {
                Some(p) => Some(clone_pixmap(p)),
                None => None,
            },
            None => {
                let key_s = string_from_chars(&key);
                let theme: Option<&str> = match &self.theme_name {
                    Some(t) => Some(t.as_str()),
                    None => None,
                };
                let size = self.target_size;
                let arg: &str = key_s.as_str();
                let loaded = load(arg, theme, size);
                proof {
                    assert(opt_str_ref_view(theme) == self.theme_spec());
                    assert(arg@ == key@);
                    assert(load.ensures((arg, theme, size), loaded));
                }
                let kept = match &loaded {
                    Some(p) => Some(clone_pixmap(p)),
                    None => None,
                };
                self.make_room_exec();
                self.put_exec(key_s, kept);
                proof {
                    assert(load.ensures((arg, theme, old(self).target_size_spec()), loaded) && arg@ == trim_spec(name@)
                        && opt_str_ref_view(theme) == old(self).theme_spec() && self@ == put(
                        make_room(old(self)@),
                        trim_spec(name@),
                        loaded,
                    ));
                }
                loaded
            },
        }
    }

    /// Loads the icon named `name` (trimmed) into the memo unless it is there already:
    /// `load` is given the trimmed name and the theme and size of the memo, and the
    /// memo records what it found (a miss too).
    pub fn preload<F: Fn(&str, Option<&str>, u32) -> Option<tiny_skia::Pixmap>>(&mut self, name: &str, load: &F)
        requires
            old(self).wf(),
            forall|a: &str, t: Option<&str>, z: u32| load.requires((a, t, z)),
        ensures
            final(self).wf(),
            final(self).target_size_spec() == old(self).target_size_spec(),
            final(self).theme_spec() == old(self).theme_spec(),
            name@.len() == 0 ==> final(self)@ == old(self)@,
            name@.len() > 0 ==> match key_index(old(self)@, trim_spec(name@)) {
                Some(i) => final(self)@ == old(self)@,
                None => exists|s: &str, t: Option<&str>, x: Option<tiny_skia::Pixmap>|
                    #[trigger] load.ensures((s, t, old(self).target_size_spec()), x) && s@ == trim_spec(name@)
                        && opt_str_ref_view(t) == old(self).theme_spec() && final(self)@ == put(
                        make_room(old(self)@),
                        trim_spec(name@),
                        x,
                    ),
            },
    {
        if name.is_empty() {
            return;
        }
        let v = chars_of(name);
        let key = trim_chars(&v);
        match self.find(&key) {
            Some(_) => {},
            None => {
                let key_s = string_from_chars(&key);
                let theme: Option<&str> = match &self.theme_name {
                    Some(t) => Some(t.as_str()),
                    None => None,
                };
                let size = self.target_size;
                let arg: &str = key_s.as_str();
                let loaded = load(arg, theme, size);
                proof {
                    assert(opt_str_ref_view(theme) == self.theme_spec());
                    assert(arg@ == key@);
                    assert(load.ensures((arg, theme, size), loaded));
                }
                self.make_room_exec();
                self.put_exec(key_s, loaded);
                proof {
                    assert(load.ensures((arg, theme, old(self).target_size_spec()), loaded) && arg@ == trim_spec(name@)
                        && opt_str_ref_view(theme) == old(self).theme_spec() && self@ == put(
                        make_room(old(self)@),
                        trim_spec(name@),
                        loaded,
                    ));
                }
            },
        }
    }
}

fn is_raw_exec(k: &str) -> (r: bool)
    ensures
        r == is_raw_key(k@),
{
    let kc = chars_of(k);
    let p = chars_of("raw-image:");
    proof {
        reveal_strlit("raw-image:");
    }
    if kc.len() < 10 {
        return false;
    }
    let head = crate::text::slice_chars(kc.as_slice(), 0, 10);
    chars_eq(&head, &p)
}

// ---------------------------------------------------------------------------
// Where an icon may be on disk
// ---------------------------------------------------------------------------

/// `a` joined with `b` as `Path::join` does on Unix: an absolute `b` replaces `a`, else a
/// separator is put between them when needed.
pub open spec fn join_path(a: Seq<char>, b: Seq<char>) -> Seq<char> {
    if b.len() > 0 && b[0] == '/' {
        b
    } else if a.len() == 0 {
        b
    } else if a.last() == '/' {
        a + b
    } else {
        a + seq!['/'] + b
    }
}

pub(crate) fn join_path_exec(a: &str, b: &str) -> (r: String)
    ensures
        r@ == join_path(a@, b@),
{
    let bv = chars_of(b);
    let mut av = chars_of(a);
    if bv.len() > 0 && bv[0] == '/' {
        return b.to_owned();
    }
    if av.len() == 0 {
        return b.to_owned();
    }
    if av[av.len() - 1] != '/' {
        av.push('/');
    }
    push_str_chars(&mut av, b);
    string_from_chars(&av)
}

/// `s` ends with `p`.
pub open spec fn ends_with(s: Seq<char>, p: Seq<char>) -> bool {
    p.len() <= s.len() && s.subrange(s.len() - p.len(), s.len() as int) == p
}

/// The icon name without a `.png` or `.svg` extension.
pub open spec fn icon_stem(clean: Seq<char>) -> Seq<char> {
    if ends_with(clean, ".png"@) || ends_with(clean, ".svg"@) {
        clean.subrange(0, clean.len() - 4)
    } else {
        clean
    }
}

/// Themes searched, in order: the configured one, then the standard fallbacks not
/// already listed.
pub open spec fn fallback_themes() -> Seq<Seq<char>> {
    seq!["Papirus-Dark"@, "Papirus"@, "Yaru"@, "Adwaita"@, "hicolor"@]
}

pub open spec fn add_missing(s: Seq<Seq<char>>, extra: Seq<Seq<char>>) -> Seq<Seq<char>>
    decreases extra.len(),
{
    if extra.len() == 0 {
        s
    } else {
        let t = add_missing(s, extra.drop_last());
        if t.contains(extra.last()) {
            t
        } else {
            t.push(extra.last())
        }
    }
}

pub open spec fn themes_spec(theme: Option<Seq<char>>) -> Seq<Seq<char>> {
    add_missing(
        match theme {
            Some(t) => seq![t],
            None => Seq::empty(),
        },
        fallback_themes(),
    )
}

/// Size and context directories, in order of preference.
pub open spec fn icon_subdirs() -> Seq<Seq<char>> {
    seq![
        "32x32/apps"@,
        "48x48/apps"@,
        "24x24/apps"@,
        "64x64/apps"@,
        "scalable/apps"@,
        "32x32/status"@,
        "48x48/status"@,
        "scalable/status"@,
        "32x32/panel"@,
        "24x24/panel"@,
        "symbolic/apps"@,
    ]
}

/// In directory `dir`, for each subdirectory in turn: the SVG, then the PNG.
pub open spec fn subdir_candidates(dir: Seq<char>, subdirs: Seq<Seq<char>>, stem: Seq<char>) -> Seq<Seq<char>>
    decreases subdirs.len(),
{
    if subdirs.len() == 0 {
        Seq::empty()
    } else {
        let d = join_path(dir, subdirs.last());
        subdir_candidates(dir, subdirs.drop_last(), stem) + seq![
            join_path(d, stem + ".svg"@),
            join_path(d, stem + ".png"@),
        ]
    }
}

/// For each base directory in turn, the candidates in its directory of theme `theme`.
pub open spec fn base_candidates(theme: Seq<char>, bases: Seq<Seq<char>>, stem: Seq<char>) -> Seq<Seq<char>>
    decreases bases.len(),
{
    if bases.len() == 0 {
        Seq::empty()
    } else {
        base_candidates(theme, bases.drop_last(), stem) + subdir_candidates(
            join_path(bases.last(), theme),
            icon_subdirs(),
            stem,
        )
    }
}

pub open spec fn theme_candidates(themes: Seq<Seq<char>>, bases: Seq<Seq<char>>, stem: Seq<char>) -> Seq<Seq<char>>
    decreases themes.len(),
{
    if themes.len() == 0 {
        Seq::empty()
    } else {
        theme_candidates(themes.drop_last(), bases, stem) + base_candidates(themes.last(), bases, stem)
    }
}

/// The icon name without a `file://` scheme.
pub open spec fn direct_path(clean: Seq<char>) -> Seq<char> {
    if clean.len() >= 7 && clean.subrange(0, 7) == "file://"@ {
        clean.subrange(7, clean.len() as int)
    } else {
        clean
    }
}

/// The files that may hold icon `name`, in the order they are tried: the name itself
/// when it is an absolute path; for each theme, base directory and subdirectory, the SVG
/// then the PNG; then the SVG, the PNG and the name itself in `/usr/share/pixmaps`.
/// None for an empty name.
pub open spec fn icon_candidates_spec(name: Seq<char>, theme: Option<Seq<char>>, bases: Seq<Seq<char>>) -> Seq<Seq<char>> {
    let clean = trim_spec(name);
    if clean.len() == 0 {
        Seq::empty()
    } else {
        let d = direct_path(clean);
        let stem = icon_stem(clean);
        (if d.len() > 0 && d[0] == '/' {
            seq![d]
        } else {
            Seq::empty()
        }) + theme_candidates(themes_spec(theme), bases, stem) + seq![
            join_path("/usr/share/pixmaps"@, stem + ".svg"@),
            join_path("/usr/share/pixmaps"@, stem + ".png"@),
            join_path("/usr/share/pixmaps"@, clean),
        ]
    }
}

pub open spec fn strs_of(s: Seq<String>) -> Seq<Seq<char>> {
    s.map_values(|x: String| x@)
}

fn push_str(out: &mut Vec<String>, x: String)
    ensures
        strs_of(final(out)@) == strs_of(old(out)@).push(x@),
{
    let ghost before = out@;
    out.push(x);
    assert(strs_of(out@) =~= strs_of(before).push(x@));
}

fn with_ext(stem: &str, ext: &str) -> (r: String)
    ensures
        r@ == stem@ + ext@,
{
    let mut v = chars_of(stem);
    push_str_chars(&mut v, ext);
    string_from_chars(&v)
}

fn add_subdir_candidates(out: &mut Vec<String>, dir: &str, stem: &str)
    ensures
        strs_of(final(out)@) == strs_of(old(out)@) + subdir_candidates(dir@, icon_subdirs(), stem@),
{
    let subdirs: Vec<&str> = vec![
        "32x32/apps",
        "48x48/apps",
        "24x24/apps",
        "64x64/apps",
        "scalable/apps",
        "32x32/status",
        "48x48/status",
        "scalable/status",
        "32x32/panel",
        "24x24/panel",
        "symbolic/apps",
    ];
    let ghost sv = subdirs@.map_values(|x: &str| x@);
    assert(sv =~= icon_subdirs());
    let ghost base = strs_of(out@);
    let svg = with_ext(stem, ".svg");
    let png = with_ext(stem, ".png");
    for i in 0..subdirs.len()
        invariant
            sv == subdirs@.map_values(|x: &str| x@),
            svg@ == stem@ + ".svg"@,
            png@ == stem@ + ".png"@,
            strs_of(out@) == base + subdir_candidates(dir@, sv.subrange(0, i as int), stem@),
    {
        proof {
            assert(sv.subrange(0, i as int + 1).drop_last() =~= sv.subrange(0, i as int));
        }
        let d = join_path_exec(dir, subdirs[i]);
        push_str(out, join_path_exec(d.as_str(), svg.as_str()));
        push_str(out, join_path_exec(d.as_str(), png.as_str()));
        assert(strs_of(out@) =~= base + subdir_candidates(dir@, sv.subrange(0, i as int + 1), stem@));
    }
    assert(sv.subrange(0, subdirs@.len() as int) =~= sv);
}

fn themes_exec(theme: Option<&str>) -> (r: Vec<String>)
    ensures
        strs_of(r@) == themes_spec(
            match theme {
                Some(t) => Some(t@),
                None => None,
            },
        ),
{
    let mut out: Vec<String> = Vec::new();
    match theme {
        Some(t) => {
            push_str(&mut out, t.to_owned());
        },
        None => {},
    }
    let ghost start = strs_of(out@);
    assert(start =~= match theme {
        Some(t) => seq![t@],
        None => Seq::<Seq<char>>::empty(),
    });
    let fallbacks: Vec<&str> = vec!["Papirus-Dark", "Papirus", "Yaru", "Adwaita", "hicolor"];
    let ghost fv = fallbacks@.map_values(|x: &str| x@);
    assert(fv =~= fallback_themes());
    for i in 0..fallbacks.len()
        invariant
            fv == fallbacks@.map_values(|x: &str| x@),
            strs_of(out@) == add_missing(start, fv.subrange(0, i as int)),
    {
        proof {
            assert(fv.subrange(0, i as int + 1).drop_last() =~= fv.subrange(0, i as int));
        }
        let f = chars_of(fallbacks[i]);
        let mut found = false;
        for j in 0..out.len()
            invariant
                f@ == fv[i as int],
                found == exists|k: int| 0 <= k < j && strs_of(out@)[k] == f@,
        {
            let c = chars_of(out[j].as_str());
            assert(strs_of(out@)[j as int] == c@);
            if chars_eq(&c, &f) {
                found = true;
            }
        }
        proof {
            if found {
                let k = choose|k: int| 0 <= k < out@.len() && strs_of(out@)[k] == f@;
                assert(strs_of(out@).contains(fv[i as int]));
            } else {
                assert(!strs_of(out@).contains(fv[i as int]));
            }
        }
        if !found {
            push_str(&mut out, fallbacks[i].to_owned());
        }
    }
    assert(fv.subrange(0, fallbacks@.len() as int) =~= fv);
    out
}

fn add_theme_candidates(out: &mut Vec<String>, themes: &Vec<String>, base_dirs: &Vec<String>, stem: &str)
    ensures
        strs_of(final(out)@) == strs_of(old(out)@) + theme_candidates(strs_of(themes@), strs_of(base_dirs@), stem@),
{
    let ghost pre = strs_of(out@);
    let ghost tv = strs_of(themes@);
    let ghost bv = strs_of(base_dirs@);
    for t in 0..themes.len()
        invariant
            tv == strs_of(themes@),
            bv == strs_of(base_dirs@),
            strs_of(out@) == pre + theme_candidates(tv.subrange(0, t as int), bv, stem@),
    {
        proof {
            assert(tv.subrange(0, t as int + 1).drop_last() =~= tv.subrange(0, t as int));
        }
        let ghost mid = strs_of(out@);
        for b in 0..base_dirs.len()
            invariant
                tv == strs_of(themes@),
                bv == strs_of(base_dirs@),
                t < themes@.len(),
                strs_of(out@) == mid + base_candidates(tv[t as int], bv.subrange(0, b as int), stem@),
        {
            proof {
                assert(bv.subrange(0, b as int + 1).drop_last() =~= bv.subrange(0, b as int));
            }
            let dir = join_path_exec(base_dirs[b].as_str(), themes[t].as_str());
            add_subdir_candidates(out, dir.as_str(), stem);
            assert(strs_of(out@) =~= mid + base_candidates(tv[t as int], bv.subrange(0, b as int + 1), stem@));
        }
        assert(bv.subrange(0, base_dirs@.len() as int) =~= bv);
        assert(strs_of(out@) =~= pre + theme_candidates(tv.subrange(0, t as int + 1), bv, stem@));
    }
    assert(tv.subrange(0, themes@.len() as int) =~= tv);
}

fn direct_path_exec(clean: &Vec<char>) -> (r: Vec<char>)
    ensures
        r@ == direct_path(clean@),
{
    proof {
        reveal_strlit("file://");
    }
    let scheme = chars_of("file://");
    if clean.len() >= 7 {
        let head = crate::text::slice_chars(clean.as_slice(), 0, 7);
        if chars_eq(&head, &scheme) {
            return crate::text::slice_chars(clean.as_slice(), 7, clean.len());
        }
    }
    clean.clone()
}

fn icon_stem_exec(clean: &Vec<char>) -> (r: Vec<char>)
    ensures
        r@ == icon_stem(clean@),
{
    proof {
        reveal_strlit(".png");
        reveal_strlit(".svg");
    }
    let png = chars_of(".png");
    let svg = chars_of(".svg");
    if clean.len() >= 4 {
        let tail = crate::text::slice_chars(clean.as_slice(), clean.len() - 4, clean.len());
        if chars_eq(&tail, &png) || chars_eq(&tail, &svg) {
            return crate::text::slice_chars(clean.as_slice(), 0, clean.len() - 4);
        }
    }
    clean.clone()
}

/// The files that may hold an icon, in the order to try them; see
/// `icon_candidates_spec`. `base_dirs` are the icon base directories, in order.
pub fn icon_candidates(name_or_path: &str, theme_name: Option<&str>, base_dirs: &Vec<String>) -> (r: Vec<String>)
    ensures
        strs_of(r@) == icon_candidates_spec(
            name_or_path@,
            match theme_name {
                Some(t) => Some(t@),
                None => None,
            },
            strs_of(base_dirs@),
        ),
{
    let mut out: Vec<String> = Vec::new();
    let v = chars_of(name_or_path);
    let clean = trim_chars(&v);
    if clean.len() == 0 {
        assert(strs_of(out@) =~= Seq::<Seq<char>>::empty());
        return out;
    }
    let direct = direct_path_exec(&clean);
    if direct.len() > 0 && direct[0] == '/' {
        push_str(&mut out, string_from_chars(&direct));
    }
    let stem_v = icon_stem_exec(&clean);
    let stem = string_from_chars(&stem_v);
    let themes = themes_exec(theme_name);
    add_theme_candidates(&mut out, &themes, base_dirs, stem.as_str());
    let pix = "/usr/share/pixmaps";
    push_str(&mut out, join_path_exec(pix, with_ext(stem.as_str(), ".svg").as_str()));
    push_str(&mut out, join_path_exec(pix, with_ext(stem.as_str(), ".png").as_str()));
    let clean_s = string_from_chars(&clean);
    push_str(&mut out, join_path_exec(pix, clean_s.as_str()));
    proof {
        assert(strs_of(out@) =~= icon_candidates_spec(
            name_or_path@,
            match theme_name {
                Some(t) => Some(t@),
                None => None,
            },
            strs_of(base_dirs@),
        ));
    }
    out
}

} // verus!
