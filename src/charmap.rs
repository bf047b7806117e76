/*!
Mapping characters to nominal glyph identifiers.
*/

use vstd::prelude::*;
use crate::font::{be16, be32, read_u16, read_u32, table_range_of, FontRef, CMAP};
use crate::GlyphId;

verus! {

/// The last Unicode scalar value.
pub const MAX_CODEPOINT: u32 = 0x10ffff;

/// Proxy for rematerializing a character map: the offset of the chosen
/// subtable in the font data, its format, and whether its encoding is the
/// symbol encoding. The offset 0 stands for no subtable.
#[derive(Copy, Clone, Debug, PartialEq, Eq, Structural)]
pub struct CharmapProxy(pub u32, pub u8, pub bool);

impl CharmapProxy {
    pub open spec fn view_triple(self) -> (u32, u8, bool) {
        (self.0, self.1, self.2)
    }
}

/// The subtable described by the encoding record at `rec` of the cmap
/// table at `cmap`, when its platform and encoding give Unicode (or the
/// symbol encoding) and its format is one that maps characters.
pub open spec fn candidate(d: Seq<u8>, cmap: int, rec: int) -> Option<(u32, u8, bool)> {
    let platform = be16(d, rec);
    let encoding = be16(d, rec + 2);
    let at = cmap + be32(d, rec + 4);
    let unicode = platform == 0 || (platform == 3 && (encoding == 0 || encoding == 1 || encoding == 10));
    if !unicode || at + 2 > d.len() || at > u32::MAX || at == 0 {
        None
    } else {
        let format = be16(d, at);
        if supported(format) {
            Some((at as u32, format as u8, platform == 3 && encoding == 0))
        } else {
            None
        }
    }
}

/// The subtable formats that map characters to glyphs.
pub open spec fn supported(format: int) -> bool {
    format == 0 || format == 4 || format == 6 || format == 12 || format == 13
}

/// Preference among formats: those covering all planes first, then the
/// segmented one, then the byte and trimmed arrays.
pub open spec fn rank(format: u8) -> int {
    if format == 12 {
        4
    } else if format == 13 {
        3
    } else if format == 4 {
        2
    } else {
        1
    }
}

/// Whether subtable `c` is preferred over the best one so far (offset 0
/// standing for none).
pub open spec fn prefer(c: (u32, u8, bool), best: (u32, u8, bool)) -> bool {
    best.0 == 0 || rank(c.1) > rank(best.1)
}

fn rank_of(format: u8) -> (r: u8)
    ensures
        r == rank(format),
{
    if format == 12 {
        4
    } else if format == 13 {
        3
    } else if format == 4 {
        2
    } else {
        1
    }
}

/// The preferred subtable among the encoding records from `i` on; the
/// first of equally preferred ones wins.
pub open spec fn pick(d: Seq<u8>, cmap: int, n: int, i: int, best: (u32, u8, bool)) -> (u32, u8, bool)
    decreases n - i,
{
    if i >= n || i < 0 || cmap + 4 + 8 * i + 8 > d.len() {
        best
    } else {
        match candidate(d, cmap, cmap + 4 + 8 * i) {
            Some(c) => if prefer(c, best) {
                pick(d, cmap, n, i + 1, c)
            } else {
                pick(d, cmap, n, i + 1, best)
            },
            None => pick(d, cmap, n, i + 1, best),
        }
    }
}

/// The subtable that a character map of the font uses, `(0, 0, false)`
/// when there is none.
pub open spec fn chosen_subtable(d: Seq<u8>, base: int) -> (u32, u8, bool) {
    match table_range_of(d, base, CMAP) {
        Some((a, b)) => if a + 4 <= d.len() && b <= u32::MAX {
            pick(d, a, be16(d, a + 2), 0, (0u32, 0u8, false))
        } else {
            (0u32, 0u8, false)
        },
        None => (0u32, 0u8, false),
    }
}

/// Glyph of `c` in the segments of a format 4 subtable at `o`, from
/// segment `i` on: the first segment whose end is not below `c` decides.
pub open spec fn fmt4_scan(d: Seq<u8>, o: int, segs2: int, c: int, i: int) -> int
    decreases segs2 - i,
{
    let end_at = o + 14 + i;
    let start_at = o + 16 + segs2 + i;
    let delta_at = o + 16 + 2 * segs2 + i;
    let range_at = o + 16 + 3 * segs2 + i;
    if i + 2 > segs2 || i < 0 || range_at + 2 > d.len() {
        0
    } else if be16(d, end_at) < c {
        fmt4_scan(d, o, segs2, c, i + 2)
    } else if be16(d, start_at) > c {
        0
    } else if be16(d, range_at) == 0 {
        (c + be16(d, delta_at)) % 65536
    } else {
        let at = range_at + be16(d, range_at) + 2 * (c - be16(d, start_at));
        if at + 2 > d.len() || be16(d, at) == 0 {
            0
        } else {
            (be16(d, at) + be16(d, delta_at)) % 65536
        }
    }
}

/// Glyph of `c` in a format 4 subtable at `o`.
pub open spec fn fmt4_glyph(d: Seq<u8>, o: int, c: int) -> int {
    if c > 0xffff || o + 8 > d.len() {
        0
    } else {
        fmt4_scan(d, o, be16(d, o + 6), c, 0)
    }
}

/// Glyph of `c` in the groups of a format 12 subtable at `o`, from group
/// `i` on: the first group whose range holds `c` decides.
/// In a format 13 subtable (`constant`) every character of a group maps to
/// the group's glyph.
pub open spec fn fmt12_scan(d: Seq<u8>, o: int, n: int, c: int, i: int, constant: bool) -> int
    decreases n - i,
{
    let g = o + 16 + 12 * i;
    if i >= n || i < 0 || g + 12 > d.len() {
        0
    } else if be32(d, g) <= c <= be32(d, g + 4) {
        if constant {
            be32(d, g + 8) % 65536
        } else {
            (be32(d, g + 8) + c - be32(d, g)) % 65536
        }
    } else {
        fmt12_scan(d, o, n, c, i + 1, constant)
    }
}

/// Group `i` of a format 12 or 13 subtable at `o` lies within `d`.
pub open spec fn group_fits(d: Seq<u8>, o: int, i: int) -> bool {
    o + 16 + 12 * i + 12 <= d.len()
}

/// Group `i` of a format 12 or 13 subtable at `o` lies within `d` and
/// holds `c`.
pub open spec fn in_group(d: Seq<u8>, o: int, i: int, c: int) -> bool {
    group_fits(d, o, i) && be32(d, o + 16 + 12 * i) <= c <= be32(d, o + 16 + 12 * i + 4)
}

proof fn lemma_scan_group(d: Seq<u8>, o: int, n: int, c: int, i0: int, constant: bool)
    requires
        0 <= i0,
        fmt12_scan(d, o, n, c, i0, constant) != 0,
    ensures
        exists|i: int|
            i0 <= i < n && #[trigger] in_group(d, o, i, c) && forall|j: int| i0 <= j <= i ==> #[trigger] group_fits(d, o, j),
    decreases n - i0,
{
    if in_group(d, o, i0, c) {
        assert(forall|j: int| i0 <= j <= i0 ==> #[trigger] group_fits(d, o, j));
    } else {
        lemma_scan_group(d, o, n, c, i0 + 1, constant);
        let i = choose|i: int|
            i0 + 1 <= i < n && #[trigger] in_group(d, o, i, c) && forall|j: int| i0 + 1 <= j <= i ==> #[trigger] group_fits(d, o, j);
        assert(forall|j: int| i0 <= j <= i ==> #[trigger] group_fits(d, o, j));
    }
}

/// Glyph of `c` in a format 12 or 13 subtable at `o`.
pub open spec fn fmt12_glyph(d: Seq<u8>, o: int, c: int, constant: bool) -> int {
    if o + 16 > d.len() {
        0
    } else {
        fmt12_scan(d, o, be32(d, o + 12), c, 0, constant)
    }
}

/// The nominal glyph of `c` through the subtable `p`; a symbol subtable
/// also tries `c` moved into the private use area at U+F000.
pub open spec fn glyph_of(d: Seq<u8>, p: (u32, u8, bool), c: u32) -> u16 {
    if p.0 == 0 || c > MAX_CODEPOINT {
        0
    } else if p.1 == 4 {
        let g = fmt4_glyph(d, p.0 as int, c as int);
        if g == 0 && p.2 && c <= 0xff {
            fmt4_glyph(d, p.0 as int, c + 0xf000) as u16
        } else {
            g as u16
        }
    } else if p.1 == 12 || p.1 == 13 {
        fmt12_glyph(d, p.0 as int, c as int, p.1 == 13) as u16
    } else if p.1 == 0 {
        fmt0_glyph(d, p.0 as int, c as int) as u16
    } else if p.1 == 6 {
        fmt6_glyph(d, p.0 as int, c as int) as u16
    } else {
        0
    }
}

/// Glyph of `c` in a format 0 subtable at `o`: a byte for each of the
/// first 256 characters.
pub open spec fn fmt0_glyph(d: Seq<u8>, o: int, c: int) -> int {
    if c > 0xff || o + 6 + c + 1 > d.len() {
        0
    } else {
        d[o + 6 + c] as int
    }
}

/// Glyph of `c` in a format 6 subtable at `o`: a glyph for each character
/// of a contiguous range.
pub open spec fn fmt6_glyph(d: Seq<u8>, o: int, c: int) -> int {
    if c > 0xffff || o + 10 > d.len() || c < be16(d, o + 6) || c >= be16(d, o + 6) + be16(d, o + 8) {
        0
    } else {
        let at = o + 10 + 2 * (c - be16(d, o + 6));
        if at + 2 > d.len() {
            0
        } else {
            be16(d, at)
        }
    }
}

fn choose_subtable(font: &FontRef) -> (r: (u32, u8, bool))
    ensures
        r == chosen_subtable(font.data@, font.offset as int),
{
    let d = font.data;
    let (a, _b) = match font.table_range(CMAP) {
        Some(r) => r,
        None => {
            return (0, 0, false);
        },
    };
    let cmap = a as u64;
    let n = match read_u16(d, cmap + 2) {
        Some(n) => n,
        None => {
            return (0, 0, false);
        },
    };
    let mut best: (u32, u8, bool) = (0, 0, false);
    let mut i: u16 = 0;
    while i < n
        invariant
            i <= n,
            d@ == font.data@,
            table_range_of(d@, font.offset as int, CMAP).is_some(),
            table_range_of(d@, font.offset as int, CMAP).unwrap().0 == cmap,
            cmap + 4 <= d@.len(),
            n == be16(d@, cmap + 2),
            cmap <= u32::MAX,
            chosen_subtable(d@, font.offset as int) == pick(d@, cmap as int, n as int, i as int, best),
        decreases n - i,
    {
        let rec = cmap + 4 + 8 * (i as u64);
        if rec > d.len() as u64 || d.len() as u64 - rec < 8 {
            return best;
        }
        let platform = read_u16(d, rec).unwrap();
        let encoding = read_u16(d, rec + 2).unwrap();
        let offset = read_u32(d, rec + 4).unwrap();
        let at = cmap + offset as u64;
        let unicode = platform == 0 || (platform == 3 && (encoding == 0 || encoding == 1 || encoding == 10));
        if unicode && at != 0 && at <= u32::MAX as u64 {
            if let Some(format) = read_u16(d, at) {
                if format == 0 || format == 4 || format == 6 || format == 12 || format == 13 {
                    let f = format as u8;
                    if best.0 == 0 || rank_of(f) > rank_of(best.1) {
                        best = (at as u32, f, platform == 3 && encoding == 0);
                    }
                }
            }
        }
        i = i + 1;
    }
    best
}

fn map_fmt4(d: &[u8], o: u64, c: u32) -> (r: u16)
    requires
        o <= u32::MAX,
    ensures
        r == fmt4_glyph(d@, o as int, c as int),
{
    if c > 0xffff {
        return 0;
    }
    let segs2 = match read_u16(d, o + 6) {
        Some(n) => n as u64,
        None => {
            return 0;
        },
    };
    let c64 = c as u64;
    let mut i: u64 = 0;
    while i + 2 <= segs2
        invariant
            o <= u32::MAX,
            o + 8 <= d@.len(),
            c64 == c,
            c <= 0xffff,
            segs2 == be16(d@, o + 6),
            segs2 <= 0xffff,
            i <= segs2,
            fmt4_glyph(d@, o as int, c as int) == fmt4_scan(d@, o as int, segs2 as int, c as int, i as int),
        decreases segs2 - i,
    {
        let end_at = o + 14 + i;
        let start_at = o + 16 + segs2 + i;
        let delta_at = o + 16 + 2 * segs2 + i;
        let range_at = o + 16 + 3 * segs2 + i;
        let range = match read_u16(d, range_at) {
            Some(v) => v as u64,
            None => {
                return 0;
            },
        };
        let end = read_u16(d, end_at).unwrap() as u64;
        let start = read_u16(d, start_at).unwrap() as u64;
        let delta = read_u16(d, delta_at).unwrap() as u64;
        if end < c64 {
            i = i + 2;
        } else if start > c64 {
            return 0;
        } else if range == 0 {
            return ((c64 + delta) % 65536) as u16;
        } else {
            let at = range_at + range + 2 * (c64 - start);
            return match read_u16(d, at) {
                Some(g) => if g == 0 {
                    0
                } else {
                    ((g as u64 + delta) % 65536) as u16
                },
                None => 0,
            };
        }
    }
    0
}

fn map_fmt0(d: &[u8], o: u64, c: u32) -> (r: u16)
    requires
        o <= u32::MAX,
    ensures
        r == fmt0_glyph(d@, o as int, c as int),
{
    if c > 0xff || o + 6 + c as u64 + 1 > d.len() as u64 {
        0
    } else {
        d[(o + 6 + c as u64) as usize] as u16
    }
}

fn map_fmt6(d: &[u8], o: u64, c: u32) -> (r: u16)
    requires
        o <= u32::MAX,
    ensures
        r == fmt6_glyph(d@, o as int, c as int),
{
    if c > 0xffff || o + 10 > d.len() as u64 {
        return 0;
    }
    let first = read_u16(d, o + 6).unwrap() as u64;
    let count = read_u16(d, o + 8).unwrap() as u64;
    let c64 = c as u64;
    if c64 < first || c64 >= first + count {
        return 0;
    }
    match read_u16(d, o + 10 + 2 * (c64 - first)) {
        Some(g) => g,
        None => 0,
    }
}

fn map_fmt12(d: &[u8], o: u64, c: u32, constant: bool) -> (r: u16)
    requires
        o <= u32::MAX,
    ensures
        r == fmt12_glyph(d@, o as int, c as int, constant),
{
    let n = match read_u32(d, o + 12) {
        Some(n) => n as u64,
        None => {
            return 0;
        },
    };
    if o + 16 > d.len() as u64 {
        return 0;
    }
    let c64 = c as u64;
    let mut i: u64 = 0;
    while i < n
        invariant
            o <= u32::MAX,
            o + 16 <= d@.len(),
            c64 == c,
            n == be32(d@, o + 12),
            n <= u32::MAX,
            fmt12_glyph(d@, o as int, c as int, constant) == fmt12_scan(
                d@,
                o as int,
                n as int,
                c as int,
                i as int,
                constant,
            ),
        decreases n - i,
    {
        let g = o + 16 + 12 * i;
        if g > d.len() as u64 || d.len() as u64 - g < 12 {
            return 0;
        }
        let start = read_u32(d, g).unwrap() as u64;
        let end = read_u32(d, g + 4).unwrap() as u64;
        let glyph = read_u32(d, g + 8).unwrap() as u64;
        if start <= c64 && c64 <= end {
            if constant {
                return (glyph % 65536) as u16;
            }
            return ((glyph + c64 - start) % 65536) as u16;
        }
        i = i + 1;
    }
    0
}

fn map_with(d: &[u8], p: CharmapProxy, c: u32) -> (r: u16)
    ensures
        r == glyph_of(d@, p.view_triple(), c),
{
    if p.0 == 0 || c > MAX_CODEPOINT {
        0
    } else if p.1 == 4 {
        let g = map_fmt4(d, p.0 as u64, c);
        if g == 0 && p.2 && c <= 0xff {
            map_fmt4(d, p.0 as u64, c + 0xf000)
        } else {
            g
        }
    } else if p.1 == 12 || p.1 == 13 {
        map_fmt12(d, p.0 as u64, c, p.1 == 13)
    } else if p.1 == 0 {
        map_fmt0(d, p.0 as u64, c)
    } else if p.1 == 6 {
        map_fmt6(d, p.0 as u64, c)
    } else {
        0
    }
}

impl CharmapProxy {
    /// Creates a character map proxy from the specified font.
    pub fn from_font(font: &FontRef) -> (r: Self)
        ensures
            r.view_triple() == chosen_subtable(font.data@, font.offset as int),
    {
        let (offset, format, symbol) = choose_subtable(font);
        CharmapProxy(offset, format, symbol)
    }

    /// Materializes a character map from the specified font. The proxy
    /// must have been created from the same font.
    pub fn materialize<'a>(&self, font: &FontRef<'a>) -> (r: Charmap<'a>)
        ensures
            r.data()@ == font.data@,
            r.proxy_view() == self.view_triple(),
    {
        Charmap { data: font.data, proxy: *self }
    }
}

/// Maps characters to nominal glyph identifiers.
#[derive(Copy, Clone)]
pub struct Charmap<'a> {
    data: &'a [u8],
    proxy: CharmapProxy,
}

impl<'a> Charmap<'a> {
    pub closed spec fn data(&self) -> &'a [u8] {
        self.data
    }

    pub closed spec fn proxy_view(&self) -> (u32, u8, bool) {
        self.proxy.view_triple()
    }

    /// The glyph that `map` returns for `c`.
    pub open spec fn glyph(&self, c: u32) -> u16 {
        glyph_of(self.data()@, self.proxy_view(), c)
    }

    /// Creates a character map from the specified font.
    pub fn from_font(font: &FontRef<'a>) -> (r: Self)
        ensures
            r.data()@ == font.data@,
            r.proxy_view() == chosen_subtable(font.data@, font.offset as int),
    {
        let proxy = CharmapProxy::from_font(font);
        Charmap { data: font.data, proxy }
    }

    /// Returns the associated proxy.
    pub fn proxy(&self) -> (r: CharmapProxy)
        ensures
            r.view_triple() == self.proxy_view(),
    {
        self.proxy
    }

    /// Returns the nominal glyph identifier for `codepoint`; 0 where the
    /// subtable has none.
    pub fn map(&self, codepoint: u32) -> (r: GlyphId)
        ensures
            r == self.glyph(codepoint),
    {
        map_with(self.data, self.proxy, codepoint)
    }

    /// Returns every codepoint that maps to a glyph other than 0, with that
    /// glyph, and no other pair. Format 12 and 13 subtables are walked group
    /// by group, in the subtable's order; others codepoint by codepoint.
    pub fn enumerate(&self) -> (r: Vec<(u32, GlyphId)>)
        ensures
            forall|c: u32| #[trigger] self.glyph(c) != 0 ==> r@.contains((c, self.glyph(c))),
            forall|k: int| 0 <= k < r@.len() ==> r@[k].1 != 0 && r@[k].1 == self.glyph(r@[k].0),
    {
        let mut r: Vec<(u32, GlyphId)> = Vec::new();
        if self.proxy.0 == 0 {
            return r;
        }
        if self.proxy.1 == 12 || self.proxy.1 == 13 {
            return self.enumerate_groups();
        }
        let last: u32 = if self.proxy.1 == 12 || self.proxy.1 == 13 { MAX_CODEPOINT } else { 0xffff };
        let mut c: u32 = 0;
        while c <= last
            invariant
                last <= MAX_CODEPOINT,
                last == (if self.proxy.1 == 12 || self.proxy.1 == 13 { MAX_CODEPOINT } else { 0xffffu32 }),
                self.proxy.0 != 0,
                forall|x: u32| x < c && #[trigger] self.glyph(x) != 0 ==> r@.contains((x, self.glyph(x))),
                forall|k: int| 0 <= k < r@.len() ==> r@[k].1 != 0 && r@[k].1 == self.glyph(r@[k].0),
            decreases last - c + 1,
        {
            let g = self.map(c);
            let ghost r0 = r@;
            if g != 0 {
                r.push((c, g));
            }
            assert forall|x: u32| x < c + 1 && #[trigger] self.glyph(x) != 0 implies r@.contains(
                (x, self.glyph(x)),
            ) by {
                if x == c {
                    assert(r@[r@.len() - 1] == (x, self.glyph(x)));
                } else {
                    assert(r0.contains((x, self.glyph(x))));
                    let j = choose|j: int| 0 <= j < r0.len() && r0[j] == (x, self.glyph(x));
                    assert(r@[j] == r0[j]);
                }
            }
            if c == last {
                proof {
                    assert forall|x: u32| #[trigger] self.glyph(x) != 0 implies r@.contains((x, self.glyph(x))) by {
                        if x > last {
                            assert(self.glyph(x) == 0);
                        }
                    }
                }
                return r;
            }
            c = c + 1;
        }
        r
    }
}

impl<'a> Charmap<'a> {
    /// Enumerates a format 12 or 13 subtable group by group.
    fn enumerate_groups(&self) -> (r: Vec<(u32, GlyphId)>)
        requires
            self.proxy.0 != 0,
            self.proxy.1 == 12 || self.proxy.1 == 13,
        ensures
            forall|c: u32| #[trigger] self.glyph(c) != 0 ==> r@.contains((c, self.glyph(c))),
            forall|k: int| 0 <= k < r@.len() ==> r@[k].1 != 0 && r@[k].1 == self.glyph(r@[k].0),
    {
        let d = self.data;
        let o = self.proxy.0 as u64;
        let mut r: Vec<(u32, GlyphId)> = Vec::new();
        if o + 16 > d.len() as u64 {
            return r;
        }
        let n = read_u32(d, o + 12).unwrap() as u64;
        let mut i: u64 = 0;
        while i < n && o + 16 + 12 * i + 12 <= d.len() as u64
            invariant
                d@ == self.data@,
                o == self.proxy.0,
                self.proxy.0 != 0,
                self.proxy.1 == 12 || self.proxy.1 == 13,
                o + 16 <= d@.len(),
                n == be32(d@, o + 12),
                n <= u32::MAX,
                i <= n,
                forall|j: int| 0 <= j < i ==> #[trigger] group_fits(d@, o as int, j),
                forall|j: int, c: u32|
                    0 <= j < i && #[trigger] in_group(d@, o as int, j, c as int) && #[trigger] self.glyph(c) != 0
                        ==> r@.contains((c, self.glyph(c))),
                forall|k: int| 0 <= k < r@.len() ==> r@[k].1 != 0 && r@[k].1 == self.glyph(r@[k].0),
            decreases n - i,
        {
            let g = o + 16 + 12 * i;
            let start = read_u32(d, g).unwrap();
            let end = read_u32(d, g + 4).unwrap();
            let hi: u64 = if end > MAX_CODEPOINT { MAX_CODEPOINT as u64 } else { end as u64 };
            let mut c: u64 = start as u64;
            while c <= hi
                invariant
                    d@ == self.data@,
                    o == self.proxy.0,
                    self.proxy.0 != 0,
                    self.proxy.1 == 12 || self.proxy.1 == 13,
                    hi <= MAX_CODEPOINT,
                    start <= c,
                    c <= hi + 1 || c == start,
                    forall|j: int, x: u32|
                        0 <= j < i && #[trigger] in_group(d@, o as int, j, x as int) && #[trigger] self.glyph(x) != 0
                            ==> r@.contains((x, self.glyph(x))),
                    forall|x: u32| start <= x < c && #[trigger] self.glyph(x) != 0 ==> r@.contains((x, self.glyph(x))),
                    forall|k: int| 0 <= k < r@.len() ==> r@[k].1 != 0 && r@[k].1 == self.glyph(r@[k].0),
                decreases hi + 1 - c,
            {
                let cc = c as u32;
                let gl = self.map(cc);
                let ghost r0 = r@;
                if gl != 0 {
                    r.push((cc, gl));
                    assert(r@[r@.len() - 1] == (cc, self.glyph(cc)));
                }
                assert forall|t: (u32, GlyphId)| r0.contains(t) implies r@.contains(t) by {
                    let k = choose|k: int| 0 <= k < r0.len() && r0[k] == t;
                    assert(r@[k] == r0[k]);
                }
                c = c + 1;
            }
            assert forall|x: u32| #[trigger] in_group(d@, o as int, i as int, x as int) && self.glyph(x) != 0 implies r@.contains(
                (x, self.glyph(x)),
            ) by {
                assert(start <= x);
                if x > hi {
                    assert(x > MAX_CODEPOINT);
                }
            }
            i = i + 1;
        }
        assert forall|c: u32| #[trigger] self.glyph(c) != 0 implies r@.contains((c, self.glyph(c))) by {
            let k = self.proxy.1 == 13;
            assert(fmt12_scan(d@, o as int, n as int, c as int, 0, k) != 0);
            lemma_scan_group(d@, o as int, n as int, c as int, 0, k);
            let w = choose|w: int|
                0 <= w < n && #[trigger] in_group(d@, o as int, w, c as int) && forall|j: int|
                    0 <= j <= w ==> #[trigger] group_fits(d@, o as int, j);
            if w >= i {
                assert(group_fits(d@, o as int, i as int));
            }
        }
        r
    }
}

} // verus!
