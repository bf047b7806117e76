/*!
Borrowed font data: big-endian reads and the table directory.
*/

use vstd::prelude::*;
use vstd::slice::slice_subrange;
use crate::charmap::Charmap;

verus! {

/// Tag of the character map table.
pub const CMAP: u32 = 0x636d6170;

/// Tag of the font header table.
pub const HEAD: u32 = 0x68656164;

/// Tag of the maximum profile table.
pub const MAXP: u32 = 0x6d617870;

/// Tag of the horizontal header table.
pub const HHEA: u32 = 0x68686561;

/// Tag of the horizontal metrics table.
pub const HMTX: u32 = 0x686d7478;

/// Font-wide metrics of the default instance, in font units.
#[derive(Copy, Clone, Debug, PartialEq, Eq, Structural)]
pub struct Metrics {
    pub units_per_em: u16,
    pub glyph_count: u16,
    pub ascent: i16,
    pub descent: i16,
    pub leading: i16,
}

/// Per-glyph horizontal metrics of the default instance.
#[derive(Copy, Clone)]
pub struct GlyphMetrics<'a> {
    data: &'a [u8],
    hmtx: u32,
    hmtx_end: u32,
    long_metrics: u16,
}

/// The 16-bit field at `off` in the table `tag`, 0 where the table is
/// missing or too short.
pub open spec fn table_field(d: Seq<u8>, base: int, tag: u32, off: int) -> int {
    match table_range_of(d, base, tag) {
        Some((a, b)) => if a + off + 2 <= b && b <= d.len() && b <= u32::MAX {
            be16(d, a + off)
        } else {
            0
        },
        None => 0,
    }
}

/// The advance width of glyph `g` in a horizontal metrics table spanning
/// `a..b` with `n` long metrics: glyphs past the last long metric take its
/// advance.
pub open spec fn advance_of(d: Seq<u8>, a: int, b: int, n: int, g: int) -> int {
    let k = if g < n { g } else { n - 1 };
    if n == 0 || a == 0 || a + 4 * k + 2 > b || b > d.len() {
        0
    } else {
        be16(d, a + 4 * k)
    }
}

/// The advance width of glyph `g` in the font whose directory is at `base`:
/// read from its horizontal metrics table, with the number of long metrics
/// from its horizontal header; 0 without such a table.
pub open spec fn font_advance(d: Seq<u8>, base: int, g: int) -> int {
    match table_range_of(d, base, HMTX) {
        Some((a, b)) => if b <= d.len() && b <= u32::MAX {
            advance_of(d, a, b, table_field(d, base, HHEA, 34), g)
        } else {
            0
        },
        None => 0,
    }
}

impl<'a> GlyphMetrics<'a> {
    pub closed spec fn spec_advance(&self, g: u16) -> int {
        advance_of(self.data@, self.hmtx as int, self.hmtx_end as int, self.long_metrics as int, g as int)
    }

    /// The horizontal metrics of the font.
    pub closed spec fn of_font(&self, font: FontRef) -> bool {
        &&& self.data@ == font.data@
        &&& self.long_metrics == table_field(font.data@, font.offset as int, HHEA, 34)
        &&& match table_range_of(font.data@, font.offset as int, HMTX) {
            Some((a, b)) => if b <= font.data@.len() && b <= u32::MAX {
                self.hmtx == a && self.hmtx_end == b
            } else {
                self.hmtx == 0
            },
            None => self.hmtx == 0,
        }
    }

    /// Returns the advance width of glyph `id`; 0 without metrics.
    pub fn advance_width(&self, id: u16) -> (r: u16)
        ensures
            r == self.spec_advance(id),
    {
        let n = self.long_metrics as u64;
        if n == 0 || self.hmtx == 0 {
            return 0;
        }
        let k: u64 = if (id as u64) < n { id as u64 } else { n - 1 };
        let at = self.hmtx as u64 + 4 * k;
        if at + 2 > self.hmtx_end as u64 || self.hmtx_end as u64 > self.data.len() as u64 {
            return 0;
        }
        read_u16(self.data, at).unwrap()
    }
}

/// Big-endian 16-bit value at `o`.
pub open spec fn be16(d: Seq<u8>, o: int) -> int {
    d[o] * 256 + d[o + 1]
}

/// Big-endian 32-bit value at `o`.
pub open spec fn be32(d: Seq<u8>, o: int) -> int {
    be16(d, o) * 65536 + be16(d, o + 2)
}

/// Reads a big-endian 16-bit value at `o`, if it lies within `d`.
pub fn read_u16(d: &[u8], o: u64) -> (r: Option<u16>)
    ensures
        r == if o + 2 <= d@.len() { Some(be16(d@, o as int) as u16) } else { None::<u16> },
{
    let len = d.len() as u64;
    if o > len || len - o < 2 {
        None
    } else {
        let i = o as usize;
        Some((d[i] as u16) * 256 + (d[i + 1] as u16))
    }
}

/// Reads a big-endian 32-bit value at `o`, if it lies within `d`.
pub fn read_u32(d: &[u8], o: u64) -> (r: Option<u32>)
    ensures
        r == if o + 4 <= d@.len() { Some(be32(d@, o as int) as u32) } else { None::<u32> },
{
    let len = d.len() as u64;
    if o > len || len - o < 4 {
        None
    } else {
        let i = o as usize;
        let hi = (d[i] as u32) * 256 + (d[i + 1] as u32);
        let lo = (d[i + 2] as u32) * 256 + (d[i + 3] as u32);
        Some(hi * 65536 + lo)
    }
}

/// Reference to the data of one font: the bytes of its file, the offset of
/// its table directory, and a stable key that identifies it.
#[derive(Copy, Clone)]
pub struct FontRef<'a> {
    pub data: &'a [u8],
    pub offset: u32,
    pub key: u64,
}

/// The byte range of the table `tag`, searching the directory records from
/// `i` on: the first record with that tag whose fields can be read.
pub open spec fn dir_lookup(d: Seq<u8>, base: int, n: int, tag: u32, i: int) -> Option<(int, int)>
    decreases n - i,
{
    if i >= n || i < 0 {
        None
    } else {
        let rec = base + 12 + 16 * i;
        if rec + 16 > d.len() {
            None
        } else if be32(d, rec) == tag {
            Some((be32(d, rec + 8), be32(d, rec + 8) + be32(d, rec + 12)))
        } else {
            dir_lookup(d, base, n, tag, i + 1)
        }
    }
}

/// The byte range of the table `tag` in the font's directory.
pub open spec fn table_range_of(d: Seq<u8>, base: int, tag: u32) -> Option<(int, int)> {
    if base + 6 > d.len() {
        None
    } else {
        dir_lookup(d, base, be16(d, base + 4), tag, 0)
    }
}

impl<'a> FontRef<'a> {
    /// Creates a reference to the font whose table directory is at `offset`.
    pub fn new(data: &'a [u8], offset: u32, key: u64) -> (r: FontRef<'a>)
        ensures
            r.data@ == data@,
            r.offset == offset,
            r.key == key,
    {
        FontRef { data, offset, key }
    }

    /// Returns the byte range of the table `tag`, if the directory lists it
    /// and the range fits in 32 bits.
    pub fn table_range(&self, tag: u32) -> (r: Option<(u32, u32)>)
        ensures
            r.is_some() <==> (table_range_of(self.data@, self.offset as int, tag).is_some()
                && table_range_of(self.data@, self.offset as int, tag).unwrap().1 <= u32::MAX),
            r.is_some() ==> table_range_of(self.data@, self.offset as int, tag) == Some(
                (r.unwrap().0 as int, r.unwrap().1 as int),
            ),
    {
        let d = self.data;
        let base = self.offset as u64;
        let n = match read_u16(d, base + 4) {
            Some(n) => n,
            None => {
                return None;
            },
        };
        let mut i: u16 = 0;
        while i < n
            invariant
                i <= n,
                base == self.offset,
                d@ == self.data@,
                base + 6 <= d@.len(),
                n == be16(d@, base + 4),
                table_range_of(d@, base as int, tag) == dir_lookup(d@, base as int, n as int, tag, i as int),
            decreases n - i,
        {
            let rec = base + 12 + 16 * (i as u64);
            if rec > d.len() as u64 || d.len() as u64 - rec < 16 {
                return None;
            }
            let t = read_u32(d, rec).unwrap();
            if t == tag {
                let start = read_u32(d, rec + 8).unwrap();
                let len = read_u32(d, rec + 12).unwrap();
                if len > u32::MAX - start {
                    return None;
                }
                return Some((start, start + len));
            }
            i = i + 1;
        }
        None
    }

    /// Returns the data of the table `tag`, when it lies within the font's
    /// bytes.
    pub fn table(&self, tag: u32) -> (r: Option<&'a [u8]>)
        ensures
            r.is_some() <==> (exists|a: int, b: int|
                table_range_of(self.data@, self.offset as int, tag) == Some((a, b)) && 0 <= a <= b
                    <= self.data@.len() && b <= u32::MAX),
            r.is_some() ==> (exists|a: int, b: int|
                table_range_of(self.data@, self.offset as int, tag) == Some((a, b)) && r.unwrap()@
                    == self.data@.subrange(a, b)),
    {
        let range = self.table_range(tag);
        match range {
            Some((a, b)) => {
                if a <= b && (b as usize) <= self.data.len() {
                    Some(slice_subrange(self.data, a as usize, b as usize))
                } else {
                    None
                }
            },
            None => None,
        }
    }

    fn field(&self, tag: u32, off: u32) -> (r: u16)
        ensures
            r == table_field(self.data@, self.offset as int, tag, off as int),
    {
        match self.table_range(tag) {
            Some((a, b)) => {
                if (a as u64) + (off as u64) + 2 <= b as u64 && (b as u64) <= self.data.len() as u64 {
                    read_u16(self.data, a as u64 + off as u64).unwrap()
                } else {
                    0
                }
            },
            None => 0,
        }
    }

    /// Returns the metrics of the default instance. Variation coordinates
    /// are accepted for the interface; no variation tables are read.
    pub fn metrics(&self, coords: &[i16]) -> (r: Metrics)
        ensures
            r.units_per_em == table_field(self.data@, self.offset as int, HEAD, 18),
            r.glyph_count == table_field(self.data@, self.offset as int, MAXP, 4),
            r.ascent == table_field(self.data@, self.offset as int, HHEA, 4) as i16,
            r.descent == table_field(self.data@, self.offset as int, HHEA, 6) as i16,
            r.leading == table_field(self.data@, self.offset as int, HHEA, 8) as i16,
    {
        Metrics {
            units_per_em: self.field(HEAD, 18),
            glyph_count: self.field(MAXP, 4),
            ascent: self.field(HHEA, 4) as i16,
            descent: self.field(HHEA, 6) as i16,
            leading: self.field(HHEA, 8) as i16,
        }
    }

    /// Returns the horizontal glyph metrics of the default instance.
    pub fn glyph_metrics(&self, coords: &[i16]) -> (r: GlyphMetrics<'a>)
        ensures
            r.of_font(*self),
            forall|g: u16| #[trigger] r.spec_advance(g) == font_advance(self.data@, self.offset as int, g as int),
    {
        let long_metrics = self.field(HHEA, 34);
        let (hmtx, hmtx_end) = match self.table_range(HMTX) {
            Some((a, b)) => if (b as u64) <= self.data.len() as u64 {
                (a, b)
            } else {
                (0, 0)
            },
            None => (0, 0),
        };
        GlyphMetrics { data: self.data, hmtx, hmtx_end, long_metrics }
    }

    /// Returns the character map of the font.
    pub fn charmap(&self) -> (r: Charmap<'a>)
        ensures
            r.data()@ == self.data@,
            r.proxy_view() == crate::charmap::chosen_subtable(self.data@, self.offset as int),
    {
        Charmap::from_font(self)
    }
}

} // verus!
