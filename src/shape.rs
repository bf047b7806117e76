/*!
Seeding the shaping buffer from characters, and reading clusters and
glyphs back out of it.
*/

use vstd::prelude::*;
use crate::aat::{
    apply_kern, apply_kerx, kern_passes, kerx_passes, lemma_kern_in_order, lemma_kerx_in_order, KernSubtable, KerxSubtable,
};
use crate::buffer::{in_order, lemma_ordered_in_order, ordered, Buffer, BufferState, GlyphData, PositionData, ShapeClass};
use crate::metamorphosis::{apply_morx, chains_run, lemma_chains_in_order, MorxChain};
use crate::charmap::Charmap;
use crate::cluster::{Glyph, SourceRange};
use crate::font::GlyphMetrics;

verus! {

/// A character handed to the shaper, with what text analysis found of it.
#[derive(Copy, Clone, Debug, PartialEq, Eq, Structural)]
pub struct CharInput {
    pub codepoint: u32,
    pub class: ShapeClass,
    pub joining_type: u8,
    pub data: u32,
}

/// A cluster of the output: its source range, the range of its glyphs in
/// the buffer, and the user data of its character.
#[derive(Copy, Clone, Debug, PartialEq, Eq, Structural)]
pub struct ClusterSpan {
    pub source: SourceRange,
    pub glyph_start: usize,
    pub glyph_end: usize,
    pub data: u32,
}

/// The glyph record seeded for character `j`.
pub open spec fn seed_glyph(ch: CharInput, j: int, cmap: Charmap) -> GlyphData {
    GlyphData {
        id: cmap.glyph(ch.codepoint),
        cluster: j as u32,
        joining_type: ch.joining_type,
        char_class: ch.class,
        flags: 0,
        data: ch.data,
    }
}

/// The position record seeded for a glyph: its advance from the metrics.
pub open spec fn seed_position(id: u16, hm: GlyphMetrics) -> PositionData {
    PositionData { advance: hm.spec_advance(id) as i32, x: 0, y: 0, base: 0, flags: 0 }
}

/// One glyph per character but control characters, in order.
pub open spec fn seed_glyphs(chars: Seq<CharInput>, cmap: Charmap) -> Seq<GlyphData>
    decreases chars.len(),
{
    if chars.len() == 0 {
        Seq::empty()
    } else {
        let rest = seed_glyphs(chars.drop_last(), cmap);
        if chars.last().class == ShapeClass::Control {
            rest
        } else {
            rest.push(seed_glyph(chars.last(), chars.len() - 1, cmap))
        }
    }
}

/// The spans of one cluster per character: span `j` covers the source of
/// character `j` and holds exactly the glyphs whose cluster is `j`, the
/// spans following one another through the glyphs.
pub open spec fn char_spans(r: Seq<ClusterSpan>, g: Seq<GlyphData>, chars: Seq<CharInput>) -> bool {
    &&& r.len() == chars.len()
    &&& forall|j: int|
        0 <= j < r.len() ==> {
            &&& r[j].source == SourceRange { start: j as u32, end: (j + 1) as u32 }
            &&& r[j].data == chars[j].data
            &&& r[j].glyph_start <= r[j].glyph_end <= g.len()
            &&& forall|k: int| r[j].glyph_start <= k < r[j].glyph_end ==> g[k].cluster == j
        }
    &&& forall|j: int| 0 <= j < r.len() - 1 ==> r[j].glyph_end == r[j + 1].glyph_start
    &&& r.len() > 0 ==> r[0].glyph_start == 0 && r[r.len() - 1].glyph_end == g.len()
}

/// Cluster indices never decrease along `g` and stay below `n`.
pub open spec fn clusters_in_order(g: Seq<GlyphData>, n: int) -> bool {
    &&& forall|a: int, b: int| 0 <= a < b < g.len() ==> g[a].cluster <= g[b].cluster
    &&& forall|k: int| 0 <= k < g.len() ==> g[k].cluster < n
}

/// Total length of the source ranges of `spans`.
pub open spec fn source_total(spans: Seq<ClusterSpan>) -> int
    decreases spans.len(),
{
    if spans.len() == 0 {
        0
    } else {
        source_total(spans.drop_last()) + spans.last().source.end - spans.last().source.start
    }
}

proof fn lemma_source_total(spans: Seq<ClusterSpan>)
    requires
        forall|j: int| 0 <= j < spans.len() ==> spans[j].source.end == spans[j].source.start + 1,
    ensures
        source_total(spans) == spans.len(),
    decreases spans.len(),
{
    if spans.len() > 0 {
        lemma_source_total(spans.drop_last());
    }
}

/// Every seeded glyph belongs to a character that is no control character,
/// and seeded clusters are in order.
pub proof fn lemma_seed_glyphs(chars: Seq<CharInput>, cmap: Charmap)
    requires
        chars.len() <= u32::MAX,
    ensures
        clusters_in_order(seed_glyphs(chars, cmap), chars.len() as int),
        forall|k: int|
            0 <= k < seed_glyphs(chars, cmap).len() ==> chars[seed_glyphs(chars, cmap)[k].cluster as int].class
                != ShapeClass::Control,
        seed_glyphs(chars, cmap).len() <= chars.len(),
    decreases chars.len(),
{
    if chars.len() > 0 {
        let rest = chars.drop_last();
        lemma_seed_glyphs(rest, cmap);
        let g = seed_glyphs(chars, cmap);
        assert forall|k: int| 0 <= k < g.len() implies chars[g[k].cluster as int].class != ShapeClass::Control by {
            if k < seed_glyphs(rest, cmap).len() {
                assert(chars[g[k].cluster as int] == rest[g[k].cluster as int]);
            }
        }
    }
}

/// Creates a buffer in logical order holding one glyph for each character
/// that is no control character, its nominal glyph from the character map
/// and its advance from the glyph metrics; its cluster is the character's
/// index.
pub fn seed(chars: &Vec<CharInput>, cmap: &Charmap, hm: &GlyphMetrics, is_rtl: bool) -> (r: Buffer)
    requires
        chars@.len() <= u32::MAX,
    ensures
        r.wf(),
        r@.glyphs == seed_glyphs(chars@, *cmap),
        forall|k: int| 0 <= k < r@.positions.len() ==> r@.positions[k] == seed_position(r@.glyphs[k].id, *hm),
        r@.is_rtl == is_rtl,
        !r@.reversed,
        !r@.has_marks,
        r@.merged.len() == 0,
        in_order(r@, chars@.len() as int),
{
    let mut b = Buffer::new(is_rtl);
    let mut j: usize = 0;
    while j < chars.len()
        invariant
            j <= chars@.len() <= u32::MAX,
            b.wf(),
            b@.glyphs == seed_glyphs(chars@.take(j as int), *cmap),
            forall|k: int| 0 <= k < b@.positions.len() ==> b@.positions[k] == seed_position(b@.glyphs[k].id, *hm),
            b@.is_rtl == is_rtl,
            !b@.reversed,
            !b@.has_marks,
            b@.merged.len() == 0,
        decreases chars@.len() - j,
    {
        let ch = chars[j];
        assert(chars@.take(j + 1).drop_last() =~= chars@.take(j as int));
        if ch.class != ShapeClass::Control {
            let id = cmap.map(ch.codepoint);
            let g = GlyphData {
                id,
                cluster: j as u32,
                joining_type: ch.joining_type,
                char_class: ch.class,
                flags: 0,
                data: ch.data,
            };
            let advance = hm.advance_width(id) as i32;
            b.push(g, PositionData { advance, x: 0, y: 0, base: 0, flags: 0 });
        }
        j = j + 1;
    }
    assert(chars@.take(j as int) =~= chars@);
    proof {
        lemma_seed_glyphs(chars@, *cmap);
    }
    b
}

/// The clusters of a buffer in logical order whose cluster indices are in
/// order: one for each character, holding the glyphs of that character.
pub fn cluster_spans(buffer: &Buffer, chars: &Vec<CharInput>) -> (r: Vec<ClusterSpan>)
    requires
        buffer.wf(),
        chars@.len() <= u32::MAX,
        clusters_in_order(buffer@.glyphs, chars@.len() as int),
    ensures
        char_spans(r@, buffer@.glyphs, chars@),
        source_total(r@) == chars@.len(),
{
    let g = buffer.glyphs();
    let len = g.len();
    let n = chars.len();
    let mut r: Vec<ClusterSpan> = Vec::new();
    let mut pos: usize = 0;
    let mut j: usize = 0;
    while j < n
        invariant
            g@ == buffer@.glyphs,
            len == g@.len(),
            n == chars@.len() <= u32::MAX,
            clusters_in_order(g@, n as int),
            j <= n,
            pos <= len,
            r@.len() == j,
            forall|k: int| 0 <= k < pos ==> g@[k].cluster < j,
            forall|k: int| pos <= k < len ==> g@[k].cluster >= j,
            forall|i: int|
                0 <= i < j ==> {
                    &&& r@[i].source == SourceRange { start: i as u32, end: (i + 1) as u32 }
                    &&& r@[i].data == chars@[i].data
                    &&& r@[i].glyph_start <= r@[i].glyph_end <= len
                    &&& forall|k: int| r@[i].glyph_start <= k < r@[i].glyph_end ==> g@[k].cluster == i
                },
            forall|i: int| 0 <= i < j - 1 ==> r@[i].glyph_end == r@[i + 1].glyph_start,
            j > 0 ==> r@[0].glyph_start == 0 && r@[j - 1].glyph_end == pos,
            j == 0 ==> pos == 0,
        decreases n - j,
    {
        let start = pos;
        while pos < len && g[pos].cluster == j as u32
            invariant
                g@ == buffer@.glyphs,
                len == g@.len(),
                start <= pos <= len,
                j < n,
                n <= u32::MAX,
                forall|k: int| start <= k < pos ==> g@[k].cluster == j,
            decreases len - pos,
        {
            pos = pos + 1;
        }
        assert forall|k: int| pos <= k < len implies g@[k].cluster >= j + 1 by {
            if pos < len {
                assert(g@[pos as int].cluster != j);
                assert(g@[pos as int].cluster >= j);
                assert(g@[pos as int].cluster <= g@[k].cluster);
            }
        }
        r.push(ClusterSpan {
            source: SourceRange { start: j as u32, end: j as u32 + 1 },
            glyph_start: start,
            glyph_end: pos,
            data: chars[j].data,
        });
        j = j + 1;
    }
    assert(pos == len) by {
        if pos < len {
            assert(g@[pos as int].cluster < n);
        }
    }
    proof {
        lemma_source_total(r@);
    }
    r
}

/// The glyphs of the buffer with their positions, in buffer order.
pub fn output_glyphs(buffer: &Buffer) -> (r: Vec<Glyph>)
    requires
        buffer.wf(),
    ensures
        r@.len() == buffer@.glyphs.len(),
        forall|k: int|
            0 <= k < r@.len() ==> r@[k] == (Glyph {
                id: buffer@.glyphs[k].id,
                x: buffer@.positions[k].x,
                y: buffer@.positions[k].y,
                advance: buffer@.positions[k].advance,
                data: buffer@.glyphs[k].data,
            }),
{
    let g = buffer.glyphs();
    let p = buffer.positions();
    let mut r: Vec<Glyph> = Vec::new();
    let mut k: usize = 0;
    while k < g.len()
        invariant
            g@ == buffer@.glyphs,
            p@ == buffer@.positions,
            g@.len() == p@.len(),
            k <= g@.len(),
            r@.len() == k,
            forall|i: int|
                0 <= i < k ==> r@[i] == (Glyph {
                    id: g@[i].id,
                    x: p@[i].x,
                    y: p@[i].y,
                    advance: p@[i].advance,
                    data: g@[i].data,
                }),
        decreases g@.len() - k,
    {
        r.push(Glyph { id: g[k].id, x: p[k].x, y: p[k].y, advance: p[k].advance, data: g[k].data });
        k = k + 1;
    }
    r
}

/// Clusters whose glyph ranges follow one another never overlap: an
/// earlier cluster's glyphs all come before a later cluster's.
pub proof fn lemma_spans_disjoint(spans: Seq<ClusterSpan>, a: int, b: int)
    requires
        0 <= a < b < spans.len(),
        forall|j: int| 0 <= j < spans.len() ==> spans[j].glyph_start <= spans[j].glyph_end,
        forall|j: int| 0 <= j < spans.len() - 1 ==> spans[j].glyph_end == spans[j + 1].glyph_start,
    ensures
        spans[a].glyph_end <= spans[b].glyph_start,
    decreases b - a,
{
    if a + 1 < b {
        lemma_spans_disjoint(spans, a + 1, b);
    }
}

/// The cluster of a control character holds no glyph of a seeded buffer.
pub proof fn lemma_control_cluster_empty(chars: Seq<CharInput>, cmap: Charmap, span: ClusterSpan, j: int)
    requires
        chars.len() <= u32::MAX,
        0 <= j < chars.len(),
        chars[j].class == ShapeClass::Control,
        span.glyph_start <= span.glyph_end <= seed_glyphs(chars, cmap).len(),
        forall|k: int| span.glyph_start <= k < span.glyph_end ==> seed_glyphs(chars, cmap)[k].cluster == j,
    ensures
        span.glyph_start == span.glyph_end,
{
    lemma_seed_glyphs(chars, cmap);
    if span.glyph_start < span.glyph_end {
        let k = span.glyph_start as int;
        assert(seed_glyphs(chars, cmap)[k].cluster == j);
    }
}

/// The legacy layout tables of a font: metamorphosis chains, and extended
/// kerning subtables where the font has that table, else classic kerning
/// subtables.
pub struct LegacyTables {
    pub morx: Vec<MorxChain>,
    pub kerx: Option<Vec<KerxSubtable>>,
    pub kern: Vec<KernSubtable>,
}

/// The state after the legacy engine: metamorphosis first, then extended
/// kerning, or classic kerning where the font has no extended table.
pub open spec fn legacy_shaped(
    s: BufferState,
    t: LegacyTables,
    selectors: Seq<(u16, u16)>,
    disable_kern: bool,
) -> BufferState {
    let m = ordered(chains_run(s, t.morx@, selectors), false);
    match t.kerx {
        Some(k) => ordered(kerx_passes(m, k@, disable_kern), false),
        None => ordered(kern_passes(m, t.kern@), false),
    }
}

/// Runs the legacy engine on the buffer and leaves it in logical order.
pub fn apply_legacy(buffer: &mut Buffer, tables: &LegacyTables, selectors: &Vec<(u16, u16)>, disable_kern: bool)
    requires
        old(buffer).wf(),
    ensures
        final(buffer).wf(),
        final(buffer)@ == legacy_shaped(old(buffer)@, *tables, selectors@, disable_kern),
        !final(buffer)@.reversed,
        forall|n: int| in_order(old(buffer)@, n) ==> #[trigger] in_order(final(buffer)@, n),
{
    let ghost s0 = buffer@;
    apply_morx(buffer, &tables.morx, selectors);
    match &tables.kerx {
        Some(k) => apply_kerx(buffer, k, disable_kern),
        None => apply_kern(buffer, &tables.kern),
    }
    proof {
        assert forall|c: int| in_order(s0, c) implies #[trigger] in_order(buffer@, c) by {
            let m0 = chains_run(s0, tables.morx@, selectors@);
            lemma_chains_in_order(s0, tables.morx@, selectors@, c);
            lemma_ordered_in_order(m0, false, c);
            let m = ordered(m0, false);
            match tables.kerx {
                Some(k) => {
                    lemma_kerx_in_order(m, k@, disable_kern, c);
                    lemma_ordered_in_order(kerx_passes(m, k@, disable_kern), false, c);
                },
                None => {
                    lemma_kern_in_order(m, tables.kern@, c);
                    lemma_ordered_in_order(kern_passes(m, tables.kern@), false, c);
                },
            }
        }
    }
}

/// Without legacy tables the engine changes nothing on a buffer in logical
/// order: one glyph per character stays, with its advance from the metrics.
pub proof fn lemma_no_tables_is_identity(
    s: BufferState,
    t: LegacyTables,
    selectors: Seq<(u16, u16)>,
    disable_kern: bool,
)
    requires
        !s.reversed,
        t.morx@.len() == 0,
        t.kerx.is_none(),
        t.kern@.len() == 0,
    ensures
        legacy_shaped(s, t, selectors, disable_kern) == s,
{
    assert(chains_run(s, t.morx@, selectors) == s);
    assert(kern_passes(s, t.kern@) == s);
}

/// The clusters recorded in `m` as merged into cluster `c`, in order.
pub open spec fn merged_into(m: Seq<(u32, u32)>, c: u32) -> Seq<u32>
    decreases m.len(),
{
    if m.len() == 0 {
        Seq::empty()
    } else {
        let rest = merged_into(m.drop_last(), c);
        if m.last().1 == c && m.last().0 != c {
            rest.push(m.last().0)
        } else {
            rest
        }
    }
}

/// The source range of the single character `c`.
pub open spec fn unit_range(c: u32) -> SourceRange {
    SourceRange { start: c, end: (c + 1) as u32 }
}

/// The component ranges of cluster `c`: empty unless other clusters were
/// merged into it; then its own range followed by theirs.
pub open spec fn components_of(m: Seq<(u32, u32)>, c: u32) -> Seq<SourceRange> {
    let into = merged_into(m, c);
    if into.len() == 0 {
        Seq::empty()
    } else {
        seq![unit_range(c)] + into.map_values(|x: u32| unit_range(x))
    }
}

/// Returns the component ranges of the cluster `cluster` (see `components_of`).
pub fn ligature_components(buffer: &Buffer, cluster: u32) -> (r: Vec<SourceRange>)
    requires
        cluster < u32::MAX,
        forall|k: int| 0 <= k < buffer@.merged.len() ==> buffer@.merged[k].0 < u32::MAX,
    ensures
        r@ == components_of(buffer@.merged, cluster),
{
    let m = buffer.merged();
    let mut rest: Vec<SourceRange> = Vec::new();
    let mut k: usize = 0;
    while k < m.len()
        invariant
            m@ == buffer@.merged,
            k <= m@.len(),
            forall|j: int| 0 <= j < m@.len() ==> m@[j].0 < u32::MAX,
            rest@ == merged_into(m@.take(k as int), cluster).map_values(|x: u32| unit_range(x)),
        decreases m@.len() - k,
    {
        assert(m@.take(k + 1).drop_last() =~= m@.take(k as int));
        let (from, into) = m[k];
        if into == cluster && from != cluster {
            rest.push(SourceRange { start: from, end: from + 1 });
        }
        assert(rest@ =~= merged_into(m@.take(k + 1), cluster).map_values(|x: u32| unit_range(x)));
        k = k + 1;
    }
    assert(m@.take(k as int) =~= m@);
    if rest.len() == 0 {
        return rest;
    }
    let mut r: Vec<SourceRange> = Vec::new();
    r.push(SourceRange { start: cluster, end: cluster + 1 });
    let mut j: usize = 0;
    while j < rest.len()
        invariant
            j <= rest@.len(),
            r@ == seq![unit_range(cluster)] + rest@.take(j as int),
        decreases rest@.len() - j,
    {
        r.push(rest[j]);
        assert(r@ =~= seq![unit_range(cluster)] + rest@.take(j + 1));
        j = j + 1;
    }
    assert(rest@.take(j as int) =~= rest@);
    r
}

/// A ligature cluster has at least two components, the first its own
/// range; when the characters merged into it are the ones that follow it,
/// in order, the components tile its source range without gap or overlap.
pub proof fn lemma_ligature_components(m: Seq<(u32, u32)>, c: u32, k: nat)
    requires
        c as int + k + 1 <= u32::MAX,
    ensures
        components_of(m, c).len() != 0 ==> components_of(m, c).len() >= 2 && components_of(m, c)[0]
            == unit_range(c),
        merged_into(m, c) == Seq::new(k, |i: int| (c + 1 + i) as u32) && k > 0 ==> {
            let comps = components_of(m, c);
            &&& comps.len() == k + 1
            &&& comps[0].start == c
            &&& comps[comps.len() - 1].end == c + k + 1
            &&& forall|i: int| 0 <= i < comps.len() - 1 ==> #[trigger] comps[i].end == comps[i + 1].start
        },
{
}

/// The spans tile the source `0..n` and the glyphs `0..len`: each starts
/// where the one before it ends, with no source range empty.
pub open spec fn tiles(spans: Seq<ClusterSpan>, n: int, len: int) -> bool {
    &&& spans.len() == 0 ==> n == 0 && len == 0
    &&& spans.len() > 0 ==> {
        &&& spans[0].source.start == 0
        &&& spans[0].glyph_start == 0
        &&& spans.last().source.end == n
        &&& spans.last().glyph_end == len
    }
    &&& forall|k: int|
        0 <= k < spans.len() ==> spans[k].source.start < spans[k].source.end && spans[k].glyph_start
            <= spans[k].glyph_end
    &&& forall|k: int|
        0 <= k < spans.len() - 1 ==> spans[k].source.end == spans[k + 1].source.start
            && spans[k].glyph_end == spans[k + 1].glyph_start
}

proof fn lemma_tiles_total(spans: Seq<ClusterSpan>, n: int, len: int)
    requires
        tiles(spans, n, len),
    ensures
        source_total(spans) == n,
    decreases spans.len(),
{
    if spans.len() > 1 {
        let p = spans.drop_last();
        let q = spans[spans.len() - 2];
        assert(p.last() == q);
        assert(q.source.end == spans.last().source.start);
        assert(tiles(p, q.source.end as int, q.glyph_end as int));
        lemma_tiles_total(p, q.source.end as int, q.glyph_end as int);
        assert(source_total(spans) == source_total(p) + spans.last().source.end - spans.last().source.start);
    } else if spans.len() == 1 {
        assert(spans.drop_last().len() == 0);
        assert(source_total(spans.drop_last()) == 0);
        assert(spans[0] == spans.last());
        assert(source_total(spans) == spans.last().source.end - spans.last().source.start);
    } else {
        assert(n == 0);
    }
}

/// Whether character `j` was merged into the cluster of character `c`.
pub open spec fn absorbed(m: Seq<(u32, u32)>, j: u32, c: u32) -> bool {
    j != c && m.contains((j, c))
}

/// The spans after each span whose character was merged into the cluster
/// that starts the span before it is joined to that span.
pub open spec fn joined(spans: Seq<ClusterSpan>, m: Seq<(u32, u32)>) -> Seq<ClusterSpan>
    decreases spans.len(),
{
    if spans.len() == 0 {
        Seq::empty()
    } else {
        let acc = joined(spans.drop_last(), m);
        let s = spans.last();
        if acc.len() > 0 && absorbed(m, s.source.start, acc.last().source.start) {
            acc.drop_last().push(
                ClusterSpan { source: SourceRange { end: s.source.end, ..acc.last().source }, glyph_end: s.glyph_end, ..acc.last() },
            )
        } else {
            acc.push(s)
        }
    }
}

fn contains_pair(m: &Vec<(u32, u32)>, p: (u32, u32)) -> (r: bool)
    ensures
        r == m@.contains(p),
{
    let mut k: usize = 0;
    while k < m.len()
        invariant
            k <= m@.len(),
            forall|j: int| 0 <= j < k ==> m@[j] != p,
        decreases m@.len() - k,
    {
        let q = m[k];
        if q.0 == p.0 && q.1 == p.1 {
            assert(m@[k as int] == p);
            return true;
        }
        k = k + 1;
    }
    false
}

/// Joins the spans of characters merged into a ligature to the span of the
/// ligature's cluster when they follow it. The result tiles the source and
/// the glyphs as the spans did.
pub fn join_ligatures(spans: &Vec<ClusterSpan>, buffer: &Buffer, n: usize) -> (r: Vec<ClusterSpan>)
    requires
        tiles(spans@, n as int, buffer@.glyphs.len() as int),
    ensures
        r@ == joined(spans@, buffer@.merged),
        tiles(r@, n as int, buffer@.glyphs.len() as int),
        source_total(r@) == n,
{
    let m = buffer.merged();
    let ghost len = buffer@.glyphs.len() as int;
    let mut r: Vec<ClusterSpan> = Vec::new();
    let mut k: usize = 0;
    while k < spans.len()
        invariant
            m@ == buffer@.merged,
            len == buffer@.glyphs.len(),
            k <= spans@.len(),
            tiles(spans@, n as int, len),
            r@ == joined(spans@.take(k as int), m@),
            k > 0 ==> tiles(r@, spans@[k - 1].source.end as int, spans@[k - 1].glyph_end as int),
            k == 0 ==> r@.len() == 0,
        decreases spans@.len() - k,
    {
        assert(spans@.take(k + 1).drop_last() =~= spans@.take(k as int));
        let s = spans[k];
        let last = r.len();
        if last > 0 && contains_pair(m, (s.source.start, r[last - 1].source.start)) && s.source.start
            != r[last - 1].source.start {
            let p = r[last - 1];
            let joined_span = ClusterSpan {
                source: SourceRange { start: p.source.start, end: s.source.end },
                glyph_start: p.glyph_start,
                glyph_end: s.glyph_end,
                data: p.data,
            };
            r.set(last - 1, joined_span);
        } else {
            r.push(s);
        }
        assert(r@ =~= joined(spans@.take(k + 1), m@));
        k = k + 1;
    }
    assert(spans@.take(k as int) =~= spans@);
    proof {
        lemma_tiles_total(r@, n as int, len);
    }
    r
}

/// The spans of `cluster_spans` tile the source and the glyphs.
pub proof fn lemma_cluster_spans_tile(spans: Seq<ClusterSpan>, n: int, len: int)
    requires
        spans.len() == n,
        forall|j: int|
            0 <= j < spans.len() ==> spans[j].source.start == j && spans[j].source.end == j + 1
                && spans[j].glyph_start <= spans[j].glyph_end,
        forall|j: int| 0 <= j < spans.len() - 1 ==> spans[j].glyph_end == spans[j + 1].glyph_start,
        spans.len() > 0 ==> spans[0].glyph_start == 0 && spans[spans.len() - 1].glyph_end == len,
        spans.len() == 0 ==> len == 0,
        n <= u32::MAX,
    ensures
        tiles(spans, n, len),
{
    assert forall|k: int| 0 <= k < spans.len() - 1 implies spans[k].source.end == spans[k + 1].source.start by {
        assert(spans[k].source.end == k + 1);
        assert(spans[k + 1].source.start == k + 1);
    }
}

/// The output clusters of a shaped buffer: one per character, with the
/// characters merged into a ligature joined to the ligature's cluster.
/// Their source ranges tile the input and their glyph ranges tile the
/// buffer.
pub fn shaped_clusters(buffer: &Buffer, chars: &Vec<CharInput>) -> (r: Vec<ClusterSpan>)
    requires
        buffer.wf(),
        chars@.len() <= u32::MAX,
        clusters_in_order(buffer@.glyphs, chars@.len() as int),
    ensures
        tiles(r@, chars@.len() as int, buffer@.glyphs.len() as int),
        source_total(r@) == chars@.len(),
        exists|spans: Seq<ClusterSpan>| char_spans(spans, buffer@.glyphs, chars@) && r@ == joined(spans, buffer@.merged),
{
    let spans = cluster_spans(buffer, chars);
    proof {
        if chars@.len() == 0 && buffer@.glyphs.len() > 0 {
            assert(buffer@.glyphs[0].cluster < 0);
        }
        lemma_cluster_spans_tile(spans@, chars@.len() as int, buffer@.glyphs.len() as int);
    }
    join_ligatures(&spans, buffer, chars.len())
}

/// For a buffer in logical order, cluster order in the sense of the buffer
/// is the order that clusters are read out in.
pub proof fn lemma_in_order_logical(s: BufferState, n: int)
    requires
        !s.reversed,
    ensures
        in_order(s, n) <==> clusters_in_order(s.glyphs, n),
{
}

/// Shapes one run of characters with the legacy engine: seeds the buffer
/// from the character map and glyph metrics, runs metamorphosis and then
/// kerning, and reads out the clusters in source order.
pub fn shape(
    chars: &Vec<CharInput>,
    cmap: &Charmap,
    hm: &GlyphMetrics,
    is_rtl: bool,
    tables: &LegacyTables,
    selectors: &Vec<(u16, u16)>,
    disable_kern: bool,
) -> (r: (Buffer, Vec<ClusterSpan>))
    requires
        chars@.len() <= u32::MAX,
    ensures
        r.0.wf(),
        !r.0@.reversed,
        exists|s: BufferState|
            {
                &&& s.glyphs == seed_glyphs(chars@, *cmap)
                &&& s.positions.len() == s.glyphs.len()
                &&& forall|k: int| 0 <= k < s.positions.len() ==> s.positions[k] == seed_position(s.glyphs[k].id, *hm)
                &&& s.is_rtl == is_rtl && !s.reversed && !s.has_marks && s.merged.len() == 0
                &&& r.0@ == legacy_shaped(s, *tables, selectors@, disable_kern)
            },
        clusters_in_order(r.0@.glyphs, chars@.len() as int),
        tiles(r.1@, chars@.len() as int, r.0@.glyphs.len() as int),
        source_total(r.1@) == chars@.len(),
        exists|spans: Seq<ClusterSpan>| char_spans(spans, r.0@.glyphs, chars@) && r.1@ == joined(spans, r.0@.merged),
{
    let mut buffer = seed(chars, cmap, hm, is_rtl);
    let ghost s0 = buffer@;
    apply_legacy(&mut buffer, tables, selectors, disable_kern);
    proof {
        assert(in_order(s0, chars@.len() as int));
        lemma_in_order_logical(buffer@, chars@.len() as int);
    }
    let clusters = shaped_clusters(&buffer, chars);
    let ghost sp = choose|spans: Seq<ClusterSpan>|
        char_spans(spans, buffer@.glyphs, chars@) && clusters@ == joined(spans, buffer@.merged);
    let r = (buffer, clusters);
    assert(char_spans(sp, r.0@.glyphs, chars@) && r.1@ == joined(sp, r.0@.merged));
    r
}

/// An empty buffer stays empty through the legacy engine: no subtable
/// creates glyphs out of none.
pub proof fn lemma_empty_stays_empty(s: BufferState, t: LegacyTables, selectors: Seq<(u16, u16)>, disable_kern: bool)
    requires
        s.glyphs.len() == 0,
    ensures
        legacy_shaped(s, t, selectors, disable_kern).glyphs.len() == 0,
{
    assert(in_order(s, 0));
    let m0 = chains_run(s, t.morx@, selectors);
    lemma_chains_in_order(s, t.morx@, selectors, 0);
    lemma_ordered_in_order(m0, false, 0);
    let m = ordered(m0, false);
    match t.kerx {
        Some(k) => {
            lemma_kerx_in_order(m, k@, disable_kern, 0);
            lemma_ordered_in_order(kerx_passes(m, k@, disable_kern), false, 0);
        },
        None => {
            lemma_kern_in_order(m, t.kern@, 0);
            lemma_ordered_in_order(kern_passes(m, t.kern@), false, 0);
        },
    }
    let r = legacy_shaped(s, t, selectors, disable_kern);
    if r.glyphs.len() > 0 {
        assert(r.glyphs[0].cluster < 0);
    }
}

} // verus!
