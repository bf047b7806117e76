/*!
Legacy layout passes (extended metamorphosis, extended kerning and the
classic kerning table) applied to a shaping buffer.
*/

use vstd::prelude::*;
use crate::font::{be16, read_u16};
use crate::buffer::{
    in_order, lemma_ordered_in_order, lemma_ordered_twice, advanced, attached, distance, mark_positioned, ordered, sat_add, with_y, Buffer, BufferState,
    GlyphData, PositionData, ShapeClass, JOINING_TRANSPARENT,
};

verus! {

/// Pair kerning values, looked up by left and right glyph.
pub enum PairKerning {
    /// Explicit `(left, right, value)` entries; the first match wins.
    Pairs(Vec<(u16, u16, i16)>),
    /// Class based values: the class of a glyph is read from the class
    /// array at its identifier (0 past its end), and the value from
    /// `values[left_class * columns + right_class]`.
    Classes { left: Vec<u16>, right: Vec<u16>, columns: u16, values: Vec<i16> },
}

pub open spec fn pair_lookup(s: Seq<(u16, u16, i16)>, l: u16, r: u16) -> Option<i16>
    decreases s.len(),
{
    if s.len() == 0 {
        None
    } else if s[0].0 == l && s[0].1 == r {
        Some(s[0].2)
    } else {
        pair_lookup(s.skip(1), l, r)
    }
}

pub open spec fn class_of(classes: Seq<u16>, g: u16) -> int {
    if (g as int) < classes.len() {
        classes[g as int] as int
    } else {
        0
    }
}

impl PairKerning {
    /// The kerning value for the pair, if the table has one.
    pub open spec fn value(&self, l: u16, r: u16) -> Option<i16> {
        match self {
            PairKerning::Pairs(p) => pair_lookup(p@, l, r),
            PairKerning::Classes { left, right, columns, values } => {
                let k = class_of(left@, l) * (*columns as int) + class_of(right@, r);
                if k < values@.len() {
                    Some(values@[k])
                } else {
                    None
                }
            },
        }
    }

    /// Looks up the kerning value for the pair.
    pub fn get(&self, l: u16, r: u16) -> (res: Option<i16>)
        ensures
            res == self.value(l, r),
    {
        match self {
            PairKerning::Pairs(p) => {
                let mut k: usize = 0;
                assert(p@.skip(0) =~= p@);
                while k < p.len()
                    invariant
                        k <= p@.len(),
                        self.value(l, r) == pair_lookup(p@, l, r),
                        pair_lookup(p@, l, r) == pair_lookup(p@.skip(k as int), l, r),
                    decreases p@.len() - k,
                {
                    assert(p@.skip(k as int).skip(1) =~= p@.skip(k + 1));
                    assert(p@.skip(k as int)[0] == p@[k as int]);
                    if p[k].0 == l && p[k].1 == r {
                        assert(p@.skip(k as int).len() > 0);
                        assert(pair_lookup(p@.skip(k as int), l, r) == Some(p@[k as int].2));
                        return Some(p[k].2);
                    }
                    k = k + 1;
                }
                None
            },
            PairKerning::Classes { left, right, columns, values } => {
                let lc: u64 = if (l as usize) < left.len() { left[l as usize] as u64 } else { 0 };
                let rc: u64 = if (r as usize) < right.len() { right[r as usize] as u64 } else { 0 };
                assert(lc * (*columns as u64) <= 0xffff * 0xffff) by (nonlinear_arith)
                    requires lc <= 0xffff, *columns <= 0xffff;
                let k: u64 = lc * (*columns as u64) + rc;
                if k < values.len() as u64 {
                    Some(values[k as usize])
                } else {
                    None
                }
            },
        }
    }
}

/// Whether a glyph takes part in pair kerning (marks are skipped).
pub open spec fn is_unit(g: GlyphData) -> bool {
    g.joining_type != JOINING_TRANSPARENT
}

/// The first index at or after `j` of a glyph that is not a mark, or the
/// length of `g`.
pub open spec fn next_unit(g: Seq<GlyphData>, j: int) -> int
    decreases g.len() - j,
{
    if j >= g.len() || j < 0 {
        g.len() as int
    } else if is_unit(g[j]) {
        j
    } else {
        next_unit(g, j + 1)
    }
}

/// What pair kerning adds to the advance of the glyph at `i`: the value for
/// it and the next glyph that is not a mark.
pub open spec fn pair_delta(g: Seq<GlyphData>, t: PairKerning, i: int) -> int {
    let n = next_unit(g, i + 1);
    if 0 <= i < g.len() && is_unit(g[i]) && n < g.len() {
        match t.value(g[i].id, g[n].id) {
            Some(k) => k as int,
            None => 0,
        }
    } else {
        0
    }
}

pub open spec fn with_advance(p: PositionData, delta: int) -> PositionData {
    PositionData { advance: sat_add(p.advance, delta), ..p }
}

/// The state after one pair kerning pass.
pub open spec fn pair_kerned(s: BufferState, t: PairKerning) -> BufferState {
    BufferState {
        positions: Seq::new(s.positions.len(), |k: int| with_advance(s.positions[k], pair_delta(s.glyphs, t, k))),
        ..s
    }
}

proof fn lemma_next_unit_skips(g: Seq<GlyphData>, a: int, b: int)
    requires
        0 <= a <= b <= g.len(),
        forall|k: int| a <= k < b ==> !is_unit(g[k]),
    ensures
        next_unit(g, a) == next_unit(g, b),
    decreases b - a,
{
    if a < b {
        lemma_next_unit_skips(g, a + 1, b);
    }
}

/// Adds to the advance of each glyph that is not a mark the kerning value
/// for it and the next glyph that is not a mark.
pub fn kern_pairs(buffer: &mut Buffer, t: &PairKerning)
    requires
        old(buffer).wf(),
    ensures
        final(buffer).wf(),
        final(buffer)@ == pair_kerned(old(buffer)@, *t),
{
    let ghost s0 = buffer@;
    let len = buffer.len();
    let mut start: usize = 0;
    while start < len && buffer.glyphs()[start].joining_type == JOINING_TRANSPARENT
        invariant
            buffer@ == s0,
            buffer.wf(),
            len == s0.glyphs.len(),
            start <= len,
            forall|k: int| 0 <= k < start ==> !is_unit(s0.glyphs[k]),
        decreases len - start,
    {
        start = start + 1;
    }
    let ghost target = pair_kerned(s0, *t);
    if start == len {
        assert(buffer@ =~= target) by {
            assert forall|k: int| 0 <= k < len implies target.positions[k] == s0.positions[k] by {
                assert(pair_delta(s0.glyphs, *t, k) == 0);
            }
            assert(buffer@.positions =~= target.positions);
        }
        return;
    }
    let mut left_index: usize = start;
    let mut left: u16 = buffer.glyphs()[start].id;
    let mut i: usize = start + 1;
    proof {
        lemma_next_unit_skips(s0.glyphs, start as int + 1, i as int);
    }
    while i < len
        invariant
            buffer.wf(),
            len == s0.glyphs.len(),
            buffer@.glyphs == s0.glyphs,
            buffer@.positions.len() == len,
            buffer@.is_rtl == s0.is_rtl,
            buffer@.reversed == s0.reversed,
            buffer@.has_marks == s0.has_marks,
            buffer@.merged == s0.merged,
            target == pair_kerned(s0, *t),
            target.positions.len() == len,
            left_index < i <= len,
            is_unit(s0.glyphs[left_index as int]),
            left == s0.glyphs[left_index as int].id,
            next_unit(s0.glyphs, left_index + 1) == next_unit(s0.glyphs, i as int),
            forall|k: int| 0 <= k < left_index ==> buffer@.positions[k] == target.positions[k],
            forall|k: int| left_index <= k < len ==> buffer@.positions[k] == s0.positions[k],
            forall|k: int| left_index < k < i ==> !is_unit(s0.glyphs[k]),
        decreases len - i,
    {
        if buffer.glyphs()[i].joining_type != JOINING_TRANSPARENT {
            let right = buffer.glyphs()[i].id;
            assert(next_unit(s0.glyphs, i as int) == i);
            assert(pair_delta(s0.glyphs, *t, left_index as int) == match t.value(left, right) {
                Some(k) => k as int,
                None => 0,
            });
            if let Some(kerning) = t.get(left, right) {
                buffer.add_advance(left_index, kerning as i32);
            } else {
                assert(sat_add(s0.positions[left_index as int].advance, 0) == s0.positions[left_index as int].advance);
            }
            assert(buffer@.positions[left_index as int] == target.positions[left_index as int]);
            assert forall|k: int| left_index < k < i implies buffer@.positions[k] == target.positions[k] by {
                assert(pair_delta(s0.glyphs, *t, k) == 0);
            }
            left_index = i;
            left = right;
        }
        i = i + 1;
    }
    assert(next_unit(s0.glyphs, len as int) == len);
    assert forall|k: int| left_index <= k < len implies buffer@.positions[k] == target.positions[k] by {
        assert(pair_delta(s0.glyphs, *t, k) == 0);
    }
    assert(buffer@.positions =~= target.positions);
    assert(buffer@ =~= target);
}

/// Walking forward from `j`, the first glyph of cluster `c` whose class is
/// base, unless a glyph of another cluster comes first.
pub open spec fn scan_forward(g: Seq<GlyphData>, c: u32, j: int) -> Option<int>
    decreases g.len() - j,
{
    if j < 0 || j >= g.len() || g[j].cluster != c {
        None
    } else if g[j].char_class == ShapeClass::Base {
        Some(j)
    } else {
        scan_forward(g, c, j + 1)
    }
}

/// Walking backward from `j`, as `scan_forward`.
pub open spec fn scan_backward(g: Seq<GlyphData>, c: u32, j: int) -> Option<int>
    decreases j + 1,
{
    if j < 0 || j >= g.len() || g[j].cluster != c {
        None
    } else if g[j].char_class == ShapeClass::Base {
        Some(j)
    } else {
        scan_backward(g, c, j - 1)
    }
}

/// The base glyph for the mark at `index`, searched within its cluster,
/// forward when `reverse` holds and backward otherwise.
pub open spec fn base_of(g: Seq<GlyphData>, reverse: bool, index: int) -> Option<int> {
    if reverse {
        scan_forward(g, g[index].cluster, index + 1)
    } else {
        scan_backward(g, g[index].cluster, index - 1)
    }
}

/// Finds the base glyph for the mark at `index` (see `base_of`).
pub fn find_base(buffer: &Buffer, reverse: bool, index: usize) -> (r: Option<usize>)
    requires
        buffer.wf(),
        index < buffer@.glyphs.len(),
    ensures
        r.is_some() == base_of(buffer@.glyphs, reverse, index as int).is_some(),
        r.is_some() ==> base_of(buffer@.glyphs, reverse, index as int) == Some(r.unwrap() as int),
{
    let glyphs = buffer.glyphs();
    let cluster = glyphs[index].cluster;
    let len = glyphs.len();
    if reverse {
        let mut i: usize = index + 1;
        while i < glyphs.len()
            invariant
                glyphs@ == buffer@.glyphs,
                index < i <= glyphs@.len(),
                cluster == glyphs@[index as int].cluster,
                base_of(glyphs@, reverse, index as int) == scan_forward(glyphs@, cluster, i as int),
            decreases glyphs@.len() - i,
        {
            let g = glyphs[i];
            if g.cluster != cluster {
                return None;
            }
            if g.char_class == ShapeClass::Base {
                return Some(i);
            }
            i = i + 1;
        }
        None
    } else {
        let mut i: usize = index;
        while i > 0
            invariant
                glyphs@ == buffer@.glyphs,
                i <= index < glyphs@.len(),
                cluster == glyphs@[index as int].cluster,
                base_of(glyphs@, reverse, index as int) == scan_backward(glyphs@, cluster, i - 1),
            decreases i,
        {
            let g = glyphs[i - 1];
            if g.cluster != cluster {
                return None;
            }
            if g.char_class == ShapeClass::Base {
                return Some(i - 1);
            }
            i = i - 1;
        }
        None
    }
}

/// One kerning action of a classic contextual kerning subtable: only marks
/// are moved. Across the stream a mark takes the value as its vertical
/// offset when it has none; along the stream it is attached to its base
/// (see `base_of`, searched in the direction of the run) when that lies
/// within 254 places and the mark is not yet attached.
pub open spec fn kern_mark_step(s: BufferState, i: int, k: i16, cross_stream: bool) -> BufferState {
    let p = s.positions[i];
    if s.glyphs[i].joining_type != JOINING_TRANSPARENT {
        s
    } else if cross_stream {
        if p.y == 0 {
            with_y(s, i, k as i32)
        } else {
            s
        }
    } else {
        match base_of(s.glyphs, s.is_rtl, i) {
            Some(b) => if distance(i, b) < 255 && p.base == 0 {
                attached(s, i, distance(i, b) as u8, k as i32, p.y)
            } else {
                s
            },
            None => s,
        }
    }
}

/// The state after the kerning actions `acts` of a classic contextual
/// subtable; an action whose index lies past the end stops the subtable.
pub open spec fn kern_marks(s: BufferState, acts: Seq<(usize, i16)>, cross_stream: bool) -> BufferState
    decreases acts.len(),
{
    if acts.len() == 0 || acts[0].0 >= s.glyphs.len() {
        s
    } else {
        kern_marks(kern_mark_step(s, acts[0].0 as int, acts[0].1, cross_stream), acts.skip(1), cross_stream)
    }
}

/// The state after the advance adjustments `acts` of an extended contextual
/// kerning subtable; an index past the end stops the subtable.
pub open spec fn kern_advances(s: BufferState, acts: Seq<(usize, i16)>) -> BufferState
    decreases acts.len(),
{
    if acts.len() == 0 || acts[0].0 >= s.glyphs.len() {
        s
    } else {
        kern_advances(advanced(s, acts[0].0 as int, acts[0].1 as int), acts.skip(1))
    }
}

/// The state after the attachments `acts` of an anchor subtable, each
/// `(mark, base, x, y)`; an index past the end stops the subtable.
pub open spec fn kern_anchors(s: BufferState, acts: Seq<(usize, usize, i32, i32)>) -> BufferState
    decreases acts.len(),
{
    if acts.len() == 0 || acts[0].0 >= s.glyphs.len() || acts[0].1 >= s.glyphs.len() {
        s
    } else {
        kern_anchors(mark_positioned(s, acts[0].0 as int, acts[0].1 as int, acts[0].2, acts[0].3), acts.skip(1))
    }
}

/// Applies the kerning actions of a classic contextual subtable.
pub fn apply_kern_marks(buffer: &mut Buffer, acts: &Vec<(usize, i16)>, cross_stream: bool)
    requires
        old(buffer).wf(),
    ensures
        final(buffer).wf(),
        final(buffer)@ == kern_marks(old(buffer)@, acts@, cross_stream),
{
    let ghost target = kern_marks(buffer@, acts@, cross_stream);
    let len = buffer.len();
    let mut n: usize = 0;
    assert(acts@.skip(0) =~= acts@);
    while n < acts.len()
        invariant
            buffer.wf(),
            buffer@.glyphs.len() == len,
            n <= acts@.len(),
            target == kern_marks(buffer@, acts@.skip(n as int), cross_stream),
            target == kern_marks(old(buffer)@, acts@, cross_stream),
        decreases acts@.len() - n,
    {
        let (i, k) = acts[n];
        assert(acts@.skip(n as int).skip(1) =~= acts@.skip(n + 1));
        assert(acts@.skip(n as int)[0] == acts@[n as int]);
        if i >= len {
            assert(target == buffer@);
            return;
        }
        if buffer.glyphs()[i].joining_type == JOINING_TRANSPARENT {
            if cross_stream {
                if buffer.positions()[i].y == 0 {
                    buffer.set_y(i, k as i32);
                }
            } else {
                let rtl = buffer.is_rtl();
                if let Some(base) = find_base(buffer, rtl, i) {
                    let diff = if base >= i { base - i } else { i - base };
                    let p = buffer.positions()[i];
                    if diff < 255 && p.base == 0 {
                        buffer.attach(i, diff as u8, k as i32, p.y);
                    }
                }
            }
        }
        n = n + 1;
    }
}

/// Applies the advance adjustments of an extended contextual kerning subtable.
pub fn apply_kern_advances(buffer: &mut Buffer, acts: &Vec<(usize, i16)>)
    requires
        old(buffer).wf(),
    ensures
        final(buffer).wf(),
        final(buffer)@ == kern_advances(old(buffer)@, acts@),
{
    let ghost target = kern_advances(buffer@, acts@);
    let len = buffer.len();
    let mut n: usize = 0;
    assert(acts@.skip(0) =~= acts@);
    while n < acts.len()
        invariant
            buffer.wf(),
            buffer@.glyphs.len() == len,
            n <= acts@.len(),
            target == kern_advances(buffer@, acts@.skip(n as int)),
            target == kern_advances(old(buffer)@, acts@),
        decreases acts@.len() - n,
    {
        let (i, k) = acts[n];
        assert(acts@.skip(n as int).skip(1) =~= acts@.skip(n + 1));
        assert(acts@.skip(n as int)[0] == acts@[n as int]);
        if i >= len {
            assert(target == buffer@);
            return;
        }
        buffer.add_advance(i, k as i32);
        n = n + 1;
    }
}

/// Applies the attachments of an anchor subtable.
pub fn apply_kern_anchors(buffer: &mut Buffer, acts: &Vec<(usize, usize, i32, i32)>)
    requires
        old(buffer).wf(),
    ensures
        final(buffer).wf(),
        final(buffer)@ == kern_anchors(old(buffer)@, acts@),
{
    let ghost target = kern_anchors(buffer@, acts@);
    let len = buffer.len();
    let mut n: usize = 0;
    assert(acts@.skip(0) =~= acts@);
    while n < acts.len()
        invariant
            buffer.wf(),
            buffer@.glyphs.len() == len,
            n <= acts@.len(),
            target == kern_anchors(buffer@, acts@.skip(n as int)),
            target == kern_anchors(old(buffer)@, acts@),
        decreases acts@.len() - n,
    {
        let (i, base, x, y) = acts[n];
        assert(acts@.skip(n as int).skip(1) =~= acts@.skip(n + 1));
        assert(acts@.skip(n as int)[0] == acts@[n as int]);
        if i >= len || base >= len {
            assert(target == buffer@);
            return;
        }
        buffer.position_mark(i, base, x, y);
        n = n + 1;
    }
}

/// Whether a subtable runs on the reversed buffer: a subtable in logical
/// order runs reversed when it is descending; otherwise it runs in visual
/// order, reversed when descending differs from the run direction.
pub open spec fn reverse_for(descending: bool, logical: bool, is_rtl: bool) -> bool {
    if logical {
        descending
    } else {
        descending != is_rtl
    }
}

/// Decides whether a subtable runs on the reversed buffer (see `reverse_for`).
pub fn should_reverse(descending: bool, logical: bool, is_rtl: bool) -> (r: bool)
    ensures
        r == reverse_for(descending, logical, is_rtl),
{
    if logical {
        descending
    } else {
        descending != is_rtl
    }
}

/// The work of an extended kerning subtable.
pub enum KerxKind {
    /// Pair kerning from a list of pairs.
    Format0(PairKerning),
    /// Advance adjustments `(index, value)` from a contextual state machine.
    Format1(Vec<(usize, i16)>),
    /// Pair kerning from class tables.
    Format2(PairKerning),
    /// Anchor attachments `(mark, base, x, y)`.
    Format4(Vec<(usize, usize, i32, i32)>),
}

/// An extended kerning subtable with its coverage.
pub struct KerxSubtable {
    pub vertical: bool,
    pub cross_stream: bool,
    pub descending: bool,
    pub kind: KerxKind,
}

/// The state after one extended kerning subtable. The buffer is first put
/// in the subtable's order; vertical and cross-stream subtables then do
/// nothing, and with kerning disabled only anchor attachment runs.
pub open spec fn kerx_step(s: BufferState, t: KerxSubtable, disable_kern: bool) -> BufferState {
    let s1 = ordered(s, reverse_for(t.descending, false, s.is_rtl));
    if t.vertical || t.cross_stream {
        s1
    } else {
        match t.kind {
            KerxKind::Format0(p) => if disable_kern { s1 } else { pair_kerned(s1, p) },
            KerxKind::Format1(a) => if disable_kern { s1 } else { kern_advances(s1, a@) },
            KerxKind::Format2(p) => if disable_kern { s1 } else { pair_kerned(s1, p) },
            KerxKind::Format4(a) => kern_anchors(s1, a@),
        }
    }
}

pub open spec fn kerx_passes(s: BufferState, subs: Seq<KerxSubtable>, disable_kern: bool) -> BufferState
    decreases subs.len(),
{
    if subs.len() == 0 {
        s
    } else {
        kerx_passes(kerx_step(s, subs[0], disable_kern), subs.skip(1), disable_kern)
    }
}

/// Applies the subtables of an extended kerning table in order, then
/// restores logical order.
pub fn apply_kerx(buffer: &mut Buffer, subtables: &Vec<KerxSubtable>, disable_kern: bool)
    requires
        old(buffer).wf(),
    ensures
        final(buffer).wf(),
        final(buffer)@ == ordered(kerx_passes(old(buffer)@, subtables@, disable_kern), false),
{
    let ghost target = kerx_passes(buffer@, subtables@, disable_kern);
    let mut n: usize = 0;
    assert(subtables@.skip(0) =~= subtables@);
    while n < subtables.len()
        invariant
            buffer.wf(),
            n <= subtables@.len(),
            target == kerx_passes(buffer@, subtables@.skip(n as int), disable_kern),
            target == kerx_passes(old(buffer)@, subtables@, disable_kern),
        decreases subtables@.len() - n,
    {
        let t = &subtables[n];
        assert(subtables@.skip(n as int).skip(1) =~= subtables@.skip(n + 1));
        assert(subtables@.skip(n as int)[0] == subtables@[n as int]);
        let reverse = should_reverse(t.descending, false, buffer.is_rtl());
        buffer.ensure_order(reverse);
        if !t.vertical && !t.cross_stream {
            match &t.kind {
                KerxKind::Format0(p) => {
                    if !disable_kern {
                        kern_pairs(buffer, p);
                    }
                },
                KerxKind::Format1(a) => {
                    if !disable_kern {
                        apply_kern_advances(buffer, a);
                    }
                },
                KerxKind::Format2(p) => {
                    if !disable_kern {
                        kern_pairs(buffer, p);
                    }
                },
                KerxKind::Format4(a) => {
                    apply_kern_anchors(buffer, a);
                },
            }
        }
        n = n + 1;
    }
    buffer.ensure_order(false);
}

/// The work of a classic kerning subtable.
pub enum KernKind {
    /// Pair kerning, defined in logical order.
    Format0(PairKerning),
    /// Kerning actions `(index, value)` from a contextual state machine.
    Format1(Vec<(usize, i16)>),
}

/// A classic kerning subtable with its coverage.
pub struct KernSubtable {
    pub horizontal: bool,
    pub cross_stream: bool,
    pub kind: KernKind,
}

/// The state after one classic kerning subtable: only horizontal
/// subtables run, in the order of the run; pair kerning runs in logical
/// order.
pub open spec fn kern_step(s: BufferState, t: KernSubtable) -> BufferState {
    if !t.horizontal {
        s
    } else {
        let s1 = ordered(s, s.is_rtl);
        match t.kind {
            KernKind::Format0(p) => pair_kerned(ordered(s1, false), p),
            KernKind::Format1(a) => kern_marks(s1, a@, t.cross_stream),
        }
    }
}

pub open spec fn kern_passes(s: BufferState, subs: Seq<KernSubtable>) -> BufferState
    decreases subs.len(),
{
    if subs.len() == 0 {
        s
    } else {
        kern_passes(kern_step(s, subs[0]), subs.skip(1))
    }
}

/// Applies the subtables of a classic kerning table in order, then
/// restores logical order.
pub fn apply_kern(buffer: &mut Buffer, subtables: &Vec<KernSubtable>)
    requires
        old(buffer).wf(),
    ensures
        final(buffer).wf(),
        final(buffer)@ == ordered(kern_passes(old(buffer)@, subtables@), false),
{
    let ghost target = kern_passes(buffer@, subtables@);
    let mut n: usize = 0;
    assert(subtables@.skip(0) =~= subtables@);
    while n < subtables.len()
        invariant
            buffer.wf(),
            n <= subtables@.len(),
            target == kern_passes(buffer@, subtables@.skip(n as int)),
            target == kern_passes(old(buffer)@, subtables@),
        decreases subtables@.len() - n,
    {
        let t = &subtables[n];
        assert(subtables@.skip(n as int).skip(1) =~= subtables@.skip(n + 1));
        assert(subtables@.skip(n as int)[0] == subtables@[n as int]);
        if t.horizontal {
            let rtl = buffer.is_rtl();
            buffer.ensure_order(rtl);
            match &t.kind {
                KernKind::Format0(p) => {
                    buffer.ensure_order(false);
                    kern_pairs(buffer, p);
                },
                KernKind::Format1(a) => {
                    apply_kern_marks(buffer, a, t.cross_stream);
                },
            }
        }
        n = n + 1;
    }
    buffer.ensure_order(false);
}

/// The advances of the buffer read in source order.
pub open spec fn logical_advances(s: BufferState) -> Seq<i32> {
    Seq::new(
        s.positions.len(),
        |k: int|
            if s.reversed {
                s.positions[s.positions.len() - 1 - k].advance
            } else {
                s.positions[k].advance
            },
    )
}

pub open spec fn same_advances(a: BufferState, b: BufferState) -> bool {
    &&& a.reversed == b.reversed
    &&& a.is_rtl == b.is_rtl
    &&& a.glyphs == b.glyphs
    &&& a.positions.len() == b.positions.len()
    &&& forall|k: int| 0 <= k < a.positions.len() ==> a.positions[k].advance == b.positions[k].advance
}

proof fn lemma_anchors_keep_advances(s: BufferState, a: Seq<(usize, usize, i32, i32)>)
    requires
        s.glyphs.len() == s.positions.len(),
    ensures
        same_advances(kern_anchors(s, a), s),
    decreases a.len(),
{
    if a.len() > 0 && a[0].0 < s.glyphs.len() && a[0].1 < s.glyphs.len() {
        let s1 = mark_positioned(s, a[0].0 as int, a[0].1 as int, a[0].2, a[0].3);
        lemma_anchors_keep_advances(s1, a.skip(1));
    }
}

/// With kerning disabled, an extended kerning table leaves every advance
/// as it was; only anchor attachment may change positions.
pub proof fn lemma_kerx_disabled_keeps_advances(s: BufferState, subs: Seq<KerxSubtable>)
    requires
        s.glyphs.len() == s.positions.len(),
    ensures
        logical_advances(ordered(kerx_passes(s, subs, true), false)) == logical_advances(s),
    decreases subs.len(),
{
    if subs.len() == 0 {
        assert(logical_advances(ordered(s, false)) =~= logical_advances(s));
    } else {
        let t = subs[0];
        let s1 = ordered(s, reverse_for(t.descending, false, s.is_rtl));
        assert(logical_advances(s1) =~= logical_advances(s));
        let s2 = kerx_step(s, t, true);
        if !t.vertical && !t.cross_stream {
            match t.kind {
                KerxKind::Format4(a) => {
                    lemma_anchors_keep_advances(s1, a@);
                },
                _ => {},
            }
        }
        assert(logical_advances(s2) =~= logical_advances(s1));
        assert(s2.glyphs.len() == s2.positions.len());
        lemma_kerx_disabled_keeps_advances(s2, subs.skip(1));
    }
}

/// Same glyphs and the same order flag.
pub open spec fn same_glyphs(a: BufferState, b: BufferState) -> bool {
    a.glyphs == b.glyphs && a.reversed == b.reversed && a.is_rtl == b.is_rtl
}

proof fn lemma_marks_keep_glyphs(s: BufferState, acts: Seq<(usize, i16)>, cross_stream: bool)
    ensures
        same_glyphs(kern_marks(s, acts, cross_stream), s),
    decreases acts.len(),
{
    if acts.len() > 0 && acts[0].0 < s.glyphs.len() {
        lemma_marks_keep_glyphs(kern_mark_step(s, acts[0].0 as int, acts[0].1, cross_stream), acts.skip(1), cross_stream);
    }
}

proof fn lemma_advances_keep_glyphs(s: BufferState, acts: Seq<(usize, i16)>)
    ensures
        same_glyphs(kern_advances(s, acts), s),
    decreases acts.len(),
{
    if acts.len() > 0 && acts[0].0 < s.glyphs.len() {
        lemma_advances_keep_glyphs(advanced(s, acts[0].0 as int, acts[0].1 as int), acts.skip(1));
    }
}

proof fn lemma_anchors_keep_glyphs(s: BufferState, acts: Seq<(usize, usize, i32, i32)>)
    ensures
        same_glyphs(kern_anchors(s, acts), s),
    decreases acts.len(),
{
    if acts.len() > 0 && acts[0].0 < s.glyphs.len() && acts[0].1 < s.glyphs.len() {
        lemma_anchors_keep_glyphs(mark_positioned(s, acts[0].0 as int, acts[0].1 as int, acts[0].2, acts[0].3), acts.skip(1));
    }
}

/// Extended kerning moves no glyph: cluster order is kept.
pub proof fn lemma_kerx_in_order(s: BufferState, subs: Seq<KerxSubtable>, disable_kern: bool, n: int)
    requires
        in_order(s, n),
    ensures
        in_order(kerx_passes(s, subs, disable_kern), n),
    decreases subs.len(),
{
    if subs.len() > 0 {
        let t = subs[0];
        let r = reverse_for(t.descending, false, s.is_rtl);
        let s1 = ordered(s, r);
        lemma_ordered_in_order(s, r, n);
        match t.kind {
            KerxKind::Format1(a) => lemma_advances_keep_glyphs(s1, a@),
            KerxKind::Format4(a) => lemma_anchors_keep_glyphs(s1, a@),
            _ => {},
        }
        assert(in_order(kerx_step(s, t, disable_kern), n));
        lemma_kerx_in_order(kerx_step(s, t, disable_kern), subs.skip(1), disable_kern, n);
    }
}

/// Classic kerning moves no glyph: cluster order is kept.
pub proof fn lemma_kern_in_order(s: BufferState, subs: Seq<KernSubtable>, n: int)
    requires
        in_order(s, n),
    ensures
        in_order(kern_passes(s, subs), n),
    decreases subs.len(),
{
    if subs.len() > 0 {
        let t = subs[0];
        if t.horizontal {
            let s1 = ordered(s, s.is_rtl);
            lemma_ordered_in_order(s, s.is_rtl, n);
            match t.kind {
                KernKind::Format0(p) => lemma_ordered_in_order(s1, false, n),
                KernKind::Format1(a) => lemma_marks_keep_glyphs(s1, a@, t.cross_stream),
            }
        }
        assert(in_order(kern_step(s, t), n));
        lemma_kern_in_order(kern_step(s, t), subs.skip(1), n);
    }
}

/// The pair entries of a classic kerning format 0 subtable whose body
/// starts at `o`: `n` entries of left glyph, right glyph and value, six
/// bytes each after an eight-byte header.
pub open spec fn kern0_pairs(d: Seq<u8>, o: int, n: int) -> Seq<(u16, u16, i16)> {
    Seq::new(
        n as nat,
        |i: int| (be16(d, o + 8 + 6 * i) as u16, be16(d, o + 8 + 6 * i + 2) as u16, be16(d, o + 8 + 6 * i + 4) as i16),
    )
}

/// Reads the pair list of a classic kerning format 0 subtable whose body
/// starts at `offset`; `None` when the table is truncated.
pub fn decode_kern_pairs(data: &[u8], offset: u64) -> (r: Option<PairKerning>)
    requires
        offset <= u32::MAX,
    ensures
        r.is_some() <==> (offset + 2 <= data@.len() && offset + 8 + 6 * be16(data@, offset as int) <= data@.len()),
        r.is_some() ==> (match r.unwrap() {
            PairKerning::Pairs(p) => p@ == kern0_pairs(data@, offset as int, be16(data@, offset as int)),
            PairKerning::Classes { .. } => false,
        }),
{
    let n = match read_u16(data, offset) {
        Some(n) => n as u64,
        None => {
            return None;
        },
    };
    if offset + 8 + 6 * n > data.len() as u64 {
        return None;
    }
    let mut pairs: Vec<(u16, u16, i16)> = Vec::new();
    let mut i: u64 = 0;
    while i < n
        invariant
            offset <= u32::MAX,
            n == be16(data@, offset as int),
            offset + 8 + 6 * n <= data@.len(),
            i <= n,
            pairs@ == kern0_pairs(data@, offset as int, n as int).take(i as int),
        decreases n - i,
    {
        let at = offset + 8 + 6 * i;
        let l = read_u16(data, at).unwrap();
        let r = read_u16(data, at + 2).unwrap();
        let v = read_u16(data, at + 4).unwrap() as i16;
        pairs.push((l, r, v));
        assert(pairs@ =~= kern0_pairs(data@, offset as int, n as int).take(i + 1));
        i = i + 1;
    }
    assert(pairs@ =~= kern0_pairs(data@, offset as int, n as int));
    Some(PairKerning::Pairs(pairs))
}

/// Reads a classic kerning subtable at `offset` (its six-byte header, then
/// its body): the horizontal bit 0x1 and the cross-stream bit 0x4 of its
/// coverage, and for format 0 its pair list. Other formats, and truncated
/// subtables, give `None`.
pub fn decode_kern_subtable(data: &[u8], offset: u64) -> (r: Option<KernSubtable>)
    requires
        offset <= u32::MAX - 6,
    ensures
        r.is_some() ==> offset + 6 <= data@.len() && r.unwrap().horizontal == (be16(data@, offset + 4) as u16 & 1 != 0)
            && r.unwrap().cross_stream == (be16(data@, offset + 4) as u16 & 4 != 0) && (match r.unwrap().kind {
            KernKind::Format0(PairKerning::Pairs(p)) => p@ == kern0_pairs(
                data@,
                offset + 6,
                be16(data@, offset + 6),
            ),
            _ => false,
        }),
        r.is_none() ==> offset + 6 > data@.len() || be16(data@, offset + 4) as u16 >> 8u16 != 0
            || offset + 8 > data@.len() || offset + 14 + 6 * be16(data@, offset + 6) > data@.len(),
{
    let coverage = match read_u16(data, offset + 4) {
        Some(c) => c,
        None => {
            return None;
        },
    };
    if coverage >> 8u16 != 0 {
        return None;
    }
    match decode_kern_pairs(data, offset + 6) {
        Some(p) => Some(KernSubtable { horizontal: coverage & 1 != 0, cross_stream: coverage & 4 != 0, kind: KernKind::Format0(p) }),
        None => None,
    }
}

/// Whether a subtable of an extended kerning table still runs with kerning
/// disabled: a horizontal anchor subtable.
pub open spec fn runs_disabled(t: KerxSubtable) -> bool {
    !t.vertical && !t.cross_stream && t.kind is Format4
}

/// The subtables that still run with kerning disabled, in order.
pub open spec fn anchors_only(subs: Seq<KerxSubtable>) -> Seq<KerxSubtable>
    decreases subs.len(),
{
    if subs.len() == 0 {
        Seq::empty()
    } else if runs_disabled(subs[0]) {
        seq![subs[0]] + anchors_only(subs.skip(1))
    } else {
        anchors_only(subs.skip(1))
    }
}

proof fn lemma_kerx_from_any_order(s: BufferState, r: bool, subs: Seq<KerxSubtable>, disable_kern: bool)
    ensures
        ordered(kerx_passes(ordered(s, r), subs, disable_kern), false) == ordered(kerx_passes(s, subs, disable_kern), false),
{
    if subs.len() == 0 {
        lemma_ordered_twice(s, r, false);
    } else {
        let t = subs[0];
        lemma_ordered_twice(s, r, reverse_for(t.descending, false, s.is_rtl));
        assert(kerx_step(ordered(s, r), t, disable_kern) == kerx_step(s, t, disable_kern));
    }
}

/// With kerning disabled, an extended kerning table acts as the same table
/// holding only its anchor subtables, with kerning enabled: pair and
/// contextual kerning do nothing, anchor attachment still runs.
pub proof fn lemma_kerx_disabled_is_anchors_only(s: BufferState, subs: Seq<KerxSubtable>)
    ensures
        ordered(kerx_passes(s, subs, true), false) == ordered(kerx_passes(s, anchors_only(subs), false), false),
    decreases subs.len(),
{
    if subs.len() > 0 {
        let t = subs[0];
        let rest = subs.skip(1);
        let s2 = kerx_step(s, t, true);
        lemma_kerx_disabled_is_anchors_only(s2, rest);
        if runs_disabled(t) {
            let a = seq![t] + anchors_only(rest);
            assert(a[0] == t);
            assert(a.skip(1) =~= anchors_only(rest));
            assert(kerx_step(s, t, false) == s2);
        } else {
            let r = reverse_for(t.descending, false, s.is_rtl);
            assert(s2 == ordered(s, r));
            lemma_kerx_from_any_order(s, r, anchors_only(rest), false);
        }
    }
}

} // verus!
