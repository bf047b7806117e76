/*!
Shaping buffer: glyph records with parallel position records, kept in
logical or reversed (visual) order.
*/

use vstd::prelude::*;

verus! {

/// Position flag: the glyph is attached to a base glyph.
pub const MARK_ATTACH: u8 = 1;

/// Joining type that marks a transparent glyph (a mark) for kerning.
pub const JOINING_TRANSPARENT: u8 = 6;

/// Shape class of a character, as far as the legacy engine reads it.
#[derive(Copy, Clone, Debug, PartialEq, Eq, Structural)]
pub enum ShapeClass {
    Base,
    Mark,
    Control,
    Other,
}

/// One glyph record of the buffer.
#[derive(Copy, Clone, Debug, PartialEq, Eq, Structural)]
pub struct GlyphData {
    pub id: u16,
    /// Index of the source cluster that this glyph realizes.
    pub cluster: u32,
    pub joining_type: u8,
    pub char_class: ShapeClass,
    pub flags: u16,
    pub data: u32,
}

/// One position record of the buffer, in font units.
#[derive(Copy, Clone, Debug, PartialEq, Eq, Structural)]
pub struct PositionData {
    pub advance: i32,
    pub x: i32,
    pub y: i32,
    /// Distance to the base glyph of an attached mark.
    pub base: u8,
    pub flags: u8,
}

/// The abstract state of a buffer.
pub struct BufferState {
    pub glyphs: Seq<GlyphData>,
    pub positions: Seq<PositionData>,
    pub is_rtl: bool,
    pub reversed: bool,
    pub has_marks: bool,
    /// `(component, ligature)` cluster pairs: for each glyph merged away by
    /// a ligature, its cluster and the cluster of the ligature glyph.
    pub merged: Seq<(u32, u32)>,
}

/// The sequence read from its end.
pub open spec fn rev<T>(s: Seq<T>) -> Seq<T> {
    Seq::new(s.len(), |i: int| s[s.len() - 1 - i])
}

/// The state after bringing the buffer into the requested order.
pub open spec fn ordered(s: BufferState, reverse: bool) -> BufferState {
    if s.reversed == reverse {
        s
    } else {
        BufferState {
            glyphs: rev(s.glyphs),
            positions: rev(s.positions),
            reversed: reverse,
            ..s
        }
    }
}

/// The glyphs in source order, whatever the current order is.
pub open spec fn logical_glyphs(s: BufferState) -> Seq<GlyphData> {
    if s.reversed {
        rev(s.glyphs)
    } else {
        s.glyphs
    }
}

/// Elements of `s` whose index is not in `drop`, in order.
pub open spec fn keep<T>(s: Seq<T>, drop: Set<int>) -> Seq<T>
    decreases s.len(),
{
    if s.len() == 0 {
        Seq::empty()
    } else {
        let rest = keep(s.drop_last(), drop);
        if drop.contains(s.len() - 1) {
            rest
        } else {
            rest.push(s.last())
        }
    }
}

/// Indices merged away by a ligature formed at `index` from `components`.
pub open spec fn merged_away(index: int, components: Seq<usize>) -> Set<int> {
    Set::new(|j: int| j != index && components.contains(j as usize))
}

/// `count` copies of `t` inserted before position `index`.
pub open spec fn inserted<T>(s: Seq<T>, index: int, count: nat, t: T) -> Seq<T> {
    s.take(index) + Seq::new(count, |k: int| t) + s.skip(index)
}

/// The glyph record with its flags cleared.
pub open spec fn cleared(g: GlyphData) -> GlyphData {
    GlyphData { flags: 0, ..g }
}

proof fn lemma_keep_len<A, B>(a: Seq<A>, b: Seq<B>, drop: Set<int>)
    requires
        a.len() == b.len(),
    ensures
        keep(a, drop).len() == keep(b, drop).len(),
    decreases a.len(),
{
    if a.len() > 0 {
        lemma_keep_len(a.drop_last(), b.drop_last(), drop);
    }
}

/// Glyph and position records with an ordering discipline.
pub struct Buffer {
    glyphs: Vec<GlyphData>,
    positions: Vec<PositionData>,
    is_rtl: bool,
    reversed: bool,
    has_marks: bool,
    merged: Vec<(u32, u32)>,
}

impl View for Buffer {
    type V = BufferState;

    closed spec fn view(&self) -> BufferState {
        BufferState {
            glyphs: self.glyphs@,
            positions: self.positions@,
            is_rtl: self.is_rtl,
            reversed: self.reversed,
            has_marks: self.has_marks,
            merged: self.merged@,
        }
    }
}

impl Buffer {
    /// Both sequences have the same length.
    pub open spec fn wf(&self) -> bool {
        self@.glyphs.len() == self@.positions.len()
    }

    /// Creates an empty buffer in logical order.
    pub fn new(is_rtl: bool) -> (r: Buffer)
        ensures
            r.wf(),
            r@.glyphs.len() == 0,
            r@.is_rtl == is_rtl,
            !r@.reversed,
            !r@.has_marks,
            r@.merged.len() == 0,
    {
        Buffer {
            glyphs: Vec::new(),
            positions: Vec::new(),
            is_rtl,
            reversed: false,
            has_marks: false,
            merged: Vec::new(),
        }
    }

    /// Appends one glyph, with its position record, at the end.
    pub fn push(&mut self, glyph: GlyphData, position: PositionData)
        requires
            old(self).wf(),
        ensures
            final(self).wf(),
            final(self)@ == (BufferState {
                glyphs: old(self)@.glyphs.push(glyph),
                positions: old(self)@.positions.push(position),
                ..old(self)@
            }),
    {
        self.glyphs.push(glyph);
        self.positions.push(position);
    }

    /// Number of glyphs.
    pub fn len(&self) -> (r: usize)
        ensures
            r == self@.glyphs.len(),
    {
        self.glyphs.len()
    }

    /// The glyph records in buffer order.
    pub fn glyphs(&self) -> (r: &Vec<GlyphData>)
        ensures
            r@ == self@.glyphs,
    {
        &self.glyphs
    }

    /// The position records in buffer order.
    pub fn positions(&self) -> (r: &Vec<PositionData>)
        ensures
            r@ == self@.positions,
    {
        &self.positions
    }

    /// Whether the run is right-to-left.
    pub fn is_rtl(&self) -> (r: bool)
        ensures
            r == self@.is_rtl,
    {
        self.is_rtl
    }

    /// Whether the buffer is in reversed order.
    pub fn is_reversed(&self) -> (r: bool)
        ensures
            r == self@.reversed,
    {
        self.reversed
    }

    /// The `(component, ligature)` cluster pairs recorded by ligatures.
    pub fn merged(&self) -> (r: &Vec<(u32, u32)>)
        ensures
            r@ == self@.merged,
    {
        &self.merged
    }

    /// Whether a mark was attached.
    pub fn has_marks(&self) -> (r: bool)
        ensures
            r == self@.has_marks,
    {
        self.has_marks
    }
}

fn reverse_vec<T: Copy>(v: &Vec<T>) -> (r: Vec<T>)
    ensures
        r@ == rev(v@),
{
    let mut r: Vec<T> = Vec::new();
    let mut k: usize = v.len();
    while k > 0
        invariant
            k <= v@.len(),
            r@.len() == v@.len() - k,
            forall|j: int| 0 <= j < r@.len() ==> r@[j] == v@[v@.len() - 1 - j],
        decreases k,
    {
        k = k - 1;
        r.push(v[k]);
    }
    assert(r@ =~= rev(v@));
    r
}

/// The sum `a + d`, held within the range of `i32`.
pub open spec fn sat_add(a: i32, d: int) -> i32 {
    if a + d > i32::MAX {
        i32::MAX
    } else if a + d < i32::MIN {
        i32::MIN
    } else {
        (a + d) as i32
    }
}

/// Adds `d` to `a`, saturating at the bounds of `i32`.
pub fn saturating_add_i32(a: i32, d: i32) -> (r: i32)
    ensures
        r == sat_add(a, d as int),
{
    let s: i64 = a as i64 + d as i64;
    if s > i32::MAX as i64 {
        i32::MAX
    } else if s < i32::MIN as i64 {
        i32::MIN
    } else {
        s as i32
    }
}

impl Buffer {
    /// Brings the buffer into reversed order when `reverse` holds and into
    /// logical order otherwise; both sequences are reversed together.
    pub fn ensure_order(&mut self, reverse: bool)
        requires
            old(self).wf(),
        ensures
            final(self).wf(),
            final(self)@ == ordered(old(self)@, reverse),
    {
        if reverse != self.reversed {
            self.glyphs = reverse_vec(&self.glyphs);
            self.positions = reverse_vec(&self.positions);
            self.reversed = reverse;
        }
    }

    /// Replaces the glyph identifier at `index`; its position is unchanged.
    pub fn substitute(&mut self, index: usize, id: u16)
        requires
            old(self).wf(),
            index < old(self)@.glyphs.len(),
        ensures
            final(self).wf(),
            final(self)@ == (BufferState {
                glyphs: old(self)@.glyphs.update(index as int, GlyphData { id, ..old(self)@.glyphs[index as int] }),
                ..old(self)@
            }),
    {
        let mut g = self.glyphs[index];
        g.id = id;
        self.glyphs.set(index, g);
    }

    /// Adds `delta` to the advance of the glyph at `index`.
    pub fn add_advance(&mut self, index: usize, delta: i32)
        requires
            old(self).wf(),
            index < old(self)@.glyphs.len(),
        ensures
            final(self).wf(),
            final(self)@ == advanced(old(self)@, index as int, delta as int),
    {
        let mut p = self.positions[index];
        p.advance = saturating_add_i32(p.advance, delta);
        self.positions.set(index, p);
    }

    /// Sets the vertical offset of the glyph at `index`.
    pub fn set_y(&mut self, index: usize, y: i32)
        requires
            old(self).wf(),
            index < old(self)@.glyphs.len(),
        ensures
            final(self).wf(),
            final(self)@ == with_y(old(self)@, index as int, y),
    {
        let mut p = self.positions[index];
        p.y = y;
        self.positions.set(index, p);
    }

    /// Attaches the glyph at `index` to the glyph `distance` places away,
    /// with offset `x`, `y`, and records that the buffer holds marks.
    pub fn attach(&mut self, index: usize, distance: u8, x: i32, y: i32)
        requires
            old(self).wf(),
            index < old(self)@.glyphs.len(),
        ensures
            final(self).wf(),
            final(self)@ == attached(old(self)@, index as int, distance, x, y),
    {
        let mut p = self.positions[index];
        p.base = distance;
        p.x = x;
        p.y = y;
        p.flags = p.flags | MARK_ATTACH;
        self.positions.set(index, p);
        self.has_marks = true;
    }

    /// Attaches the glyph at `index` to the glyph at absolute index `base`.
    /// A base more than 255 places away cannot be recorded and leaves the
    /// buffer unchanged.
    pub fn position_mark(&mut self, index: usize, base: usize, x: i32, y: i32)
        requires
            old(self).wf(),
            index < old(self)@.glyphs.len(),
        ensures
            final(self).wf(),
            final(self)@ == mark_positioned(old(self)@, index as int, base as int, x, y),
    {
        let diff = if base >= index { base - index } else { index - base };
        if diff <= 255 {
            self.attach(index, diff as u8, x, y);
        }
    }

    /// Inserts `count` copies of the glyph at `index`, with cleared flags,
    /// before it, so that `index..index + count` holds the new entries.
    pub fn multiply(&mut self, index: usize, count: usize)
        requires
            old(self).wf(),
            index < old(self)@.glyphs.len(),
            old(self)@.glyphs.len() + count <= usize::MAX,
        ensures
            final(self).wf(),
            final(self)@ == (BufferState {
                glyphs: inserted(old(self)@.glyphs, index as int, count as nat, cleared(old(self)@.glyphs[index as int])),
                positions: inserted(old(self)@.positions, index as int, count as nat, old(self)@.positions[index as int]),
                ..old(self)@
            }),
    {
        let g = self.glyphs[index];
        let ng = GlyphData { flags: 0, ..g };
        let p = self.positions[index];
        let mut glyphs: Vec<GlyphData> = Vec::new();
        let mut positions: Vec<PositionData> = Vec::new();
        let len = self.glyphs.len();
        let mut k: usize = 0;
        while k < len + count
            invariant
                self.wf(),
                len == self.glyphs@.len(),
                index < len,
                len + count <= usize::MAX,
                k <= len + count,
                glyphs@ == inserted(self.glyphs@, index as int, count as nat, ng).take(k as int),
                positions@ == inserted(self.positions@, index as int, count as nat, p).take(k as int),
                ng == cleared(self.glyphs@[index as int]),
                p == self.positions@[index as int],
            decreases len + count - k,
        {
            let src: usize = if k < index { k } else if k < index + count { index } else { k - count };
            if k < index || k >= index + count {
                glyphs.push(self.glyphs[src]);
            } else {
                glyphs.push(ng);
            }
            positions.push(self.positions[src]);
            assert(glyphs@ =~= inserted(self.glyphs@, index as int, count as nat, ng).take(k + 1));
            assert(positions@ =~= inserted(self.positions@, index as int, count as nat, p).take(k + 1));
            k = k + 1;
        }
        assert(glyphs@ =~= inserted(self.glyphs@, index as int, count as nat, ng));
        assert(positions@ =~= inserted(self.positions@, index as int, count as nat, p));
        self.glyphs = glyphs;
        self.positions = positions;
    }

    /// Forms a ligature: the glyph at `index` becomes `id` and the other
    /// glyphs at the indices of `components` are removed with their
    /// position records.
    pub fn substitute_ligature(&mut self, index: usize, id: u16, components: &Vec<usize>)
        requires
            old(self).wf(),
            index < old(self)@.glyphs.len(),
        ensures
            final(self).wf(),
            final(self)@ == ligated(old(self)@, index as int, id, components@),
    {
        self.substitute(index, id);
        let ghost drop = merged_away(index as int, components@);
        let ghost m0 = self.merged@;
        let ghost s1 = self@;
        let into = self.glyphs[index].cluster;
        let mut glyphs: Vec<GlyphData> = Vec::new();
        let mut positions: Vec<PositionData> = Vec::new();
        let len = self.glyphs.len();
        let mut k: usize = 0;
        assert(removed_pairs(self.glyphs@.take(0), drop, into) =~= Seq::empty());
        assert(self.merged@ =~= m0 + removed_pairs(self.glyphs@.take(0), drop, into));
        while k < len
            invariant
                self.wf(),
                len == self.glyphs@.len(),
                k <= len,
                drop == merged_away(index as int, components@),
                glyphs@ == keep(self.glyphs@.take(k as int), drop),
                positions@ == keep(self.positions@.take(k as int), drop),
                self.merged@ == m0 + removed_pairs(self.glyphs@.take(k as int), drop, into),
                self@.glyphs == s1.glyphs,
                self@.positions == s1.positions,
                self@.is_rtl == s1.is_rtl,
                self@.reversed == s1.reversed,
                self@.has_marks == s1.has_marks,
                m0 == s1.merged,
                index < len,
                into == s1.glyphs[index as int].cluster,
            decreases len - k,
        {
            let merged = k != index && contains_index(components, k);
            assert(self.glyphs@.take(k + 1).drop_last() =~= self.glyphs@.take(k as int));
            assert(self.positions@.take(k + 1).drop_last() =~= self.positions@.take(k as int));
            assert(merged == drop.contains(k as int));
            if !merged {
                glyphs.push(self.glyphs[k]);
                positions.push(self.positions[k]);
            } else {
                let c = self.glyphs[k].cluster;
                self.merged.push((c, into));
            }
            assert(self.merged@ =~= m0 + removed_pairs(self.glyphs@.take(k + 1), drop, into));
            k = k + 1;
        }
        assert(self.glyphs@.take(len as int) =~= self.glyphs@);
        assert(self.positions@.take(len as int) =~= self.positions@);
        proof {
            lemma_keep_len(self.glyphs@, self.positions@, drop);
        }
        self.glyphs = glyphs;
        self.positions = positions;
    }
}

/// Distance between two indices.
pub open spec fn distance(a: int, b: int) -> int {
    if a >= b {
        a - b
    } else {
        b - a
    }
}

fn contains_index(v: &Vec<usize>, x: usize) -> (r: bool)
    ensures
        r == v@.contains(x),
{
    let mut k: usize = 0;
    while k < v.len()
        invariant
            k <= v@.len(),
            forall|j: int| 0 <= j < k ==> v@[j] != x,
        decreases v@.len() - k,
    {
        if v[k] == x {
            return true;
        }
        k = k + 1;
    }
    false
}

proof fn lemma_rev_rev<T>(s: Seq<T>)
    ensures
        rev(rev(s)) == s,
{
    assert(rev(rev(s)) =~= s);
}

/// Only the last requested order counts.
pub proof fn lemma_ordered_twice(s: BufferState, a: bool, b: bool)
    ensures
        ordered(ordered(s, a), b) == ordered(s, b),
{
    lemma_rev_rev(s.glyphs);
    lemma_rev_rev(s.positions);
}

/// Both sequences keep the same length through a change of order.
pub proof fn lemma_ordered_lengths(s: BufferState, reverse: bool)
    requires
        s.glyphs.len() == s.positions.len(),
    ensures
        ordered(s, reverse).glyphs.len() == ordered(s, reverse).positions.len(),
{
}

/// Asking twice for the same order changes nothing after the first time.
pub proof fn lemma_ensure_order_idempotent(s: BufferState, reverse: bool)
    ensures
        ordered(ordered(s, reverse), reverse) == ordered(s, reverse),
{
}

/// Reversing a buffer that is in logical order and then asking for logical
/// order again gives back the buffer exactly.
pub proof fn lemma_ensure_order_round_trip(s: BufferState)
    requires
        !s.reversed,
    ensures
        ordered(ordered(s, true), false) == s,
{
    lemma_rev_rev(s.glyphs);
    lemma_rev_rev(s.positions);
}

/// A change of order never changes the glyphs read in source order.
pub proof fn lemma_ordered_keeps_logical(s: BufferState, reverse: bool)
    ensures
        logical_glyphs(ordered(s, reverse)) == logical_glyphs(s),
{
    lemma_rev_rev(s.glyphs);
}

/// The state after adding `delta` to the advance at `i`.
pub open spec fn advanced(s: BufferState, i: int, delta: int) -> BufferState {
    BufferState {
        positions: s.positions.update(i, PositionData { advance: sat_add(s.positions[i].advance, delta), ..s.positions[i] }),
        ..s
    }
}

/// The state after setting the vertical offset at `i`.
pub open spec fn with_y(s: BufferState, i: int, y: i32) -> BufferState {
    BufferState { positions: s.positions.update(i, PositionData { y, ..s.positions[i] }), ..s }
}

/// The state after attaching the glyph at `i` to the glyph `d` places away.
pub open spec fn attached(s: BufferState, i: int, d: u8, x: i32, y: i32) -> BufferState {
    BufferState {
        positions: s.positions.update(
            i,
            PositionData { base: d, x, y, flags: s.positions[i].flags | MARK_ATTACH, ..s.positions[i] },
        ),
        has_marks: true,
        ..s
    }
}

/// The state after attaching the glyph at `i` to the glyph at index
/// `base`; a base more than 255 places away leaves the state unchanged.
pub open spec fn mark_positioned(s: BufferState, i: int, base: int, x: i32, y: i32) -> BufferState {
    if distance(i, base) <= 255 {
        attached(s, i, distance(i, base) as u8, x, y)
    } else {
        s
    }
}

/// `(cluster, into)` for each glyph of `g` whose index is in `drop`, in order.
pub open spec fn removed_pairs(g: Seq<GlyphData>, drop: Set<int>, into: u32) -> Seq<(u32, u32)>
    decreases g.len(),
{
    if g.len() == 0 {
        Seq::empty()
    } else {
        let rest = removed_pairs(g.drop_last(), drop, into);
        if drop.contains(g.len() - 1) {
            rest.push((g.last().cluster, into))
        } else {
            rest
        }
    }
}

/// The state after forming a ligature `id` at `i` from `components`: the
/// clusters of the glyphs merged away are recorded as merged into the
/// cluster of the ligature glyph.
pub open spec fn ligated(s: BufferState, i: int, id: u16, components: Seq<usize>) -> BufferState {
    let g = s.glyphs.update(i, GlyphData { id, ..s.glyphs[i] });
    BufferState {
        glyphs: keep(g, merged_away(i, components)),
        positions: keep(s.positions, merged_away(i, components)),
        merged: s.merged + removed_pairs(g, merged_away(i, components), s.glyphs[i].cluster),
        ..s
    }
}

/// The state after inserting the glyphs `ids` before position `i`: they
/// copy the glyph at `i` with cleared flags, and its position record.
pub open spec fn with_inserted(s: BufferState, i: int, ids: Seq<u16>) -> BufferState {
    BufferState {
        glyphs: s.glyphs.take(i) + Seq::new(ids.len(), |k: int| GlyphData { id: ids[k], ..cleared(s.glyphs[i]) })
            + s.glyphs.skip(i),
        positions: inserted(s.positions, i, ids.len(), s.positions[i]),
        ..s
    }
}

impl Buffer {
    /// Inserts the glyphs `ids` before position `index` (see `with_inserted`).
    pub fn insert(&mut self, index: usize, ids: &Vec<u16>)
        requires
            old(self).wf(),
            index < old(self)@.glyphs.len(),
            old(self)@.glyphs.len() + ids@.len() <= usize::MAX,
        ensures
            final(self).wf(),
            final(self)@ == with_inserted(old(self)@, index as int, ids@),
    {
        let ghost s0 = self@;
        let ghost g0 = cleared(s0.glyphs[index as int]);
        let n = ids.len();
        self.multiply(index, n);
        let mut m: usize = 0;
        proof {
            let z = s0.glyphs.take(index as int) + Seq::new(
                n as nat,
                |k: int| if k < 0 { GlyphData { id: ids@[k], ..g0 } } else { g0 },
            ) + s0.glyphs.skip(index as int);
            assert(self@.glyphs =~= z);
        }
        while m < n
            invariant
                self.wf(),
                s0.glyphs.len() == s0.positions.len(),
                s0.glyphs.len() + n <= usize::MAX,
                n == ids@.len(),
                m <= n,
                index < s0.glyphs.len(),
                g0 == cleared(s0.glyphs[index as int]),
                self@ == (BufferState {
                    glyphs: s0.glyphs.take(index as int) + Seq::new(
                        n as nat,
                        |k: int| if k < m { GlyphData { id: ids@[k], ..g0 } } else { g0 },
                    ) + s0.glyphs.skip(index as int),
                    positions: inserted(s0.positions, index as int, n as nat, s0.positions[index as int]),
                    ..s0
                }),
            decreases n - m,
        {
            self.substitute(index + m, ids[m]);
            proof {
                let ng = s0.glyphs.take(index as int) + Seq::new(
                    n as nat,
                    |k: int| if k < m + 1 { GlyphData { id: ids@[k], ..g0 } } else { g0 },
                ) + s0.glyphs.skip(index as int);
                assert(self@.glyphs =~= ng);
            }
            m = m + 1;
        }
        proof {
            let a = Seq::new(n as nat, |k: int| if k < m { GlyphData { id: ids@[k], ..g0 } } else { g0 });
            let b = Seq::new(ids@.len(), |k: int| GlyphData { id: ids@[k], ..g0 });
            assert(a =~= b);
            assert(self@.glyphs =~= with_inserted(s0, index as int, ids@).glyphs);
        }
    }
}

/// The shape of a rearrangement verb: how many glyphs the marked range
/// moves from its start and from its end, and whether each moved group is
/// reversed. Verb 0 moves nothing.
pub open spec fn verb_shape(verb: u8) -> (int, int, bool, bool) {
    if verb == 1 {
        (1, 0, false, false)
    } else if verb == 2 {
        (0, 1, false, false)
    } else if verb == 3 {
        (1, 1, false, false)
    } else if verb == 4 {
        (2, 0, false, false)
    } else if verb == 5 {
        (2, 0, true, false)
    } else if verb == 6 {
        (0, 2, false, false)
    } else if verb == 7 {
        (0, 2, false, true)
    } else if verb == 8 {
        (1, 2, false, false)
    } else if verb == 9 {
        (1, 2, false, true)
    } else if verb == 10 {
        (2, 1, false, false)
    } else if verb == 11 {
        (2, 1, true, false)
    } else if verb == 12 {
        (2, 2, false, false)
    } else if verb == 13 {
        (2, 2, true, false)
    } else if verb == 14 {
        (2, 2, false, true)
    } else if verb == 15 {
        (2, 2, true, true)
    } else {
        (0, 0, false, false)
    }
}

pub open spec fn maybe_rev<T>(s: Seq<T>, flip: bool) -> Seq<T> {
    if flip {
        rev(s)
    } else {
        s
    }
}

/// The glyphs after rearranging the marked range `start..end`: the groups
/// taken from its start and its end trade places (`AxD` becomes `DxA`),
/// each reversed where the verb says. A range too short for the verb is
/// left as it is.
pub open spec fn rearranged<T>(s: Seq<T>, start: int, end: int, verb: u8) -> Seq<T> {
    let (l, r, fl, fr) = verb_shape(verb);
    if !(0 <= start <= end <= s.len()) || end - start < l + r {
        s
    } else {
        s.take(start) + maybe_rev(s.subrange(end - r, end), fr) + s.subrange(start + l, end - r)
            + maybe_rev(s.subrange(start, start + l), fl) + s.skip(end)
    }
}

fn verb_counts(verb: u8) -> (r: (usize, usize, bool, bool))
    ensures
        (r.0 as int, r.1 as int, r.2, r.3) == verb_shape(verb),
{
    if verb == 1 {
        (1, 0, false, false)
    } else if verb == 2 {
        (0, 1, false, false)
    } else if verb == 3 {
        (1, 1, false, false)
    } else if verb == 4 {
        (2, 0, false, false)
    } else if verb == 5 {
        (2, 0, true, false)
    } else if verb == 6 {
        (0, 2, false, false)
    } else if verb == 7 {
        (0, 2, false, true)
    } else if verb == 8 {
        (1, 2, false, false)
    } else if verb == 9 {
        (1, 2, false, true)
    } else if verb == 10 {
        (2, 1, false, false)
    } else if verb == 11 {
        (2, 1, true, false)
    } else if verb == 12 {
        (2, 2, false, false)
    } else if verb == 13 {
        (2, 2, true, false)
    } else if verb == 14 {
        (2, 2, false, true)
    } else if verb == 15 {
        (2, 2, true, true)
    } else {
        (0, 0, false, false)
    }
}

fn push_range(out: &mut Vec<GlyphData>, src: &Vec<GlyphData>, a: usize, b: usize, flip: bool)
    requires
        a <= b <= src@.len(),
    ensures
        final(out)@ == old(out)@ + maybe_rev(src@.subrange(a as int, b as int), flip),
{
    let ghost o = out@;
    let ghost piece = maybe_rev(src@.subrange(a as int, b as int), flip);
    let mut k: usize = 0;
    while k < b - a
        invariant
            a <= b <= src@.len(),
            piece == maybe_rev(src@.subrange(a as int, b as int), flip),
            k <= b - a,
            out@ == o + piece.take(k as int),
        decreases b - a - k,
    {
        let g = if flip { src[b - 1 - k] } else { src[a + k] };
        out.push(g);
        assert(out@ =~= o + piece.take(k + 1));
        k = k + 1;
    }
    assert(piece.take(k as int) =~= piece);
}

/// The smallest cluster index among the glyphs `start..end`.
pub open spec fn range_min(s: Seq<GlyphData>, start: int, end: int) -> u32
    decreases end - start,
{
    if end <= start + 1 {
        s[start].cluster
    } else {
        let m = range_min(s, start + 1, end);
        if s[start].cluster < m {
            s[start].cluster
        } else {
            m
        }
    }
}

/// The glyphs with those of `start..end` given the cluster `c`.
pub open spec fn with_cluster(s: Seq<GlyphData>, start: int, end: int, c: u32) -> Seq<GlyphData> {
    Seq::new(s.len(), |k: int| if start <= k < end { GlyphData { cluster: c, ..s[k] } } else { s[k] })
}

/// The glyphs after a rearrangement: the clusters of the marked range
/// become one, the smallest among them, so that no cluster is split, and
/// the range is rearranged (see `rearranged`). A range too short for the
/// verb, or a verb that moves nothing, leaves the glyphs as they are.
pub open spec fn rearranged_glyphs(s: Seq<GlyphData>, start: int, end: int, verb: u8) -> Seq<GlyphData> {
    let (l, r, fl, fr) = verb_shape(verb);
    if !(0 <= start <= end <= s.len()) || end - start < l + r || l + r == 0 {
        s
    } else {
        rearranged(with_cluster(s, start, end, range_min(s, start, end)), start, end, verb)
    }
}

proof fn lemma_range_min(s: Seq<GlyphData>, start: int, end: int)
    requires
        0 <= start < end <= s.len(),
    ensures
        exists|j: int| start <= j < end && s[j].cluster == range_min(s, start, end),
        forall|j: int| start <= j < end ==> range_min(s, start, end) <= s[j].cluster,
    decreases end - start,
{
    if end > start + 1 {
        lemma_range_min(s, start + 1, end);
        if s[start].cluster >= range_min(s, start + 1, end) {
            let j = choose|j: int| start + 1 <= j < end && s[j].cluster == range_min(s, start + 1, end);
            assert(start <= j < end && s[j].cluster == range_min(s, start, end));
        }
    } else {
        assert(s[start].cluster == range_min(s, start, end));
    }
}

impl Buffer {
    /// Rearranges the glyphs of the marked range `start..end` by `verb`
    /// (see `rearranged`); position records stay where they are.
    pub fn rearrange(&mut self, start: usize, end: usize, verb: u8)
        requires
            old(self).wf(),
        ensures
            final(self).wf(),
            final(self)@ == (BufferState {
                glyphs: rearranged_glyphs(old(self)@.glyphs, start as int, end as int, verb),
                ..old(self)@
            }),
    {
        let (l, r, fl, fr) = verb_counts(verb);
        let len = self.glyphs.len();
        if !(start <= end && end <= len) || end - start < l + r || l + r == 0 {
            return;
        }
        let ghost g0 = self.glyphs@;
        let ghost s0 = self@;
        let mut m: u32 = self.glyphs[end - 1].cluster;
        let mut k: usize = end - 1;
        while k > start
            invariant
                start < end <= len,
                start <= k < end,
                g0 == self.glyphs@,
                len == g0.len(),
                m == range_min(g0, k as int, end as int),
            decreases k,
        {
            k = k - 1;
            let c = self.glyphs[k].cluster;
            if c < m {
                m = c;
            }
        }
        let mut i: usize = start;
        while i < end
            invariant
                start <= i <= end <= len,
                len == self.glyphs@.len(),
                self.glyphs@.len() == self.positions@.len(),
                m == range_min(g0, start as int, end as int),
                g0.len() == len,
                g0 == s0.glyphs,
                self@ == (BufferState { glyphs: self.glyphs@, ..s0 }),
                forall|j: int|
                    0 <= j < len ==> self.glyphs@[j] == if start <= j < i {
                        GlyphData { cluster: m, ..g0[j] }
                    } else {
                        g0[j]
                    },
            decreases end - i,
        {
            let g = self.glyphs[i];
            self.glyphs.set(i, GlyphData { cluster: m, ..g });
            i = i + 1;
        }
        assert(self.glyphs@ =~= with_cluster(g0, start as int, end as int, m));
        let mut out: Vec<GlyphData> = Vec::new();
        push_range(&mut out, &self.glyphs, 0, start, false);
        push_range(&mut out, &self.glyphs, end - r, end, fr);
        push_range(&mut out, &self.glyphs, start + l, end - r, false);
        push_range(&mut out, &self.glyphs, start, start + l, fl);
        push_range(&mut out, &self.glyphs, end, len, false);
        assert(self.glyphs@.subrange(0, start as int) =~= self.glyphs@.take(start as int));
        assert(self.glyphs@.subrange(end as int, len as int) =~= self.glyphs@.skip(end as int));
        assert(out@ =~= rearranged(self.glyphs@, start as int, end as int, verb));
        assert(out@ == rearranged_glyphs(g0, start as int, end as int, verb));
        self.glyphs = out;
    }
}

/// Cluster indices never decrease along `g`, or never increase when
/// `descending`.
pub open spec fn monotone(g: Seq<GlyphData>, descending: bool) -> bool {
    forall|a: int, b: int|
        0 <= a < b < g.len() ==> if descending {
            g[a].cluster >= g[b].cluster
        } else {
            g[a].cluster <= g[b].cluster
        }
}

/// Every cluster index of `g` is below `n`.
pub open spec fn clusters_below(g: Seq<GlyphData>, n: int) -> bool {
    forall|k: int| 0 <= k < g.len() ==> g[k].cluster < n
}

/// Read in source order, the buffer's cluster indices never decrease and
/// stay below `n`: each cluster's glyphs form one run, runs in source order.
pub open spec fn in_order(s: BufferState, n: int) -> bool {
    monotone(s.glyphs, s.reversed) && clusters_below(s.glyphs, n)
}

/// Two glyph sequences with the same cluster at every index.
pub open spec fn same_clusters(a: Seq<GlyphData>, b: Seq<GlyphData>) -> bool {
    a.len() == b.len() && forall|k: int| 0 <= k < a.len() ==> a[k].cluster == b[k].cluster
}

pub proof fn lemma_ordered_in_order(s: BufferState, reverse: bool, n: int)
    requires
        in_order(s, n),
    ensures
        in_order(ordered(s, reverse), n),
{
    let t = ordered(s, reverse);
    if s.reversed != reverse {
        let len = s.glyphs.len();
        assert forall|a: int, b: int| 0 <= a < b < t.glyphs.len() implies (if t.reversed {
            t.glyphs[a].cluster >= t.glyphs[b].cluster
        } else {
            t.glyphs[a].cluster <= t.glyphs[b].cluster
        }) by {
            assert(t.glyphs[a] == s.glyphs[len - 1 - a]);
            assert(t.glyphs[b] == s.glyphs[len - 1 - b]);
        }
        assert forall|k: int| 0 <= k < t.glyphs.len() implies t.glyphs[k].cluster < n by {
            assert(t.glyphs[k] == s.glyphs[len - 1 - k]);
        }
    }
}

pub proof fn lemma_same_clusters_in_order(s: BufferState, g: Seq<GlyphData>, n: int)
    requires
        in_order(s, n),
        same_clusters(s.glyphs, g),
    ensures
        in_order(BufferState { glyphs: g, ..s }, n),
{
}

proof fn lemma_keep_elems(s: Seq<GlyphData>, drop: Set<int>)
    ensures
        forall|i: int|
            0 <= i < keep(s, drop).len() ==> exists|j: int| 0 <= j < s.len() && #[trigger] keep(s, drop)[i] == s[j],
        keep(s, drop).len() <= s.len(),
    decreases s.len(),
{
    if s.len() > 0 {
        let p = s.drop_last();
        lemma_keep_elems(p, drop);
        let k = keep(s, drop);
        assert forall|i: int| 0 <= i < k.len() implies exists|j: int| 0 <= j < s.len() && #[trigger] k[i] == s[j] by {
            if i < keep(p, drop).len() {
                let j = choose|j: int| 0 <= j < p.len() && keep(p, drop)[i] == p[j];
                assert(k[i] == s[j]);
            } else {
                assert(k[i] == s[s.len() - 1]);
            }
        }
    }
}

pub proof fn lemma_keep_in_order(s: Seq<GlyphData>, drop: Set<int>, descending: bool, n: int)
    requires
        monotone(s, descending),
        clusters_below(s, n),
    ensures
        monotone(keep(s, drop), descending),
        clusters_below(keep(s, drop), n),
    decreases s.len(),
{
    lemma_keep_elems(s, drop);
    if s.len() > 0 {
        let p = s.drop_last();
        lemma_keep_in_order(p, drop, descending, n);
        lemma_keep_elems(p, drop);
        let kp = keep(p, drop);
        let k = keep(s, drop);
        if !drop.contains(s.len() - 1) {
            assert forall|a: int, b: int| 0 <= a < b < k.len() implies (if descending {
                k[a].cluster >= k[b].cluster
            } else {
                k[a].cluster <= k[b].cluster
            }) by {
                if b == k.len() - 1 {
                    let j = choose|j: int| 0 <= j < p.len() && kp[a] == p[j];
                    assert(k[a] == s[j]);
                    assert(k[b] == s[s.len() - 1]);
                } else {
                    assert(k[a] == kp[a] && k[b] == kp[b]);
                }
            }
        }
        assert forall|i: int| 0 <= i < k.len() implies k[i].cluster < n by {
            let j = choose|j: int| 0 <= j < s.len() && k[i] == s[j];
        }
    }
}

pub proof fn lemma_inserted_in_order(s: BufferState, i: int, ids: Seq<u16>, n: int)
    requires
        in_order(s, n),
        0 <= i < s.glyphs.len(),
    ensures
        in_order(with_inserted(s, i, ids), n),
{
    let t = with_inserted(s, i, ids);
    let m = ids.len() as int;
    assert forall|k: int| 0 <= k < t.glyphs.len() implies t.glyphs[k].cluster == s.glyphs[src_index(k, i, m)].cluster
        by {
        if k < i {
        } else if k < i + m {
        } else {
            assert(t.glyphs[k] == s.glyphs[k - m]);
        }
    }
    assert forall|a: int, b: int| 0 <= a < b < t.glyphs.len() implies (if t.reversed {
        t.glyphs[a].cluster >= t.glyphs[b].cluster
    } else {
        t.glyphs[a].cluster <= t.glyphs[b].cluster
    }) by {
        assert(t.glyphs[a].cluster == s.glyphs[src_index(a, i, m)].cluster);
        assert(t.glyphs[b].cluster == s.glyphs[src_index(b, i, m)].cluster);
    }
    assert forall|k: int| 0 <= k < t.glyphs.len() implies t.glyphs[k].cluster < n by {
        assert(t.glyphs[k].cluster == s.glyphs[src_index(k, i, m)].cluster);
    }
}

/// The index of the glyph that index `k` copies after `m` glyphs are
/// inserted before index `i`.
pub open spec fn src_index(k: int, i: int, m: int) -> int {
    if k < i {
        k
    } else if k < i + m {
        i
    } else {
        k - m
    }
}

proof fn lemma_rearranged_frame(s: Seq<GlyphData>, start: int, end: int, verb: u8)
    requires
        0 <= start <= end <= s.len(),
        end - start >= verb_shape(verb).0 + verb_shape(verb).1,
    ensures
        rearranged(s, start, end, verb).len() == s.len(),
        forall|k: int| 0 <= k < start ==> rearranged(s, start, end, verb)[k] == s[k],
        forall|k: int| end <= k < s.len() ==> rearranged(s, start, end, verb)[k] == s[k],
        forall|k: int|
            start <= k < end ==> start <= #[trigger] moved_from(k, start, end, verb) < end && rearranged(
                s,
                start,
                end,
                verb,
            )[k] == s[moved_from(k, start, end, verb)],
{
    let (l, r, fl, fr) = verb_shape(verb);
    let p1 = s.take(start);
    let p2 = maybe_rev(s.subrange(end - r, end), fr);
    let p3 = s.subrange(start + l, end - r);
    let p4 = maybe_rev(s.subrange(start, start + l), fl);
    let p5 = s.skip(end);
    let out = p1 + p2 + p3 + p4 + p5;
    assert(rearranged(s, start, end, verb) == out);
    assert forall|k: int| start <= k < end implies start <= #[trigger] moved_from(k, start, end, verb) < end
        && rearranged(s, start, end, verb)[k] == s[moved_from(k, start, end, verb)] by {
        let o = k - start;
        if o < r {
            assert(out[k] == p2[o]);
        } else if o < end - start - l {
            assert(out[k] == p3[o - r]);
        } else {
            assert(out[k] == p4[o - (end - start - l)]);
        }
    }
}

/// The index in the marked range `start..end` whose glyph a rearrangement
/// by `verb` moves to index `k` of that range.
pub open spec fn moved_from(k: int, start: int, end: int, verb: u8) -> int {
    let (l, r, fl, fr) = verb_shape(verb);
    let o = k - start;
    if o < r {
        if fr {
            end - 1 - o
        } else {
            end - r + o
        }
    } else if o < end - start - l {
        start + l + o - r
    } else {
        let q = o - (end - start - l);
        if fl {
            start + l - 1 - q
        } else {
            start + q
        }
    }
}

pub proof fn lemma_rearranged_in_order(s: BufferState, start: int, end: int, verb: u8, n: int)
    requires
        in_order(s, n),
    ensures
        in_order(BufferState { glyphs: rearranged_glyphs(s.glyphs, start, end, verb), ..s }, n),
{
    let g = s.glyphs;
    let (l, r, fl, fr) = verb_shape(verb);
    if 0 <= start <= end <= g.len() && end - start >= l + r && l + r != 0 {
        lemma_range_min(g, start, end);
        let c = range_min(g, start, end);
        let j0 = choose|j: int| start <= j < end && g[j].cluster == c;
        let w = with_cluster(g, start, end, c);
        lemma_rearranged_frame(w, start, end, verb);
        let t = rearranged_glyphs(g, start, end, verb);
        assert forall|k: int| 0 <= k < t.len() implies t[k].cluster == (if start <= k < end { c } else { g[k].cluster })
            by {
            if start <= k < end {
                assert(t[k] == w[moved_from(k, start, end, verb)]);
            }
        }
        assert forall|a: int, b: int| 0 <= a < b < t.len() implies (if s.reversed {
            t[a].cluster >= t[b].cluster
        } else {
            t[a].cluster <= t[b].cluster
        }) by {
            let ca = if start <= a < end { j0 } else { a };
            let cb = if start <= b < end { j0 } else { b };
            assert(t[a].cluster == g[ca].cluster);
            assert(t[b].cluster == g[cb].cluster);
        }
        assert forall|k: int| 0 <= k < t.len() implies t[k].cluster < n by {
            let ck = if start <= k < end { j0 } else { k };
            assert(t[k].cluster == g[ck].cluster);
        }
    }
}

pub proof fn lemma_ligated_in_order(s: BufferState, i: int, id: u16, components: Seq<usize>, n: int)
    requires
        in_order(s, n),
        0 <= i < s.glyphs.len(),
    ensures
        in_order(ligated(s, i, id, components), n),
{
    let g = s.glyphs.update(i, GlyphData { id, ..s.glyphs[i] });
    assert(same_clusters(s.glyphs, g));
    lemma_keep_in_order(g, merged_away(i, components), s.reversed, n);
}

} // verus!
