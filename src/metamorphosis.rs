/*!
Extended glyph metamorphosis: chains of substitution subtables, enabled by
feature flags, applied to a shaping buffer.
*/

use vstd::prelude::*;
use crate::aat::{reverse_for, should_reverse};
use crate::buffer::{
    in_order, lemma_inserted_in_order, lemma_ligated_in_order, lemma_ordered_in_order, lemma_rearranged_in_order,
    lemma_same_clusters_in_order, ligated, ordered, rearranged_glyphs, same_clusters, with_inserted, Buffer, BufferState,
    GlyphData,
};

verus! {

/// A feature of a chain: when the `(selector, setting)` key is requested,
/// the chain's flags lose `disable_flags` and gain `enable_flags`.
#[derive(Copy, Clone, Debug, PartialEq, Eq, Structural)]
pub struct ChainFeature {
    pub selector: u16,
    pub setting: u16,
    pub enable_flags: u32,
    pub disable_flags: u32,
}

/// A ligature formed by a ligature state machine.
pub struct LigatureAction {
    pub index: usize,
    pub id: u16,
    pub components: Vec<usize>,
}

/// The work of a metamorphosis subtable.
pub enum MorxKind {
    /// Rearrangements `(start, end, verb)` of marked ranges from a
    /// rearrangement state machine.
    Rearrangement(Vec<(usize, usize, u8)>),
    /// Glyph replacements `(index, glyph)` from a contextual state machine.
    Contextual(Vec<(usize, u16)>),
    /// A lookup `(glyph, replacement)` applied to every glyph; the first
    /// entry for a glyph wins.
    NonContextual(Vec<(u16, u16)>),
    /// Ligatures formed by a ligature state machine.
    Ligature(Vec<LigatureAction>),
    /// Glyphs `(index, glyphs)` inserted by an insertion state machine.
    Insertion(Vec<(usize, Vec<u16>)>),
}

/// A metamorphosis subtable with its coverage and sub-feature flags.
pub struct MorxSubtable {
    pub descending: bool,
    pub logical: bool,
    pub flags: u32,
    pub kind: MorxKind,
}

/// A chain of subtables with its default flags and features.
pub struct MorxChain {
    pub default_flags: u32,
    pub features: Vec<ChainFeature>,
    pub subtables: Vec<MorxSubtable>,
}

/// The flags of a chain after the requested features, in the order of the
/// chain's feature list.
pub open spec fn feature_flags(flags: u32, features: Seq<ChainFeature>, selectors: Seq<(u16, u16)>) -> u32
    decreases features.len(),
{
    if features.len() == 0 {
        flags
    } else {
        let f = features[0];
        let next = if selectors.contains((f.selector, f.setting)) {
            (flags & !f.disable_flags) | f.enable_flags
        } else {
            flags
        };
        feature_flags(next, features.skip(1), selectors)
    }
}

fn contains_key(selectors: &Vec<(u16, u16)>, key: (u16, u16)) -> (r: bool)
    ensures
        r == selectors@.contains(key),
{
    let mut k: usize = 0;
    while k < selectors.len()
        invariant
            k <= selectors@.len(),
            forall|j: int| 0 <= j < k ==> selectors@[j] != key,
        decreases selectors@.len() - k,
    {
        let s = selectors[k];
        if s.0 == key.0 && s.1 == key.1 {
            assert(selectors@[k as int] == key);
            return true;
        }
        k = k + 1;
    }
    false
}

/// Computes the effective flags of a chain for the requested selectors.
pub fn chain_flags(chain: &MorxChain, selectors: &Vec<(u16, u16)>) -> (r: u32)
    ensures
        r == feature_flags(chain.default_flags, chain.features@, selectors@),
{
    let mut flags = chain.default_flags;
    let mut n: usize = 0;
    assert(chain.features@.skip(0) =~= chain.features@);
    while n < chain.features.len()
        invariant
            n <= chain.features@.len(),
            feature_flags(chain.default_flags, chain.features@, selectors@)
                == feature_flags(flags, chain.features@.skip(n as int), selectors@),
        decreases chain.features@.len() - n,
    {
        let f = chain.features[n];
        assert(chain.features@.skip(n as int).skip(1) =~= chain.features@.skip(n + 1));
        assert(chain.features@.skip(n as int)[0] == f);
        if contains_key(selectors, (f.selector, f.setting)) {
            flags = (flags & !f.disable_flags) | f.enable_flags;
        }
        n = n + 1;
    }
    flags
}

pub open spec fn subst_lookup(s: Seq<(u16, u16)>, g: u16) -> Option<u16>
    decreases s.len(),
{
    if s.len() == 0 {
        None
    } else if s[0].0 == g {
        Some(s[0].1)
    } else {
        subst_lookup(s.skip(1), g)
    }
}

fn lookup(s: &Vec<(u16, u16)>, g: u16) -> (r: Option<u16>)
    ensures
        r == subst_lookup(s@, g),
{
    let mut k: usize = 0;
    assert(s@.skip(0) =~= s@);
    while k < s.len()
        invariant
            k <= s@.len(),
            subst_lookup(s@, g) == subst_lookup(s@.skip(k as int), g),
        decreases s@.len() - k,
    {
        assert(s@.skip(k as int).skip(1) =~= s@.skip(k + 1));
        assert(s@.skip(k as int)[0] == s@[k as int]);
        if s[k].0 == g {
            return Some(s[k].1);
        }
        k = k + 1;
    }
    None
}

/// The glyphs after a non-contextual lookup.
pub open spec fn looked_up(g: Seq<GlyphData>, table: Seq<(u16, u16)>) -> Seq<GlyphData> {
    Seq::new(
        g.len(),
        |k: int|
            match subst_lookup(table, g[k].id) {
                Some(n) => GlyphData { id: n, ..g[k] },
                None => g[k],
            },
    )
}

/// The state after rearrangements; a range that does not lie in the buffer
/// stops the subtable.
pub open spec fn rearrangements(s: BufferState, acts: Seq<(usize, usize, u8)>) -> BufferState
    decreases acts.len(),
{
    if acts.len() == 0 || acts[0].0 > acts[0].1 || acts[0].1 > s.glyphs.len() {
        s
    } else {
        rearrangements(
            BufferState { glyphs: rearranged_glyphs(s.glyphs, acts[0].0 as int, acts[0].1 as int, acts[0].2), ..s },
            acts.skip(1),
        )
    }
}

/// The state after contextual replacements; an index past the end stops
/// the subtable.
pub open spec fn replaced(s: BufferState, acts: Seq<(usize, u16)>) -> BufferState
    decreases acts.len(),
{
    if acts.len() == 0 || acts[0].0 >= s.glyphs.len() {
        s
    } else {
        let i = acts[0].0 as int;
        replaced(BufferState { glyphs: s.glyphs.update(i, GlyphData { id: acts[0].1, ..s.glyphs[i] }), ..s }, acts.skip(1))
    }
}

/// The state after ligature formation; an index past the end stops the
/// subtable.
pub open spec fn ligatures_formed(s: BufferState, acts: Seq<LigatureAction>) -> BufferState
    decreases acts.len(),
{
    if acts.len() == 0 || acts[0].index >= s.glyphs.len() {
        s
    } else {
        ligatures_formed(ligated(s, acts[0].index as int, acts[0].id, acts[0].components@), acts.skip(1))
    }
}

/// The state after glyph insertion; an index past the end, or an insertion
/// that the buffer's length cannot hold, stops the subtable.
pub open spec fn insertions_made(s: BufferState, acts: Seq<(usize, Vec<u16>)>) -> BufferState
    decreases acts.len(),
{
    if acts.len() == 0 || acts[0].0 >= s.glyphs.len() || s.glyphs.len() + acts[0].1@.len() > usize::MAX {
        s
    } else {
        insertions_made(with_inserted(s, acts[0].0 as int, acts[0].1@), acts.skip(1))
    }
}

/// The state after one subtable run with the chain's flags: a subtable
/// whose flags share no bit with them is skipped; otherwise the buffer is
/// put in the subtable's order first.
pub open spec fn morx_step(s: BufferState, t: MorxSubtable, flags: u32) -> BufferState {
    if t.flags & flags == 0 {
        s
    } else {
        let s1 = ordered(s, reverse_for(t.descending, t.logical, s.is_rtl));
        match t.kind {
            MorxKind::Rearrangement(a) => rearrangements(s1, a@),
            MorxKind::Contextual(a) => replaced(s1, a@),
            MorxKind::NonContextual(l) => BufferState { glyphs: looked_up(s1.glyphs, l@), ..s1 },
            MorxKind::Ligature(a) => ligatures_formed(s1, a@),
            MorxKind::Insertion(a) => insertions_made(s1, a@),
        }
    }
}

pub open spec fn subtables_run(s: BufferState, subs: Seq<MorxSubtable>, flags: u32) -> BufferState
    decreases subs.len(),
{
    if subs.len() == 0 {
        s
    } else {
        subtables_run(morx_step(s, subs[0], flags), subs.skip(1), flags)
    }
}

pub open spec fn chains_run(s: BufferState, chains: Seq<MorxChain>, selectors: Seq<(u16, u16)>) -> BufferState
    decreases chains.len(),
{
    if chains.len() == 0 {
        s
    } else {
        let c = chains[0];
        let flags = feature_flags(c.default_flags, c.features@, selectors);
        chains_run(subtables_run(s, c.subtables@, flags), chains.skip(1), selectors)
    }
}

fn apply_lookup(buffer: &mut Buffer, table: &Vec<(u16, u16)>)
    requires
        old(buffer).wf(),
    ensures
        final(buffer).wf(),
        final(buffer)@ == (BufferState { glyphs: looked_up(old(buffer)@.glyphs, table@), ..old(buffer)@ }),
{
    let ghost s0 = buffer@;
    let len = buffer.len();
    let mut k: usize = 0;
    assert(looked_up(s0.glyphs, table@).take(0) + s0.glyphs.skip(0) =~= s0.glyphs);
    while k < len
        invariant
            buffer.wf(),
            len == s0.glyphs.len(),
            k <= len,
            buffer@ == (BufferState {
                glyphs: looked_up(s0.glyphs, table@).take(k as int) + s0.glyphs.skip(k as int),
                ..s0
            }),
        decreases len - k,
    {
        let g = buffer.glyphs()[k];
        assert(g == s0.glyphs[k as int]);
        if let Some(n) = lookup(table, g.id) {
            buffer.substitute(k, n);
        }
        assert(buffer@.glyphs =~= looked_up(s0.glyphs, table@).take(k + 1) + s0.glyphs.skip(k + 1));
        k = k + 1;
    }
    assert(buffer@.glyphs =~= looked_up(s0.glyphs, table@));
}

fn apply_rearrangements(buffer: &mut Buffer, acts: &Vec<(usize, usize, u8)>)
    requires
        old(buffer).wf(),
    ensures
        final(buffer).wf(),
        final(buffer)@ == rearrangements(old(buffer)@, acts@),
{
    let ghost target = rearrangements(buffer@, acts@);
    let mut n: usize = 0;
    assert(acts@.skip(0) =~= acts@);
    while n < acts.len()
        invariant
            buffer.wf(),
            n <= acts@.len(),
            target == rearrangements(buffer@, acts@.skip(n as int)),
            target == rearrangements(old(buffer)@, acts@),
        decreases acts@.len() - n,
    {
        let (start, end, verb) = acts[n];
        assert(acts@.skip(n as int).skip(1) =~= acts@.skip(n + 1));
        assert(acts@.skip(n as int)[0] == acts@[n as int]);
        if start > end || end > buffer.len() {
            assert(target == buffer@);
            return;
        }
        buffer.rearrange(start, end, verb);
        n = n + 1;
    }
}

fn apply_replacements(buffer: &mut Buffer, acts: &Vec<(usize, u16)>)
    requires
        old(buffer).wf(),
    ensures
        final(buffer).wf(),
        final(buffer)@ == replaced(old(buffer)@, acts@),
{
    let ghost target = replaced(buffer@, acts@);
    let mut n: usize = 0;
    assert(acts@.skip(0) =~= acts@);
    while n < acts.len()
        invariant
            buffer.wf(),
            n <= acts@.len(),
            target == replaced(buffer@, acts@.skip(n as int)),
            target == replaced(old(buffer)@, acts@),
        decreases acts@.len() - n,
    {
        let (i, g) = acts[n];
        assert(acts@.skip(n as int).skip(1) =~= acts@.skip(n + 1));
        assert(acts@.skip(n as int)[0] == acts@[n as int]);
        if i >= buffer.len() {
            assert(target == buffer@);
            return;
        }
        buffer.substitute(i, g);
        n = n + 1;
    }
}

fn apply_ligatures(buffer: &mut Buffer, acts: &Vec<LigatureAction>)
    requires
        old(buffer).wf(),
    ensures
        final(buffer).wf(),
        final(buffer)@ == ligatures_formed(old(buffer)@, acts@),
{
    let ghost target = ligatures_formed(buffer@, acts@);
    let mut n: usize = 0;
    assert(acts@.skip(0) =~= acts@);
    while n < acts.len()
        invariant
            buffer.wf(),
            n <= acts@.len(),
            target == ligatures_formed(buffer@, acts@.skip(n as int)),
            target == ligatures_formed(old(buffer)@, acts@),
        decreases acts@.len() - n,
    {
        let a = &acts[n];
        assert(acts@.skip(n as int).skip(1) =~= acts@.skip(n + 1));
        assert(acts@.skip(n as int)[0] == acts@[n as int]);
        if a.index >= buffer.len() {
            assert(target == buffer@);
            return;
        }
        buffer.substitute_ligature(a.index, a.id, &a.components);
        n = n + 1;
    }
}

fn apply_insertions(buffer: &mut Buffer, acts: &Vec<(usize, Vec<u16>)>)
    requires
        old(buffer).wf(),
    ensures
        final(buffer).wf(),
        final(buffer)@ == insertions_made(old(buffer)@, acts@),
{
    let ghost target = insertions_made(buffer@, acts@);
    let mut n: usize = 0;
    assert(acts@.skip(0) =~= acts@);
    while n < acts.len()
        invariant
            buffer.wf(),
            n <= acts@.len(),
            target == insertions_made(buffer@, acts@.skip(n as int)),
            target == insertions_made(old(buffer)@, acts@),
        decreases acts@.len() - n,
    {
        let a = &acts[n];
        assert(acts@.skip(n as int).skip(1) =~= acts@.skip(n + 1));
        assert(acts@.skip(n as int)[0] == acts@[n as int]);
        let len = buffer.len();
        if a.0 >= len || a.1.len() > usize::MAX - len {
            assert(target == buffer@);
            return;
        }
        buffer.insert(a.0, &a.1);
        n = n + 1;
    }
}

/// Runs one subtable with the chain's effective flags.
pub fn apply_subtable(buffer: &mut Buffer, t: &MorxSubtable, flags: u32)
    requires
        old(buffer).wf(),
    ensures
        final(buffer).wf(),
        final(buffer)@ == morx_step(old(buffer)@, *t, flags),
{
    if t.flags & flags == 0 {
        return;
    }
    let reverse = should_reverse(t.descending, t.logical, buffer.is_rtl());
    buffer.ensure_order(reverse);
    match &t.kind {
        MorxKind::Rearrangement(a) => apply_rearrangements(buffer, a),
        MorxKind::Contextual(a) => apply_replacements(buffer, a),
        MorxKind::NonContextual(l) => apply_lookup(buffer, l),
        MorxKind::Ligature(a) => apply_ligatures(buffer, a),
        MorxKind::Insertion(a) => apply_insertions(buffer, a),
    }
}

/// Runs the subtables of a chain in order with the chain's effective flags.
pub fn apply_chain(buffer: &mut Buffer, chain: &MorxChain, selectors: &Vec<(u16, u16)>)
    requires
        old(buffer).wf(),
    ensures
        final(buffer).wf(),
        final(buffer)@ == subtables_run(
            old(buffer)@,
            chain.subtables@,
            feature_flags(chain.default_flags, chain.features@, selectors@),
        ),
{
    let flags = chain_flags(chain, selectors);
    let ghost target = subtables_run(buffer@, chain.subtables@, flags);
    let mut n: usize = 0;
    assert(chain.subtables@.skip(0) =~= chain.subtables@);
    while n < chain.subtables.len()
        invariant
            buffer.wf(),
            n <= chain.subtables@.len(),
            target == subtables_run(buffer@, chain.subtables@.skip(n as int), flags),
            target == subtables_run(old(buffer)@, chain.subtables@, flags),
        decreases chain.subtables@.len() - n,
    {
        assert(chain.subtables@.skip(n as int).skip(1) =~= chain.subtables@.skip(n + 1));
        assert(chain.subtables@.skip(n as int)[0] == chain.subtables@[n as int]);
        apply_subtable(buffer, &chain.subtables[n], flags);
        n = n + 1;
    }
}

/// Runs the chains of a metamorphosis table in order, then restores
/// logical order.
pub fn apply_morx(buffer: &mut Buffer, chains: &Vec<MorxChain>, selectors: &Vec<(u16, u16)>)
    requires
        old(buffer).wf(),
    ensures
        final(buffer).wf(),
        final(buffer)@ == ordered(chains_run(old(buffer)@, chains@, selectors@), false),
        forall|n: int| in_order(old(buffer)@, n) ==> #[trigger] in_order(final(buffer)@, n),
{
    let ghost target = chains_run(buffer@, chains@, selectors@);
    let mut n: usize = 0;
    assert(chains@.skip(0) =~= chains@);
    while n < chains.len()
        invariant
            buffer.wf(),
            n <= chains@.len(),
            target == chains_run(buffer@, chains@.skip(n as int), selectors@),
            target == chains_run(old(buffer)@, chains@, selectors@),
        decreases chains@.len() - n,
    {
        assert(chains@.skip(n as int).skip(1) =~= chains@.skip(n + 1));
        assert(chains@.skip(n as int)[0] == chains@[n as int]);
        apply_chain(buffer, &chains[n], selectors);
        n = n + 1;
    }
    buffer.ensure_order(false);
    proof {
        assert forall|c: int| in_order(old(buffer)@, c) implies #[trigger] in_order(buffer@, c) by {
            lemma_chains_in_order(old(buffer)@, chains@, selectors@, c);
            lemma_ordered_in_order(chains_run(old(buffer)@, chains@, selectors@), false, c);
        }
    }
}

proof fn lemma_rearrangements_in_order(s: BufferState, acts: Seq<(usize, usize, u8)>, n: int)
    requires
        in_order(s, n),
    ensures
        in_order(rearrangements(s, acts), n),
    decreases acts.len(),
{
    if acts.len() > 0 && acts[0].0 <= acts[0].1 && acts[0].1 <= s.glyphs.len() {
        lemma_rearranged_in_order(s, acts[0].0 as int, acts[0].1 as int, acts[0].2, n);
        let t = BufferState { glyphs: rearranged_glyphs(s.glyphs, acts[0].0 as int, acts[0].1 as int, acts[0].2), ..s };
        lemma_rearrangements_in_order(t, acts.skip(1), n);
    }
}

proof fn lemma_replaced_in_order(s: BufferState, acts: Seq<(usize, u16)>, n: int)
    requires
        in_order(s, n),
    ensures
        in_order(replaced(s, acts), n),
    decreases acts.len(),
{
    if acts.len() > 0 && acts[0].0 < s.glyphs.len() {
        let i = acts[0].0 as int;
        let g = s.glyphs.update(i, GlyphData { id: acts[0].1, ..s.glyphs[i] });
        assert(same_clusters(s.glyphs, g));
        lemma_same_clusters_in_order(s, g, n);
        lemma_replaced_in_order(BufferState { glyphs: g, ..s }, acts.skip(1), n);
    }
}

proof fn lemma_ligatures_in_order(s: BufferState, acts: Seq<LigatureAction>, n: int)
    requires
        in_order(s, n),
    ensures
        in_order(ligatures_formed(s, acts), n),
    decreases acts.len(),
{
    if acts.len() > 0 && acts[0].index < s.glyphs.len() {
        lemma_ligated_in_order(s, acts[0].index as int, acts[0].id, acts[0].components@, n);
        lemma_ligatures_in_order(
            ligated(s, acts[0].index as int, acts[0].id, acts[0].components@),
            acts.skip(1),
            n,
        );
    }
}

proof fn lemma_insertions_in_order(s: BufferState, acts: Seq<(usize, Vec<u16>)>, n: int)
    requires
        in_order(s, n),
    ensures
        in_order(insertions_made(s, acts), n),
    decreases acts.len(),
{
    if acts.len() > 0 && acts[0].0 < s.glyphs.len() && s.glyphs.len() + acts[0].1@.len() <= usize::MAX {
        lemma_inserted_in_order(s, acts[0].0 as int, acts[0].1@, n);
        lemma_insertions_in_order(with_inserted(s, acts[0].0 as int, acts[0].1@), acts.skip(1), n);
    }
}

proof fn lemma_step_in_order(s: BufferState, t: MorxSubtable, flags: u32, n: int)
    requires
        in_order(s, n),
    ensures
        in_order(morx_step(s, t, flags), n),
{
    if t.flags & flags != 0 {
        let s1 = ordered(s, reverse_for(t.descending, t.logical, s.is_rtl));
        lemma_ordered_in_order(s, reverse_for(t.descending, t.logical, s.is_rtl), n);
        match t.kind {
            MorxKind::Rearrangement(a) => lemma_rearrangements_in_order(s1, a@, n),
            MorxKind::Contextual(a) => lemma_replaced_in_order(s1, a@, n),
            MorxKind::NonContextual(l) => {
                assert(same_clusters(s1.glyphs, looked_up(s1.glyphs, l@)));
                lemma_same_clusters_in_order(s1, looked_up(s1.glyphs, l@), n);
            },
            MorxKind::Ligature(a) => lemma_ligatures_in_order(s1, a@, n),
            MorxKind::Insertion(a) => lemma_insertions_in_order(s1, a@, n),
        }
    }
}

proof fn lemma_subtables_in_order(s: BufferState, subs: Seq<MorxSubtable>, flags: u32, n: int)
    requires
        in_order(s, n),
    ensures
        in_order(subtables_run(s, subs, flags), n),
    decreases subs.len(),
{
    if subs.len() > 0 {
        lemma_step_in_order(s, subs[0], flags, n);
        lemma_subtables_in_order(morx_step(s, subs[0], flags), subs.skip(1), flags, n);
    }
}

/// Metamorphosis keeps each cluster's glyphs in one run, the runs in
/// source order: no subtable splits or reorders clusters.
pub proof fn lemma_chains_in_order(s: BufferState, chains: Seq<MorxChain>, selectors: Seq<(u16, u16)>, n: int)
    requires
        in_order(s, n),
    ensures
        in_order(chains_run(s, chains, selectors), n),
    decreases chains.len(),
{
    if chains.len() > 0 {
        let c = chains[0];
        let flags = feature_flags(c.default_flags, c.features@, selectors);
        lemma_subtables_in_order(s, c.subtables@, flags, n);
        lemma_chains_in_order(subtables_run(s, c.subtables@, flags), chains.skip(1), selectors, n);
    }
}

/// Subtables whose flags share no bit with the chain's flags do not run: a
/// feature that clears a ligature subtable's flags leaves the glyphs as
/// they were.
pub proof fn lemma_disabled_subtables_skip(s: BufferState, subs: Seq<MorxSubtable>, flags: u32)
    requires
        forall|k: int| 0 <= k < subs.len() ==> #[trigger] subs[k].flags & flags == 0,
    ensures
        subtables_run(s, subs, flags) == s,
    decreases subs.len(),
{
    if subs.len() > 0 {
        assert(subs[0].flags & flags == 0);
        assert forall|k: int| 0 <= k < subs.skip(1).len() implies #[trigger] subs.skip(1)[k].flags & flags == 0 by {
            assert(subs.skip(1)[k] == subs[k + 1]);
        }
        lemma_disabled_subtables_skip(s, subs.skip(1), flags);
    }
}

} // verus!
