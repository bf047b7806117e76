/*!
Glyph cluster modeling: output from the shaper.
*/

use vstd::prelude::*;
use crate::GlyphId;

verus! {

/// Glyph identifier and positioning, in font units, as a result of shaping.
#[derive(Copy, Clone, Debug, PartialEq, Eq, Structural)]
pub struct Glyph {
    pub id: GlyphId,
    pub x: i32,
    pub y: i32,
    pub advance: i32,
    pub data: u32,
}

/// Range `start..end` of a cluster in the source units given to the shaper.
#[derive(Copy, Clone, Debug, PartialEq, Eq, Structural)]
pub struct SourceRange {
    pub start: u32,
    pub end: u32,
}

/// Information about the textual content of a cluster.
#[derive(Copy, Clone, Debug, PartialEq, Eq, Structural)]
pub struct ClusterInfo {
    /// Script code assigned by text analysis.
    pub script: u8,
    /// The cluster is whitespace.
    pub whitespace: bool,
    /// The cluster is an emoji.
    pub emoji: bool,
}

/// Glyphs and metadata for one or more source clusters.
#[derive(Copy, Clone)]
pub struct GlyphCluster<'a> {
    /// Full source range of the cluster.
    pub source: SourceRange,
    /// What text analysis found of the cluster's content.
    pub info: ClusterInfo,
    /// The glyphs of the cluster; empty for a cluster of control characters.
    pub glyphs: &'a [Glyph],
    /// The source range of each component of a ligature; empty otherwise.
    pub components: &'a [SourceRange],
    /// User data of the first character of the cluster.
    pub data: u32,
}

/// Sum of the advances of `g`.
pub open spec fn advance_sum(g: Seq<Glyph>) -> int
    decreases g.len(),
{
    if g.len() == 0 {
        0
    } else {
        advance_sum(g.drop_last()) + g.last().advance
    }
}

proof fn lemma_advance_sum_bound(g: Seq<Glyph>)
    ensures
        -0x8000_0000 * g.len() <= advance_sum(g) <= 0x7fff_ffff * g.len(),
    decreases g.len(),
{
    if g.len() > 0 {
        lemma_advance_sum_bound(g.drop_last());
    }
}

impl<'a> GlyphCluster<'a> {
    /// Whether the cluster holds no glyph (newlines and other controls).
    pub fn is_empty(&self) -> (r: bool)
        ensures
            r == (self.glyphs@.len() == 0),
    {
        self.glyphs.len() == 0
    }

    /// Whether the cluster holds exactly one glyph.
    pub fn is_simple(&self) -> (r: bool)
        ensures
            r == (self.glyphs@.len() == 1),
    {
        self.glyphs.len() == 1
    }

    /// Whether the cluster stands for several source clusters.
    pub fn is_ligature(&self) -> (r: bool)
        ensures
            r == (self.components@.len() != 0),
    {
        self.components.len() != 0
    }

    /// Whether the cluster holds more than one glyph.
    pub fn is_complex(&self) -> (r: bool)
        ensures
            r == (self.glyphs@.len() > 1),
    {
        self.glyphs.len() > 1
    }

    /// The full advance of the cluster.
    pub fn advance(&self) -> (r: i64)
        requires
            self.glyphs@.len() <= 0x1_0000_0000,
        ensures
            r == advance_sum(self.glyphs@),
    {
        let mut sum: i64 = 0;
        let mut k: usize = 0;
        while k < self.glyphs.len()
            invariant
                k <= self.glyphs@.len() <= 0x1_0000_0000,
                sum == advance_sum(self.glyphs@.take(k as int)),
            decreases self.glyphs@.len() - k,
        {
            proof {
                assert(self.glyphs@.take(k + 1).drop_last() =~= self.glyphs@.take(k as int));
                lemma_advance_sum_bound(self.glyphs@.take(k as int));
                assert(-0x8000_0000 * k <= sum <= 0x7fff_ffff * k) by (nonlinear_arith)
                    requires
                        -0x8000_0000 * self.glyphs@.take(k as int).len() <= sum <= 0x7fff_ffff
                            * self.glyphs@.take(k as int).len(),
                        self.glyphs@.take(k as int).len() == k,
                ;
            }
            sum = sum + self.glyphs[k].advance as i64;
            k = k + 1;
        }
        assert(self.glyphs@.take(k as int) =~= self.glyphs@);
        sum
    }
}

} // verus!
