use swash::aat::{
    apply_kern, apply_kerx, decode_kern_pairs, decode_kern_subtable, find_base, kern_pairs, KernKind, KernSubtable, KerxKind, KerxSubtable,
    PairKerning,
};
use swash::buffer::{Buffer, GlyphData, PositionData, ShapeClass, MARK_ATTACH};
use swash::cluster::SourceRange;
use swash::shape::ligature_components;
use swash::metamorphosis::{
    apply_morx, chain_flags, ChainFeature, LigatureAction, MorxChain, MorxKind, MorxSubtable,
};

fn glyph(id: u16, cluster: u32, class: ShapeClass) -> GlyphData {
    let joining_type = if class == ShapeClass::Mark { 6 } else { 0 };
    GlyphData { id, cluster, joining_type, char_class: class, flags: 3, data: cluster * 10 }
}

fn pos(advance: i32) -> PositionData {
    PositionData { advance, x: 0, y: 0, base: 0, flags: 0 }
}

fn buffer_of(ids: &[u16], rtl: bool) -> Buffer {
    let mut b = Buffer::new(rtl);
    for (i, id) in ids.iter().enumerate() {
        b.push(glyph(*id, i as u32, ShapeClass::Base), pos(100 * (i as i32 + 1)));
    }
    b
}

fn ids(b: &Buffer) -> Vec<u16> {
    b.glyphs().iter().map(|g| g.id).collect()
}

fn advances(b: &Buffer) -> Vec<i32> {
    b.positions().iter().map(|p| p.advance).collect()
}

#[test]
fn ensure_order_twice_is_once() {
    let mut a = buffer_of(&[1, 2, 3], false);
    a.ensure_order(true);
    let once = ids(&a);
    a.ensure_order(true);
    assert_eq!(ids(&a), once);
    assert_eq!(once, vec![3, 2, 1]);
    assert_eq!(advances(&a), vec![300, 200, 100]);
    assert!(a.is_reversed());
}

#[test]
fn ensure_order_round_trip_restores_sequence() {
    let mut a = buffer_of(&[4, 5, 6, 7], false);
    a.ensure_order(true);
    a.ensure_order(false);
    assert_eq!(ids(&a), vec![4, 5, 6, 7]);
    assert_eq!(advances(&a), vec![100, 200, 300, 400]);
    assert!(!a.is_reversed());
}

#[test]
fn lengths_stay_equal_after_each_operation() {
    let mut b = buffer_of(&[1, 2, 3, 4], false);
    b.substitute(1, 9);
    assert_eq!(b.glyphs().len(), b.positions().len());
    b.multiply(2, 2);
    assert_eq!(b.glyphs().len(), 6);
    assert_eq!(b.positions().len(), 6);
    b.substitute_ligature(0, 20, &vec![0, 1]);
    assert_eq!(b.glyphs().len(), 5);
    assert_eq!(b.positions().len(), 5);
    b.insert(0, &vec![7]);
    assert_eq!(b.glyphs().len(), b.positions().len());
}

#[test]
fn substitute_keeps_position() {
    let mut b = buffer_of(&[1, 2], false);
    b.substitute(1, 42);
    assert_eq!(ids(&b), vec![1, 42]);
    assert_eq!(advances(&b), vec![100, 200]);
    assert_eq!(b.glyphs()[1].cluster, 1);
}

#[test]
fn multiply_inserts_cleared_copies() {
    let mut b = buffer_of(&[1, 2, 3], false);
    b.multiply(1, 2);
    assert_eq!(ids(&b), vec![1, 2, 2, 2, 3]);
    assert_eq!(b.glyphs()[1].flags, 0);
    assert_eq!(b.glyphs()[2].flags, 0);
    assert_eq!(b.glyphs()[3].flags, 3);
    assert_eq!(b.glyphs()[1].cluster, 1);
    assert_eq!(advances(&b), vec![100, 200, 200, 200, 300]);
}

#[test]
fn insert_fills_new_slots() {
    let mut b = buffer_of(&[1, 2], false);
    b.insert(1, &vec![8, 9]);
    assert_eq!(ids(&b), vec![1, 8, 9, 2]);
    assert_eq!(b.glyphs()[1].flags, 0);
    assert_eq!(b.glyphs()[2].cluster, 1);
}

#[test]
fn ligature_removes_merged_glyphs() {
    let mut b = buffer_of(&[1, 2, 3, 4], false);
    b.substitute_ligature(1, 50, &vec![1, 2, 3]);
    assert_eq!(ids(&b), vec![1, 50]);
    assert_eq!(advances(&b), vec![100, 200]);
}

#[test]
fn position_mark_records_distance() {
    let mut b = buffer_of(&[1, 2, 3], false);
    b.position_mark(2, 0, 5, -7);
    let p = b.positions()[2];
    assert_eq!(p.base, 2);
    assert_eq!((p.x, p.y), (5, -7));
    assert_eq!(p.flags & MARK_ATTACH, MARK_ATTACH);
    assert!(b.has_marks());
}

#[test]
fn add_advance_saturates() {
    let mut b = Buffer::new(false);
    b.push(glyph(1, 0, ShapeClass::Base), pos(i32::MAX - 1));
    b.add_advance(0, 10);
    assert_eq!(b.positions()[0].advance, i32::MAX);
}

#[test]
fn pair_kerning_skips_marks() {
    let mut b = Buffer::new(false);
    b.push(glyph(1, 0, ShapeClass::Base), pos(100));
    b.push(glyph(9, 0, ShapeClass::Mark), pos(0));
    b.push(glyph(2, 1, ShapeClass::Base), pos(100));
    b.push(glyph(3, 2, ShapeClass::Base), pos(100));
    let t = PairKerning::Pairs(vec![(1, 2, -30), (2, 3, 15), (1, 9, 99)]);
    kern_pairs(&mut b, &t);
    assert_eq!(advances(&b), vec![70, 0, 115, 100]);
}

#[test]
fn class_kerning_reads_value_matrix() {
    let t = PairKerning::Classes { left: vec![0, 1], right: vec![0, 0, 1], columns: 2, values: vec![0, 0, 0, -40] };
    assert_eq!(t.get(1, 2), Some(-40));
    assert_eq!(t.get(0, 2), Some(0));
    assert_eq!(t.get(5, 5), Some(0));
    let short = PairKerning::Classes { left: vec![3], right: vec![], columns: 2, values: vec![1] };
    assert_eq!(short.get(0, 0), None);
}

#[test]
fn kerx_contextual_kerning_adds_to_left_glyph() {
    // "AV": the state machine yields a kerning of -80 at the A
    let mut b = buffer_of(&[36, 57], false);
    let subs = vec![KerxSubtable { vertical: false, cross_stream: false, descending: false, kind: KerxKind::Format1(vec![(0, -80)]) }];
    apply_kerx(&mut b, &subs, false);
    assert_eq!(advances(&b), vec![20, 200]);
}

#[test]
fn kerx_disabled_keeps_advances() {
    let mut b = buffer_of(&[36, 57, 58], false);
    let subs = vec![
        KerxSubtable { vertical: false, cross_stream: false, descending: false, kind: KerxKind::Format0(PairKerning::Pairs(vec![(36, 57, -50)])) },
        KerxSubtable { vertical: false, cross_stream: false, descending: true, kind: KerxKind::Format1(vec![(1, 30)]) },
        KerxSubtable { vertical: false, cross_stream: false, descending: false, kind: KerxKind::Format4(vec![(2, 1, 4, 5)]) },
    ];
    apply_kerx(&mut b, &subs, true);
    assert_eq!(advances(&b), vec![100, 200, 300]);
    assert_eq!(b.positions()[2].flags & MARK_ATTACH, MARK_ATTACH);
    assert_eq!(b.positions()[2].base, 1);
    apply_kerx(&mut b, &subs, false);
    assert_eq!(advances(&b), vec![50, 230, 300]);
}

#[test]
fn kerx_skips_vertical_and_stops_at_bad_index() {
    let mut b = buffer_of(&[1, 2], false);
    let subs = vec![
        KerxSubtable { vertical: true, cross_stream: false, descending: false, kind: KerxKind::Format1(vec![(0, 5)]) },
        KerxSubtable { vertical: false, cross_stream: false, descending: false, kind: KerxKind::Format1(vec![(1, 5), (7, 5), (0, 5)]) },
    ];
    apply_kerx(&mut b, &subs, false);
    assert_eq!(advances(&b), vec![100, 205]);
}

#[test]
fn kern_format1_attaches_mark_to_base() {
    // "à": base a then combining grave in one cluster
    let mut b = Buffer::new(false);
    b.push(glyph(68, 0, ShapeClass::Base), pos(500));
    b.push(glyph(200, 0, ShapeClass::Mark), pos(0));
    let subs = vec![KernSubtable { horizontal: true, cross_stream: false, kind: KernKind::Format1(vec![(1, -250)]) }];
    apply_kern(&mut b, &subs);
    assert_eq!(b.glyphs().len(), 2);
    let p = b.positions()[1];
    assert_eq!(p.flags & MARK_ATTACH, MARK_ATTACH);
    assert_eq!(p.base, 1);
    assert_eq!(p.x, -250);
    assert!(b.has_marks());
}

#[test]
fn kern_format1_cross_stream_sets_y_once() {
    let mut b = Buffer::new(false);
    b.push(glyph(68, 0, ShapeClass::Base), pos(500));
    b.push(glyph(200, 0, ShapeClass::Mark), pos(0));
    let subs = vec![KernSubtable { horizontal: true, cross_stream: true, kind: KernKind::Format1(vec![(1, 40), (1, 90), (0, 70)]) }];
    apply_kern(&mut b, &subs);
    assert_eq!(b.positions()[1].y, 40);
    assert_eq!(b.positions()[0].y, 0);
    assert!(!b.has_marks());
}

#[test]
fn kern_format0_runs_in_logical_order() {
    let mut b = buffer_of(&[1, 2], true);
    let subs = vec![
        KernSubtable { horizontal: true, cross_stream: false, kind: KernKind::Format0(PairKerning::Pairs(vec![(1, 2, -10)])) },
        KernSubtable { horizontal: false, cross_stream: false, kind: KernKind::Format0(PairKerning::Pairs(vec![(1, 2, -99)])) },
    ];
    apply_kern(&mut b, &subs);
    assert_eq!(advances(&b), vec![90, 200]);
    assert!(!b.is_reversed());
}

#[test]
fn find_base_stays_in_cluster() {
    let mut b = Buffer::new(false);
    b.push(glyph(1, 0, ShapeClass::Base), pos(1));
    b.push(glyph(2, 1, ShapeClass::Base), pos(1));
    b.push(glyph(3, 1, ShapeClass::Mark), pos(1));
    b.push(glyph(4, 1, ShapeClass::Mark), pos(1));
    b.push(glyph(5, 2, ShapeClass::Base), pos(1));
    assert_eq!(find_base(&b, false, 3), Some(1));
    assert_eq!(find_base(&b, true, 2), None);
    assert_eq!(find_base(&b, false, 1), None);
    assert_eq!(find_base(&b, false, 0), None);
}

const LIGATURES: u16 = 1;
const COMMON_ON: u16 = 2;
const COMMON_OFF: u16 = 3;

fn ffi_chain() -> MorxChain {
    MorxChain {
        default_flags: 1,
        features: vec![
            ChainFeature { selector: LIGATURES, setting: COMMON_ON, enable_flags: 1, disable_flags: 0 },
            ChainFeature { selector: LIGATURES, setting: COMMON_OFF, enable_flags: 0, disable_flags: 1 },
        ],
        subtables: vec![MorxSubtable {
            descending: false,
            logical: true,
            flags: 1,
            kind: MorxKind::Ligature(vec![LigatureAction { index: 0, id: 300, components: vec![0, 1, 2] }]),
        }],
    }
}

#[test]
fn morx_forms_ffi_ligature() {
    let mut b = buffer_of(&[73, 73, 76], false);
    apply_morx(&mut b, &vec![ffi_chain()], &vec![(LIGATURES, COMMON_ON)]);
    assert_eq!(ids(&b), vec![300]);
    assert_eq!(b.glyphs()[0].cluster, 0);
    assert_eq!(
        ligature_components(&b, 0),
        vec![SourceRange { start: 0, end: 1 }, SourceRange { start: 1, end: 2 }, SourceRange { start: 2, end: 3 }]
    );
    assert!(ligature_components(&b, 1).is_empty());
}

#[test]
fn plain_glyphs_have_no_components() {
    let mut b = buffer_of(&[73, 73, 76], false);
    apply_morx(&mut b, &vec![ffi_chain()], &vec![(LIGATURES, COMMON_OFF)]);
    assert!(b.merged().is_empty());
    assert!(ligature_components(&b, 0).is_empty());
}

#[test]
fn morx_feature_off_keeps_glyphs() {
    let mut b = buffer_of(&[73, 73, 76], false);
    apply_morx(&mut b, &vec![ffi_chain()], &vec![(LIGATURES, COMMON_OFF)]);
    assert_eq!(ids(&b), vec![73, 73, 76]);
    assert_eq!(chain_flags(&ffi_chain(), &vec![(LIGATURES, COMMON_OFF)]), 0);
    assert_eq!(chain_flags(&ffi_chain(), &vec![]), 1);
}

#[test]
fn morx_rtl_subtable_runs_reversed_then_restores() {
    // alif, space, bah in a right-to-left run; the subtable runs in visual order
    let mut b = buffer_of(&[10, 3, 20], true);
    let chain = MorxChain {
        default_flags: 1,
        features: vec![],
        subtables: vec![MorxSubtable {
            descending: false,
            logical: false,
            flags: 1,
            // index 0 of the reversed buffer is the bah
            kind: MorxKind::Contextual(vec![(0, 21)]),
        }],
    };
    apply_morx(&mut b, &vec![chain], &vec![]);
    assert_eq!(ids(&b), vec![10, 3, 21]);
    assert!(!b.is_reversed());
}

#[test]
fn morx_noncontextual_and_insertion() {
    let mut b = buffer_of(&[1, 2, 1], false);
    let chain = MorxChain {
        default_flags: 3,
        features: vec![],
        subtables: vec![
            MorxSubtable { descending: false, logical: true, flags: 1, kind: MorxKind::NonContextual(vec![(1, 11), (1, 12)]) },
            MorxSubtable { descending: false, logical: true, flags: 2, kind: MorxKind::Insertion(vec![(1, vec![40, 41])]) },
            MorxSubtable { descending: false, logical: true, flags: 4, kind: MorxKind::NonContextual(vec![(11, 99)]) },
        ],
    };
    apply_morx(&mut b, &vec![chain], &vec![]);
    assert_eq!(ids(&b), vec![11, 40, 41, 2, 11]);
}

#[test]
fn morx_rearrangement_moves_marked_groups() {
    let mut b = buffer_of(&[1, 2, 3, 4, 5], false);
    b.rearrange(0, 5, 15);
    // ABxCD -> DCxBA
    assert_eq!(ids(&b), vec![5, 4, 3, 2, 1]);
    assert_eq!(advances(&b), vec![100, 200, 300, 400, 500]);
    let mut c = buffer_of(&[1, 2, 3, 4], false);
    let chain = MorxChain {
        default_flags: 1,
        features: vec![],
        subtables: vec![MorxSubtable {
            descending: false,
            logical: true,
            flags: 1,
            // Ax -> xA on 1..3, then AxD -> DxA on 0..4; a range past the end stops
            kind: MorxKind::Rearrangement(vec![(1, 3, 1), (0, 4, 3), (2, 9, 1), (0, 2, 1)]),
        }],
    };
    apply_morx(&mut c, &vec![chain], &vec![]);
    assert_eq!(ids(&c), vec![4, 3, 2, 1]);
}

#[test]
fn rearrangement_of_short_range_is_no_op() {
    let mut b = buffer_of(&[1, 2, 3], false);
    b.rearrange(0, 2, 12);
    assert_eq!(ids(&b), vec![1, 2, 3]);
    b.rearrange(0, 2, 0);
    assert_eq!(ids(&b), vec![1, 2, 3]);
}

#[test]
fn feature_disable_matches_plain_shaping() {
    // common ligatures off: three glyphs stay, one per character
    let mut b = buffer_of(&[73, 73, 76], false);
    apply_morx(&mut b, &vec![ffi_chain()], &vec![(LIGATURES, COMMON_OFF)]);
    let plain = buffer_of(&[73, 73, 76], false);
    assert_eq!(ids(&b), ids(&plain));
    assert_eq!(advances(&b), advances(&plain));
    let clusters: Vec<u32> = b.glyphs().iter().map(|g| g.cluster).collect();
    assert_eq!(clusters, vec![0, 1, 2]);
}

#[test]
fn rearrangement_merges_clusters_of_marked_range() {
    let mut b = Buffer::new(false);
    b.push(glyph(1, 0, ShapeClass::Base), pos(1));
    b.push(glyph(2, 0, ShapeClass::Base), pos(1));
    b.push(glyph(3, 1, ShapeClass::Base), pos(1));
    b.push(glyph(4, 1, ShapeClass::Base), pos(1));
    let chain = MorxChain {
        default_flags: 1,
        features: vec![],
        subtables: vec![MorxSubtable { descending: false, logical: true, flags: 1, kind: MorxKind::Rearrangement(vec![(1, 3, 1)]) }],
    };
    apply_morx(&mut b, &vec![chain], &vec![]);
    assert_eq!(ids(&b), vec![1, 3, 2, 4]);
    let clusters: Vec<u32> = b.glyphs().iter().map(|g| g.cluster).collect();
    assert_eq!(clusters, vec![0, 0, 0, 1]);
}

fn kern_table(coverage: u16, pairs: &[(u16, u16, i16)]) -> Vec<u8> {
    let mut v = Vec::new();
    v.extend_from_slice(&0u16.to_be_bytes());
    v.extend_from_slice(&1u16.to_be_bytes());
    v.extend_from_slice(&0u16.to_be_bytes());
    v.extend_from_slice(&((14 + 6 * pairs.len()) as u16).to_be_bytes());
    v.extend_from_slice(&coverage.to_be_bytes());
    v.extend_from_slice(&(pairs.len() as u16).to_be_bytes());
    v.extend_from_slice(&[0u8; 6]);
    for (l, r, k) in pairs {
        v.extend_from_slice(&l.to_be_bytes());
        v.extend_from_slice(&r.to_be_bytes());
        v.extend_from_slice(&k.to_be_bytes());
    }
    v
}

#[test]
fn kern_format0_decoded_from_bytes() {
    let data = kern_table(0x0001, &[(36, 57, -80), (57, 36, -60)]);
    let sub = decode_kern_subtable(&data, 4).unwrap();
    assert!(sub.horizontal);
    assert!(!sub.cross_stream);
    let mut b = buffer_of(&[36, 57, 36], false);
    apply_kern(&mut b, &vec![sub]);
    assert_eq!(advances(&b), vec![20, 140, 300]);
}

#[test]
fn kern_decoding_rejects_truncated_and_other_formats() {
    let data = kern_table(0x0001, &[(36, 57, -80)]);
    assert!(decode_kern_subtable(&data[..data.len() - 1], 4).is_none());
    let other = kern_table(0x0101, &[(36, 57, -80)]);
    assert!(decode_kern_subtable(&other, 4).is_none());
    match decode_kern_pairs(&data, 10) {
        Some(PairKerning::Pairs(p)) => assert_eq!(p, vec![(36, 57, -80)]),
        _ => panic!("pairs expected"),
    }
}

#[test]
fn kerx_disabled_matches_anchor_subtables_alone() {
    let full = vec![
        KerxSubtable { vertical: false, cross_stream: false, descending: true, kind: KerxKind::Format0(PairKerning::Pairs(vec![(36, 57, -50)])) },
        KerxSubtable { vertical: false, cross_stream: false, descending: false, kind: KerxKind::Format4(vec![(2, 0, 7, 8)]) },
        KerxSubtable { vertical: false, cross_stream: false, descending: false, kind: KerxKind::Format1(vec![(0, 30)]) },
    ];
    let anchors = vec![KerxSubtable { vertical: false, cross_stream: false, descending: false, kind: KerxKind::Format4(vec![(2, 0, 7, 8)]) }];
    let mut a = buffer_of(&[36, 57, 58], false);
    let mut b = buffer_of(&[36, 57, 58], false);
    apply_kerx(&mut a, &full, true);
    apply_kerx(&mut b, &anchors, false);
    assert_eq!(a.positions(), b.positions());
    assert_eq!(ids(&a), ids(&b));
    assert_eq!(a.positions()[2].base, 2);
}
