use swash::aat::{KerxKind, KerxSubtable, PairKerning};
use swash::buffer::ShapeClass;
use swash::cluster::{ClusterInfo, Glyph, GlyphCluster, SourceRange};
use swash::font::{CMAP, HHEA, HMTX};
use swash::metamorphosis::{ChainFeature, LigatureAction, MorxChain, MorxKind, MorxSubtable};
use swash::shape::{
    apply_legacy, cluster_spans, shape, ligature_components, output_glyphs, seed, shaped_clusters, CharInput, LegacyTables,
};
use swash::FontRef;

fn be16(v: &mut Vec<u8>, x: u16) {
    v.extend_from_slice(&x.to_be_bytes());
}

fn be32(v: &mut Vec<u8>, x: u32) {
    v.extend_from_slice(&x.to_be_bytes());
}

/// A font mapping 'a'..='z' to glyphs 1..=26, with advance 100 * glyph.
fn simple_font() -> Vec<u8> {
    let mut cmap = Vec::new();
    be16(&mut cmap, 0);
    be16(&mut cmap, 1);
    be16(&mut cmap, 0);
    be16(&mut cmap, 4);
    be32(&mut cmap, 12);
    be16(&mut cmap, 12);
    be16(&mut cmap, 0);
    be32(&mut cmap, 28);
    be32(&mut cmap, 0);
    be32(&mut cmap, 1);
    be32(&mut cmap, 'a' as u32);
    be32(&mut cmap, 'z' as u32);
    be32(&mut cmap, 1);
    let mut hhea = vec![0u8; 36];
    hhea[34..36].copy_from_slice(&27u16.to_be_bytes());
    let mut hmtx = Vec::new();
    for g in 0..27u16 {
        be16(&mut hmtx, 100 * g);
        be16(&mut hmtx, 0);
    }
    let tables = [(CMAP, cmap), (HHEA, hhea), (HMTX, hmtx)];
    let mut v = Vec::new();
    be32(&mut v, 0x0001_0000);
    be16(&mut v, tables.len() as u16);
    be16(&mut v, 0);
    be16(&mut v, 0);
    be16(&mut v, 0);
    let mut offset = 12 + 16 * tables.len() as u32;
    for (tag, data) in &tables {
        be32(&mut v, *tag);
        be32(&mut v, 0);
        be32(&mut v, offset);
        be32(&mut v, data.len() as u32);
        offset += data.len() as u32;
    }
    for (_, data) in &tables {
        v.extend_from_slice(data);
    }
    v
}

fn chars(s: &str) -> Vec<CharInput> {
    s.chars()
        .enumerate()
        .map(|(i, c)| CharInput {
            codepoint: c as u32,
            class: if c.is_control() { ShapeClass::Control } else { ShapeClass::Base },
            joining_type: 0,
            data: i as u32,
        })
        .collect()
}

#[test]
fn empty_input_gives_nothing() {
    let data = simple_font();
    let font = FontRef::new(&data, 0, 1);
    let input = chars("");
    let b = seed(&input, &font.charmap(), &font.glyph_metrics(&[]), false);
    assert_eq!(b.len(), 0);
    assert!(cluster_spans(&b, &input).is_empty());
    assert!(output_glyphs(&b).is_empty());
}

#[test]
fn unmapped_codepoint_gives_notdef() {
    let data = simple_font();
    let font = FontRef::new(&data, 0, 1);
    let input = chars("Q");
    let b = seed(&input, &font.charmap(), &font.glyph_metrics(&[]), false);
    let spans = cluster_spans(&b, &input);
    assert_eq!(spans.len(), 1);
    assert_eq!((spans[0].glyph_start, spans[0].glyph_end), (0, 1));
    assert_eq!(output_glyphs(&b)[0].id, 0);
}

#[test]
fn ascii_pass_through() {
    let data = simple_font();
    let font = FontRef::new(&data, 0, 1);
    let input = chars("ab");
    let b = seed(&input, &font.charmap(), &font.glyph_metrics(&[]), false);
    let spans = cluster_spans(&b, &input);
    assert_eq!(spans.len(), 2);
    assert_eq!(spans[0].source, SourceRange { start: 0, end: 1 });
    assert_eq!(spans[1].source, SourceRange { start: 1, end: 2 });
    assert_eq!((spans[0].glyph_start, spans[0].glyph_end), (0, 1));
    assert_eq!((spans[1].glyph_start, spans[1].glyph_end), (1, 2));
    let glyphs = output_glyphs(&b);
    assert_eq!(glyphs.iter().map(|g| (g.id, g.advance)).collect::<Vec<_>>(), vec![(1, 100), (2, 200)]);
}

#[test]
fn identity_shaping_one_glyph_per_codepoint() {
    let data = simple_font();
    let font = FontRef::new(&data, 0, 1);
    let input = chars("shape");
    let b = seed(&input, &font.charmap(), &font.glyph_metrics(&[]), false);
    let spans = cluster_spans(&b, &input);
    let total: u32 = spans.iter().map(|s| s.source.end - s.source.start).sum();
    assert_eq!(total, 5);
    let glyphs = output_glyphs(&b);
    assert_eq!(glyphs.len(), 5);
    assert_eq!(glyphs[0].advance, 1900);
    for w in spans.windows(2) {
        assert_eq!(w[0].glyph_end, w[1].glyph_start);
    }
}

#[test]
fn control_characters_get_empty_clusters() {
    let data = simple_font();
    let font = FontRef::new(&data, 0, 1);
    let input = chars("a\nb");
    let b = seed(&input, &font.charmap(), &font.glyph_metrics(&[]), false);
    let spans = cluster_spans(&b, &input);
    assert_eq!(spans.len(), 3);
    assert_eq!(spans[1].glyph_start, spans[1].glyph_end);
    assert_eq!(spans[1].data, 1);
    assert_eq!(b.len(), 2);
}

#[test]
fn cluster_predicates_and_advance() {
    let glyphs = [
        Glyph { id: 1, x: 0, y: 0, advance: 300, data: 0 },
        Glyph { id: 2, x: 0, y: 0, advance: -20, data: 0 },
    ];
    let comps = [SourceRange { start: 0, end: 1 }, SourceRange { start: 1, end: 2 }];
    let c = GlyphCluster { source: SourceRange { start: 0, end: 2 }, info: ClusterInfo { script: 0, whitespace: false, emoji: false }, glyphs: &glyphs, components: &comps, data: 0 };
    assert!(!c.is_empty());
    assert!(!c.is_simple());
    assert!(c.is_complex());
    assert!(c.is_ligature());
    assert_eq!(c.advance(), 280);
    let e = GlyphCluster { source: SourceRange { start: 2, end: 3 }, info: ClusterInfo { script: 0, whitespace: true, emoji: false }, glyphs: &[], components: &[], data: 0 };
    assert!(e.is_empty());
    assert!(!e.is_ligature());
    assert_eq!(e.advance(), 0);
}

#[test]
fn legacy_engine_without_tables_is_identity() {
    let data = simple_font();
    let font = FontRef::new(&data, 0, 1);
    let input = chars("abc");
    let mut b = seed(&input, &font.charmap(), &font.glyph_metrics(&[]), false);
    let tables = LegacyTables { morx: vec![], kerx: None, kern: vec![] };
    apply_legacy(&mut b, &tables, &vec![], false);
    let glyphs = output_glyphs(&b);
    assert_eq!(glyphs.iter().map(|g| (g.id, g.advance)).collect::<Vec<_>>(), vec![(1, 100), (2, 200), (3, 300)]);
}

#[test]
fn legacy_engine_runs_morx_then_kerx() {
    let data = simple_font();
    let font = FontRef::new(&data, 0, 1);
    let input = chars("ab");
    let mut b = seed(&input, &font.charmap(), &font.glyph_metrics(&[]), false);
    let chain = MorxChain {
        default_flags: 1,
        features: vec![],
        subtables: vec![MorxSubtable { descending: false, logical: true, flags: 1, kind: MorxKind::NonContextual(vec![(1, 5)]) }],
    };
    let kerx = vec![KerxSubtable {
        vertical: false,
        cross_stream: false,
        descending: false,
        kind: KerxKind::Format0(PairKerning::Pairs(vec![(5, 2, -25), (1, 2, -99)])),
    }];
    let tables = LegacyTables { morx: vec![chain], kerx: Some(kerx), kern: vec![] };
    apply_legacy(&mut b, &tables, &vec![], false);
    let glyphs = output_glyphs(&b);
    assert_eq!(glyphs.iter().map(|g| (g.id, g.advance)).collect::<Vec<_>>(), vec![(5, 75), (2, 200)]);
}

fn ffi_tables() -> LegacyTables {
    // glyphs: f = 6, i = 9; the ligature is glyph 27
    let chain = MorxChain {
        default_flags: 0,
        features: vec![
            ChainFeature { selector: 1, setting: 2, enable_flags: 1, disable_flags: 0 },
            ChainFeature { selector: 1, setting: 3, enable_flags: 0, disable_flags: 1 },
        ],
        subtables: vec![MorxSubtable {
            descending: false,
            logical: true,
            flags: 1,
            kind: MorxKind::Ligature(vec![LigatureAction { index: 0, id: 27, components: vec![0, 1, 2] }]),
        }],
    };
    LegacyTables { morx: vec![chain], kerx: None, kern: vec![] }
}

#[test]
fn latin_ligature_gives_one_cluster() {
    let data = simple_font();
    let font = FontRef::new(&data, 0, 1);
    let input = chars("ffi");
    let mut b = seed(&input, &font.charmap(), &font.glyph_metrics(&[]), false);
    apply_legacy(&mut b, &ffi_tables(), &vec![(1, 2)], false);
    let clusters = shaped_clusters(&b, &input);
    assert_eq!(clusters.len(), 1);
    assert_eq!(clusters[0].source, SourceRange { start: 0, end: 3 });
    assert_eq!((clusters[0].glyph_start, clusters[0].glyph_end), (0, 1));
    assert_eq!(output_glyphs(&b)[0].id, 27);
    assert_eq!(
        ligature_components(&b, 0),
        vec![SourceRange { start: 0, end: 1 }, SourceRange { start: 1, end: 2 }, SourceRange { start: 2, end: 3 }]
    );
}

#[test]
fn ligature_off_gives_three_clusters() {
    let data = simple_font();
    let font = FontRef::new(&data, 0, 1);
    let input = chars("ffi");
    let mut b = seed(&input, &font.charmap(), &font.glyph_metrics(&[]), false);
    apply_legacy(&mut b, &ffi_tables(), &vec![(1, 3)], false);
    let clusters = shaped_clusters(&b, &input);
    assert_eq!(clusters.len(), 3);
    for (k, c) in clusters.iter().enumerate() {
        assert_eq!(c.source, SourceRange { start: k as u32, end: k as u32 + 1 });
        assert_eq!((c.glyph_start, c.glyph_end), (k, k + 1));
    }
    assert_eq!(output_glyphs(&b).iter().map(|g| g.id).collect::<Vec<_>>(), vec![6, 6, 9]);
    assert!(ligature_components(&b, 0).is_empty());
}

#[test]
fn clusters_tile_input_with_controls() {
    let data = simple_font();
    let font = FontRef::new(&data, 0, 1);
    let input = chars("a\r\nb");
    let b = seed(&input, &font.charmap(), &font.glyph_metrics(&[]), false);
    let clusters = shaped_clusters(&b, &input);
    let total: u32 = clusters.iter().map(|c| c.source.end - c.source.start).sum();
    assert_eq!(total, 4);
    assert_eq!(clusters[1].glyph_start, clusters[1].glyph_end);
    assert_eq!(clusters[2].glyph_start, clusters[2].glyph_end);
    assert_eq!(clusters[3].glyph_end, 2);
}

#[test]
fn shape_runs_whole_pipeline() {
    let data = simple_font();
    let font = FontRef::new(&data, 0, 1);
    let input = chars("ffia");
    let (b, clusters) = shape(&input, &font.charmap(), &font.glyph_metrics(&[]), false, &ffi_tables(), &vec![(1, 2)], false);
    assert_eq!(clusters.len(), 2);
    assert_eq!(clusters[0].source, SourceRange { start: 0, end: 3 });
    assert_eq!(clusters[1].source, SourceRange { start: 3, end: 4 });
    assert_eq!((clusters[1].glyph_start, clusters[1].glyph_end), (1, 2));
    assert_eq!(output_glyphs(&b).iter().map(|g| (g.id, g.advance)).collect::<Vec<_>>(), vec![(27, 600), (1, 100)]);
}

#[test]
fn shape_empty_input() {
    let data = simple_font();
    let font = FontRef::new(&data, 0, 1);
    let (b, clusters) = shape(&chars(""), &font.charmap(), &font.glyph_metrics(&[]), false, &ffi_tables(), &vec![(1, 2)], false);
    assert_eq!(b.len(), 0);
    assert!(clusters.is_empty());
}

#[test]
fn shape_ab_pass_through() {
    let data = simple_font();
    let font = FontRef::new(&data, 0, 1);
    let input = chars("ab");
    let tables = LegacyTables { morx: vec![], kerx: None, kern: vec![] };
    let (b, clusters) = shape(&input, &font.charmap(), &font.glyph_metrics(&[]), false, &tables, &vec![], false);
    assert_eq!(clusters.len(), 2);
    for (k, c) in clusters.iter().enumerate() {
        assert_eq!(c.source, SourceRange { start: k as u32, end: k as u32 + 1 });
        assert_eq!(c.glyph_end - c.glyph_start, 1);
    }
    let gm = font.glyph_metrics(&[]);
    let glyphs = output_glyphs(&b);
    assert_eq!(glyphs[0].advance, gm.advance_width(font.charmap().map('a' as u32)) as i32);
    assert_eq!(glyphs[1].advance, gm.advance_width(font.charmap().map('b' as u32)) as i32);
}
