use swash::charmap::MAX_CODEPOINT;
use swash::font::{CMAP, HEAD, HHEA, HMTX, MAXP};
use swash::{Charmap, CharmapProxy, FontRef};

fn be16(v: &mut Vec<u8>, x: u16) {
    v.extend_from_slice(&x.to_be_bytes());
}

fn be32(v: &mut Vec<u8>, x: u32) {
    v.extend_from_slice(&x.to_be_bytes());
}

fn font_bytes(tables: &[(u32, Vec<u8>)]) -> Vec<u8> {
    let mut v = Vec::new();
    be32(&mut v, 0x0001_0000);
    be16(&mut v, tables.len() as u16);
    be16(&mut v, 0);
    be16(&mut v, 0);
    be16(&mut v, 0);
    let mut offset = 12 + 16 * tables.len() as u32;
    for (tag, data) in tables {
        be32(&mut v, *tag);
        be32(&mut v, 0);
        be32(&mut v, offset);
        be32(&mut v, data.len() as u32);
        offset += data.len() as u32;
    }
    for (_, data) in tables {
        v.extend_from_slice(data);
    }
    v
}

fn cmap12(groups: &[(u32, u32, u32)]) -> Vec<u8> {
    let mut v = Vec::new();
    be16(&mut v, 0);
    be16(&mut v, 1);
    be16(&mut v, 3);
    be16(&mut v, 10);
    be32(&mut v, 12);
    be16(&mut v, 12);
    be16(&mut v, 0);
    be32(&mut v, 16 + 12 * groups.len() as u32);
    be32(&mut v, 0);
    be32(&mut v, groups.len() as u32);
    for (s, e, g) in groups {
        be32(&mut v, *s);
        be32(&mut v, *e);
        be32(&mut v, *g);
    }
    v
}

fn cmap4_symbol() -> Vec<u8> {
    let mut v = Vec::new();
    be16(&mut v, 0);
    be16(&mut v, 1);
    be16(&mut v, 3);
    be16(&mut v, 0);
    be32(&mut v, 12);
    // format 4 with two segments: U+F041..U+F05A -> 10.., and the terminator
    be16(&mut v, 4);
    be16(&mut v, 32);
    be16(&mut v, 0);
    be16(&mut v, 4);
    be16(&mut v, 4);
    be16(&mut v, 1);
    be16(&mut v, 0);
    be16(&mut v, 0xF05A);
    be16(&mut v, 0xFFFF);
    be16(&mut v, 0);
    be16(&mut v, 0xF041);
    be16(&mut v, 0xFFFF);
    be16(&mut v, 10u16.wrapping_sub(0xF041));
    be16(&mut v, 1);
    be16(&mut v, 0);
    be16(&mut v, 0);
    v
}

fn head(upem: u16) -> Vec<u8> {
    let mut v = vec![0u8; 54];
    v[18..20].copy_from_slice(&upem.to_be_bytes());
    v
}

fn maxp(n: u16) -> Vec<u8> {
    let mut v = vec![0u8; 6];
    v[4..6].copy_from_slice(&n.to_be_bytes());
    v
}

fn hhea(ascent: i16, descent: i16, gap: i16, long_metrics: u16) -> Vec<u8> {
    let mut v = vec![0u8; 36];
    v[4..6].copy_from_slice(&ascent.to_be_bytes());
    v[6..8].copy_from_slice(&descent.to_be_bytes());
    v[8..10].copy_from_slice(&gap.to_be_bytes());
    v[34..36].copy_from_slice(&long_metrics.to_be_bytes());
    v
}

fn hmtx(advances: &[u16]) -> Vec<u8> {
    let mut v = Vec::new();
    for a in advances {
        be16(&mut v, *a);
        be16(&mut v, 0);
    }
    v
}

#[test]
fn table_finds_listed_tables() {
    let data = font_bytes(&[(HEAD, head(1000)), (MAXP, maxp(5))]);
    let font = FontRef::new(&data, 0, 1);
    assert_eq!(font.table(HEAD).map(|t| t.len()), Some(54));
    assert_eq!(font.table(MAXP), Some(&maxp(5)[..]));
    assert_eq!(font.table(CMAP), None);
    assert_eq!(font.table_range(HEAD), Some((44, 98)));
}

#[test]
fn table_of_truncated_font_is_none() {
    let mut data = font_bytes(&[(HEAD, head(1000))]);
    data.truncate(40);
    let font = FontRef::new(&data, 0, 1);
    assert_eq!(font.table(HEAD), None);
}

#[test]
fn metrics_read_header_tables() {
    let data = font_bytes(&[
        (HEAD, head(2048)),
        (MAXP, maxp(4)),
        (HHEA, hhea(800, -200, 90, 2)),
        (HMTX, hmtx(&[500, 600])),
    ]);
    let font = FontRef::new(&data, 0, 7);
    let m = font.metrics(&[]);
    assert_eq!(m.units_per_em, 2048);
    assert_eq!(m.glyph_count, 4);
    assert_eq!(m.ascent, 800);
    assert_eq!(m.descent, -200);
    assert_eq!(m.leading, 90);
    let gm = font.glyph_metrics(&[]);
    assert_eq!(gm.advance_width(0), 500);
    assert_eq!(gm.advance_width(1), 600);
    // glyphs past the last long metric take its advance
    assert_eq!(gm.advance_width(3), 600);
}

#[test]
fn metrics_without_tables_are_zero() {
    let data = font_bytes(&[]);
    let font = FontRef::new(&data, 0, 7);
    let m = font.metrics(&[]);
    assert_eq!(m.units_per_em, 0);
    assert_eq!(font.glyph_metrics(&[]).advance_width(3), 0);
}

#[test]
fn charmap_format12_maps_groups() {
    let data = font_bytes(&[(CMAP, cmap12(&[(0x61, 0x63, 5), (0x1F600, 0x1F600, 40)]))]);
    let font = FontRef::new(&data, 0, 1);
    let cmap = font.charmap();
    assert_eq!(cmap.map('a' as u32), 5);
    assert_eq!(cmap.map('c' as u32), 7);
    assert_eq!(cmap.map('d' as u32), 0);
    assert_eq!(cmap.map(0x1F600), 40);
    assert_eq!(cmap.map(MAX_CODEPOINT + 1), 0);
}

#[test]
fn charmap_without_subtable_maps_to_zero() {
    let data = font_bytes(&[(HEAD, head(1000))]);
    let font = FontRef::new(&data, 0, 1);
    let cmap = Charmap::from_font(&font);
    assert_eq!(cmap.proxy(), CharmapProxy(0, 0, false));
    assert_eq!(cmap.map('a' as u32), 0);
    assert!(cmap.enumerate().is_empty());
}

#[test]
fn charmap_proxy_rematerializes() {
    let data = font_bytes(&[(CMAP, cmap12(&[(0x41, 0x5A, 3)]))]);
    let font = FontRef::new(&data, 0, 1);
    let proxy = CharmapProxy::from_font(&font);
    assert_eq!(proxy.1, 12);
    assert!(!proxy.2);
    let cmap = proxy.materialize(&font);
    assert_eq!(cmap.proxy(), proxy);
    assert_eq!(cmap.map('B' as u32), 4);
}

#[test]
fn charmap_enumerate_lists_every_mapped_codepoint() {
    let data = font_bytes(&[(CMAP, cmap12(&[(0x61, 0x62, 5), (0x70, 0x70, 0), (0x71, 0x71, 9)]))]);
    let font = FontRef::new(&data, 0, 1);
    let cmap = font.charmap();
    let all = cmap.enumerate();
    assert_eq!(all, vec![(0x61, 5), (0x62, 6), (0x71, 9)]);
    for (c, g) in &all {
        assert_eq!(cmap.map(*c), *g);
    }
}

#[test]
fn charmap_symbol_subtable_remaps_to_private_use() {
    let data = font_bytes(&[(CMAP, cmap4_symbol())]);
    let font = FontRef::new(&data, 0, 1);
    let cmap = font.charmap();
    assert_eq!(cmap.proxy().1, 4);
    assert!(cmap.proxy().2);
    assert_eq!(cmap.map(0xF041), 10);
    assert_eq!(cmap.map('A' as u32), 10);
    assert_eq!(cmap.map('C' as u32), 12);
    assert_eq!(cmap.map('a' as u32), 0);
}

fn cmap_with(records: &[(u16, u16, Vec<u8>)]) -> Vec<u8> {
    let mut v = Vec::new();
    be16(&mut v, 0);
    be16(&mut v, records.len() as u16);
    let mut offset = 4 + 8 * records.len() as u32;
    for (platform, encoding, sub) in records {
        be16(&mut v, *platform);
        be16(&mut v, *encoding);
        be32(&mut v, offset);
        offset += sub.len() as u32;
    }
    for (_, _, sub) in records {
        v.extend_from_slice(sub);
    }
    v
}

fn format0(map: &[(u8, u8)]) -> Vec<u8> {
    let mut v = Vec::new();
    be16(&mut v, 0);
    be16(&mut v, 262);
    be16(&mut v, 0);
    let mut glyphs = vec![0u8; 256];
    for (c, g) in map {
        glyphs[*c as usize] = *g;
    }
    v.extend_from_slice(&glyphs);
    v
}

fn format6(first: u16, glyphs: &[u16]) -> Vec<u8> {
    let mut v = Vec::new();
    be16(&mut v, 6);
    be16(&mut v, 10 + 2 * glyphs.len() as u16);
    be16(&mut v, 0);
    be16(&mut v, first);
    be16(&mut v, glyphs.len() as u16);
    for g in glyphs {
        be16(&mut v, *g);
    }
    v
}

fn format13(groups: &[(u32, u32, u32)]) -> Vec<u8> {
    let mut v = cmap12(groups)[12..].to_vec();
    v[0..2].copy_from_slice(&13u16.to_be_bytes());
    v
}

#[test]
fn charmap_format0_maps_bytes() {
    let data = font_bytes(&[(CMAP, cmap_with(&[(0, 3, format0(&[(0x41, 7), (0x42, 8)]))]))]);
    let font = FontRef::new(&data, 0, 1);
    let cmap = font.charmap();
    assert_eq!(cmap.proxy().1, 0);
    assert_eq!(cmap.map('A' as u32), 7);
    assert_eq!(cmap.map('C' as u32), 0);
    assert_eq!(cmap.map(0x141), 0);
    assert_eq!(cmap.enumerate(), vec![(0x41, 7), (0x42, 8)]);
}

#[test]
fn charmap_format6_maps_trimmed_range() {
    let data = font_bytes(&[(CMAP, cmap_with(&[(0, 3, format6(0x30, &[3, 0, 5]))]))]);
    let font = FontRef::new(&data, 0, 1);
    let cmap = font.charmap();
    assert_eq!(cmap.map('0' as u32), 3);
    assert_eq!(cmap.map('1' as u32), 0);
    assert_eq!(cmap.map('2' as u32), 5);
    assert_eq!(cmap.map('3' as u32), 0);
    assert_eq!(cmap.enumerate(), vec![(0x30, 3), (0x32, 5)]);
}

#[test]
fn charmap_format13_maps_groups_to_one_glyph() {
    let data = font_bytes(&[(CMAP, cmap_with(&[(0, 6, format13(&[(0x10000, 0x10002, 9)]))]))]);
    let font = FontRef::new(&data, 0, 1);
    let cmap = font.charmap();
    assert_eq!(cmap.proxy().1, 13);
    assert_eq!(cmap.map(0x10000), 9);
    assert_eq!(cmap.map(0x10002), 9);
    assert_eq!(cmap.map(0x10003), 0);
}

#[test]
fn charmap_prefers_full_coverage_subtable() {
    let full = cmap12(&[(0x41, 0x41, 30)])[12..].to_vec();
    let data = font_bytes(&[(CMAP, cmap_with(&[(0, 3, format6(0x41, &[20])), (3, 10, full), (1, 0, format0(&[(0x41, 1)]))]))]);
    let font = FontRef::new(&data, 0, 1);
    let cmap = font.charmap();
    assert_eq!(cmap.proxy().1, 12);
    assert_eq!(cmap.map('A' as u32), 30);
}

#[test]
fn charmap_format13_enumerates_groups() {
    let data = font_bytes(&[(CMAP, cmap_with(&[(0, 6, format13(&[(0x10002, 0x10003, 9), (0x41, 0x41, 4)]))]))]);
    let font = FontRef::new(&data, 0, 1);
    let cmap = font.charmap();
    assert_eq!(cmap.enumerate(), vec![(0x10002, 9), (0x10003, 9), (0x41, 4)]);
}
