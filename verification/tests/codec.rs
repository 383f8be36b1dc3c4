use nuclear::{ByteOrder, ColorBGR555, Error, FormatType, NDSFile, ObjectInternals, ObjectShape, Section, NCGR, NCGRTiles, NCLR, NSCR, TileRef};

fn push_u16_le(out: &mut Vec<u8>, v: u16) {
    out.push((v % 256) as u8);
    out.push((v / 256) as u8);
}

fn push_u32_le(out: &mut Vec<u8>, v: u32) {
    push_u16_le(out, (v % 65536) as u16);
    push_u16_le(out, (v / 65536) as u16);
}

fn color(r: u8, g: u8, b: u8) -> ColorBGR555 {
    ColorBGR555 { r, g, b, x: false }
}

fn sixteen_colors(base: u8) -> Vec<ColorBGR555> {
    (0..16).map(|i| color(base, i as u8, 7)).collect()
}

#[test]
fn container_round_trip_little_endian() {
    let f = NDSFile {
        fname: "demo.bin".to_string(),
        magic: b"RLCN".to_vec(),
        byteorder: ByteOrder::LittleEndian,
        sections: vec![
            Section { magic: b"AAAA".to_vec(), contents: vec![1, 2, 3] },
            Section { magic: b"BBBB".to_vec(), contents: vec![] },
        ],
    };
    let bytes = f.to_bytes();
    // header: magic, BOM, version, backpatched total size, header size, count
    assert_eq!(&bytes[0..4], b"RLCN");
    assert_eq!(&bytes[4..6], &[0xFF, 0xFE]);
    let total = (bytes[8] as u32)
        + 256 * (bytes[9] as u32)
        + 65536 * (bytes[10] as u32)
        + 16777216 * (bytes[11] as u32);
    assert_eq!(total as usize, bytes.len());
    let g = NDSFile::from_bytes("demo.bin", &bytes).unwrap();
    assert_eq!(g.magic, f.magic);
    assert_eq!(g.byteorder, f.byteorder);
    assert_eq!(g.sections.len(), 2);
    assert_eq!(g.sections[0].magic, b"AAAA".to_vec());
    assert_eq!(g.sections[0].contents, vec![1, 2, 3]);
    assert_eq!(g.sections[1].magic, b"BBBB".to_vec());
    assert_eq!(g.sections[1].contents, Vec::<u8>::new());
}

#[test]
fn container_round_trip_big_endian() {
    let f = NDSFile {
        fname: "demo.bin".to_string(),
        magic: b"RGCN".to_vec(),
        byteorder: ByteOrder::BigEndian,
        sections: vec![Section { magic: b"XYZW".to_vec(), contents: vec![9, 8, 7, 6, 5] }],
    };
    let bytes = f.to_bytes();
    assert_eq!(&bytes[4..6], &[0xFE, 0xFF]);
    let g = NDSFile::from_bytes("demo.bin", &bytes).unwrap();
    assert_eq!(g.byteorder, ByteOrder::BigEndian);
    assert_eq!(g.sections[0].contents, vec![9, 8, 7, 6, 5]);
}

#[test]
fn container_bad_bom_is_rejected() {
    let mut bytes = b"RLCN".to_vec();
    bytes.extend([0x12, 0x34]);
    bytes.extend([0u8; 10]);
    match NDSFile::from_bytes("x", &bytes) {
        Err(Error::InvalidBOM { .. }) => {}
        other => panic!("expected invalid byte-order mark, got {:?}", other.map(|_| ())),
    }
}

#[test]
fn container_truncated_is_rejected() {
    let bytes = b"RLC".to_vec();
    assert!(matches!(NDSFile::from_bytes("x", &bytes), Err(Error::TruncatedData { .. })));
}

#[test]
fn color_cell_round_trip_and_expansion() {
    for r in 0..32u8 {
        let c = color(r, 31 - r, (r + 3) % 32);
        let packed = c.to_u16();
        let back = ColorBGR555::from_u16(packed);
        assert_eq!(back, c);
        let rgb = c.to_rgb888();
        assert_eq!(rgb[0], c.r * 8);
        assert_eq!(rgb[1], c.g * 8);
        assert_eq!(rgb[2], c.b * 8);
    }
    // the unused high bit decodes, but is normalized to 0 on encode
    let c = ColorBGR555::from_u16(0x8000);
    assert!(c.x);
    assert_eq!(c.to_u16(), 0);
}

#[test]
fn display_expansion_yields_multiples_of_eight_only() {
    let produced: Vec<u8> = (0..32u8).map(|v| color(v, 0, 0).to_rgb888()[0]).collect();
    let expected: Vec<u8> = (0..32u16).map(|v| (v * 8) as u8).collect();
    assert_eq!(produced, expected);
    assert_eq!(*produced.last().unwrap(), 248);
    assert!(!produced.contains(&255));
}

#[test]
fn nclr_round_trip() {
    let x = NCLR {
        palettes: vec![(0, sixteen_colors(1)), (5, sixteen_colors(2))],
        is_8_bit: false,
        color_amt: 16,
        pcmp_unk: vec![0xEF, 0xBE, 0x08, 0, 0, 0],
    };
    let f = x.to_ndsfile("p.nclr".to_string(), ByteOrder::LittleEndian).unwrap();
    let y = NCLR::from_ndsfile(&f).unwrap();
    assert_eq!(y.palettes, x.palettes);
    assert_eq!(y.is_8_bit, x.is_8_bit);
    assert_eq!(y.color_amt, x.color_amt);
    assert_eq!(y.pcmp_unk, x.pcmp_unk);
}

#[test]
fn nclr_decode_scenario_two_palettes() {
    // one color table (4-bit mode, 16 colors per palette, two groups) and
    // one index table with ids 0 and 5
    let mut ttlp = Vec::new();
    push_u32_le(&mut ttlp, 3); // 4-bit selector
    push_u32_le(&mut ttlp, 0);
    push_u32_le(&mut ttlp, 64); // 2 groups of 16 colors, 2 bytes each
    push_u32_le(&mut ttlp, 16);
    for g in 0..2u16 {
        for i in 0..16u16 {
            push_u16_le(&mut ttlp, g * 1024 + i);
        }
    }
    let mut pmcp = Vec::new();
    push_u16_le(&mut pmcp, 2);
    pmcp.extend([0xEF, 0xBE, 0x08, 0, 0, 0]);
    push_u16_le(&mut pmcp, 0);
    push_u16_le(&mut pmcp, 5);
    let f = NDSFile {
        fname: "two.nclr".to_string(),
        magic: b"RLCN".to_vec(),
        byteorder: ByteOrder::LittleEndian,
        sections: vec![
            Section { magic: b"TTLP".to_vec(), contents: ttlp },
            Section { magic: b"PMCP".to_vec(), contents: pmcp },
        ],
    };
    let x = NCLR::from_ndsfile(&f).unwrap();
    assert!(!x.is_8_bit);
    assert_eq!(x.color_amt, 16);
    assert_eq!(x.palettes.len(), 2);
    assert_eq!(x.palettes[0].0, 0);
    assert_eq!(x.palettes[1].0, 5);
    assert_eq!(x.palettes[0].1.len(), 16);
    assert_eq!(x.palettes[1].1.len(), 16);
    assert_eq!(x.palettes[1].1[3], ColorBGR555 { r: 3, g: 0, b: 1, x: false });
}

#[test]
fn nclr_wrong_magic_and_unknown_section_and_bad_mode() {
    let f = NDSFile {
        fname: "a".to_string(),
        magic: b"RGCN".to_vec(),
        byteorder: ByteOrder::LittleEndian,
        sections: vec![],
    };
    assert!(matches!(NCLR::from_ndsfile(&f), Err(Error::WrongFileKind { .. })));

    let f = NDSFile {
        fname: "a".to_string(),
        magic: b"RLCN".to_vec(),
        byteorder: ByteOrder::LittleEndian,
        sections: vec![Section { magic: b"ZZZZ".to_vec(), contents: vec![] }],
    };
    assert!(matches!(NCLR::from_ndsfile(&f), Err(Error::UnknownSection { .. })));

    let mut ttlp = Vec::new();
    push_u32_le(&mut ttlp, 9); // unknown color-depth selector
    push_u32_le(&mut ttlp, 0);
    push_u32_le(&mut ttlp, 0);
    push_u32_le(&mut ttlp, 16);
    let f = NDSFile {
        fname: "a".to_string(),
        magic: b"RLCN".to_vec(),
        byteorder: ByteOrder::LittleEndian,
        sections: vec![Section { magic: b"TTLP".to_vec(), contents: ttlp }],
    };
    assert!(matches!(NCLR::from_ndsfile(&f), Err(Error::UnknownColorFormat { got: 9, .. })));
}

#[test]
fn nclr_missing_sections_and_malformed() {
    let f = NDSFile {
        fname: "a".to_string(),
        magic: b"RLCN".to_vec(),
        byteorder: ByteOrder::LittleEndian,
        sections: vec![],
    };
    assert!(matches!(NCLR::from_ndsfile(&f), Err(Error::MissingRequiredSection { .. })));

    // 8-bit mode with two raw palettes is malformed
    let mut ttlp = Vec::new();
    push_u32_le(&mut ttlp, 4);
    push_u32_le(&mut ttlp, 0);
    push_u32_le(&mut ttlp, 8); // two groups of 2 colors
    push_u32_le(&mut ttlp, 2);
    for i in 0..4u16 {
        push_u16_le(&mut ttlp, i);
    }
    let f = NDSFile {
        fname: "a".to_string(),
        magic: b"RLCN".to_vec(),
        byteorder: ByteOrder::LittleEndian,
        sections: vec![Section { magic: b"TTLP".to_vec(), contents: ttlp }],
    };
    assert!(matches!(NCLR::from_ndsfile(&f), Err(Error::MalformedData { .. })));
}

fn ramp_tile() -> Vec<u8> {
    (0..64).map(|i| (i % 16) as u8).collect()
}

#[test]
fn ncgr_round_trip_horizontal_4bit() {
    let x = NCGR {
        tiles: NCGRTiles::Horizontal(vec![ramp_tile(), vec![5; 64]]),
        is_8_bit: false,
        has_cpos: true,
        ncbr_ff: false,
    };
    let f = x.to_ndsfile("t.ncgr".to_string(), ByteOrder::LittleEndian).unwrap();
    assert_eq!(f.sections.len(), 2); // optional section re-emitted
    let y = NCGR::from_ndsfile(&f).unwrap();
    match (&y.tiles, &x.tiles) {
        (NCGRTiles::Horizontal(a), NCGRTiles::Horizontal(b)) => assert_eq!(a, b),
        _ => panic!("layout changed in round trip"),
    }
    assert!(!y.is_8_bit);
    assert!(y.has_cpos);
    assert!(!y.ncbr_ff);
}

#[test]
fn ncgr_round_trip_lineal_8bit() {
    let data: Vec<u8> = (0..128).map(|i| i as u8).collect(); // two 8-bit tiles
    let x = NCGR {
        tiles: NCGRTiles::Lineal(data.clone()),
        is_8_bit: true,
        has_cpos: false,
        ncbr_ff: false,
    };
    let f = x.to_ndsfile("t.ncbr".to_string(), ByteOrder::LittleEndian).unwrap();
    assert_eq!(f.sections.len(), 1);
    let y = NCGR::from_ndsfile(&f).unwrap();
    match &y.tiles {
        NCGRTiles::Lineal(c) => assert_eq!(*c, data),
        _ => panic!("layout changed in round trip"),
    }
    assert!(y.is_8_bit);
}

#[test]
fn ncgr_4bit_packing_is_low_nibble_first() {
    // one tile whose first two pixels are 0xA and 0xB packs to byte 0xBA
    let mut t = vec![0u8; 64];
    t[0] = 0xA;
    t[1] = 0xB;
    let x = NCGR {
        tiles: NCGRTiles::Horizontal(vec![t]),
        is_8_bit: false,
        has_cpos: false,
        ncbr_ff: false,
    };
    let f = x.to_ndsfile("t.ncgr".to_string(), ByteOrder::LittleEndian).unwrap();
    let contents = &f.sections[0].contents;
    assert_eq!(contents[24], 0xBA);
    // and unpacks back to the pair, for every possible byte
    let y = NCGR::from_ndsfile(&f).unwrap();
    match &y.tiles {
        NCGRTiles::Horizontal(ts) => {
            assert_eq!(ts[0][0], 0xA);
            assert_eq!(ts[0][1], 0xB);
        }
        _ => panic!("layout changed"),
    }
}

#[test]
fn nibble_pack_unpack_inverse_for_every_byte() {
    for b in 0..=255u8 {
        let x = NCGR {
            tiles: NCGRTiles::Lineal(vec![b; 32]),
            is_8_bit: false,
            has_cpos: false,
            ncbr_ff: false,
        };
        // unpack: low nibble first
        let px = x.tiles.render(false, None, 1);
        assert_eq!(px[0], b & 0xF);
        assert_eq!(px[1], b >> 4);
        // pack: the tiles written back give the byte again
        let tiles = x.tiles.to_tiles(false);
        let back = NCGRTiles::from_tiles(tiles, false, true);
        match back {
            NCGRTiles::Lineal(c) => assert_eq!(c, vec![b; 32]),
            _ => panic!("layout changed"),
        }
    }
}

#[test]
fn ncgr_sentinel_tile_count() {
    // character data with tile-count field 0xFFFF and 2048 data bytes in
    // 8-bit mode decodes to exactly 32 tiles and sets the sentinel flag
    let mut rahc = Vec::new();
    push_u16_le(&mut rahc, 0xFFFF);
    push_u16_le(&mut rahc, 0xFFFF);
    push_u32_le(&mut rahc, 4); // 8-bit selector
    push_u32_le(&mut rahc, 0);
    push_u32_le(&mut rahc, 0); // split-tile layout
    push_u32_le(&mut rahc, 2048);
    push_u32_le(&mut rahc, 0x18);
    rahc.extend(std::iter::repeat(7u8).take(2048));
    let f = NDSFile {
        fname: "s.ncbr".to_string(),
        magic: b"RGCN".to_vec(),
        byteorder: ByteOrder::LittleEndian,
        sections: vec![Section { magic: b"RAHC".to_vec(), contents: rahc }],
    };
    let x = NCGR::from_ndsfile(&f).unwrap();
    assert!(x.ncbr_ff);
    assert!(x.is_8_bit);
    match &x.tiles {
        NCGRTiles::Horizontal(ts) => {
            assert_eq!(ts.len(), 32);
            assert!(ts.iter().all(|t| t.len() == 64 && t.iter().all(|&p| p == 7)));
        }
        _ => panic!("expected split tiles"),
    }
    // re-encoding reproduces the 0xFFFF count field
    let g = x.to_ndsfile("s.ncbr".to_string(), ByteOrder::LittleEndian).unwrap();
    assert_eq!(&g.sections[0].contents[0..4], &[0xFF, 0xFF, 0xFF, 0xFF]);
}

#[test]
fn render_tiles_pads_final_row_with_zero_tiles() {
    let tiles = vec![vec![1u8; 64], vec![2u8; 64], vec![3u8; 64]];
    let out = NCGRTiles::render_tiles(&tiles, None, 2);
    // 3 tiles in rows of 2: two rows of 8 scanlines, 16 pixels wide
    assert_eq!(out.len(), 2 * 8 * 16);
    // first scanline: tile 1 then tile 2
    assert_eq!(&out[0..8], &[1; 8]);
    assert_eq!(&out[8..16], &[2; 8]);
    // last row: tile 3 then zero filler
    assert_eq!(&out[8 * 16..8 * 16 + 8], &[3; 8]);
    assert_eq!(&out[8 * 16 + 8..8 * 16 + 16], &[0; 8]);
}

#[test]
fn render_tiles_respects_range() {
    let tiles = vec![vec![1u8; 64], vec![2u8; 64], vec![3u8; 64]];
    let out = NCGRTiles::render_tiles(&tiles, Some(1..3), 2);
    assert_eq!(out.len(), 8 * 16);
    assert_eq!(&out[0..8], &[2; 8]);
    assert_eq!(&out[8..16], &[3; 8]);
}

#[test]
fn nscr_round_trip() {
    let x = NSCR {
        width: 16,
        height: 16,
        tiles: vec![
            TileRef { tile: 0, flip_x: false, flip_y: false, palette: 0 },
            TileRef { tile: 1, flip_x: true, flip_y: false, palette: 3 },
            TileRef { tile: 2, flip_x: false, flip_y: true, palette: 15 },
            TileRef { tile: 1023, flip_x: true, flip_y: true, palette: 7 },
        ],
    };
    let f = x.to_ndsfile("m.nscr".to_string(), ByteOrder::LittleEndian).unwrap();
    let y = NSCR::from_ndsfile(&f).unwrap();
    assert_eq!(y.width, 16);
    assert_eq!(y.height, 16);
    assert_eq!(y.tiles, x.tiles);
}

#[test]
fn nscr_attribute_word_layout() {
    let x = NSCR {
        width: 8,
        height: 8,
        tiles: vec![TileRef { tile: 2, flip_x: true, flip_y: false, palette: 5 }],
    };
    let f = x.to_ndsfile("m.nscr".to_string(), ByteOrder::LittleEndian).unwrap();
    let c = &f.sections[0].contents;
    let word = c[12] as u16 + 256 * c[13] as u16;
    assert_eq!(word, 2 + 0x400 + (5 << 12));
}

#[test]
fn nscr_errors() {
    let f = NDSFile {
        fname: "m".to_string(),
        magic: b"RLCN".to_vec(),
        byteorder: ByteOrder::LittleEndian,
        sections: vec![],
    };
    assert!(matches!(NSCR::from_ndsfile(&f), Err(Error::WrongFileKind { .. })));
    let f = NDSFile {
        fname: "m".to_string(),
        magic: b"RCSN".to_vec(),
        byteorder: ByteOrder::LittleEndian,
        sections: vec![],
    };
    assert!(matches!(NSCR::from_ndsfile(&f), Err(Error::MissingRequiredSection { .. })));
    let f = NDSFile {
        fname: "m".to_string(),
        magic: b"RCSN".to_vec(),
        byteorder: ByteOrder::LittleEndian,
        sections: vec![Section { magic: b"NRCS".to_vec(), contents: vec![0, 0] }],
    };
    assert!(matches!(NSCR::from_ndsfile(&f), Err(Error::TruncatedData { .. })));
}

#[test]
fn render_tilemap_repeated_tile_gives_identical_quadrants() {
    let palette: Vec<ColorBGR555> = (0..16).map(|i| color(i as u8, (i * 2 % 32) as u8, 9)).collect();
    let nclr = NCLR {
        palettes: vec![(0, palette)],
        is_8_bit: false,
        color_amt: 16,
        pcmp_unk: vec![0xEF, 0xBE, 0x08, 0, 0, 0],
    };
    let ncgr = NCGR {
        tiles: NCGRTiles::Horizontal(vec![ramp_tile()]),
        is_8_bit: false,
        has_cpos: false,
        ncbr_ff: false,
    };
    let nscr = NSCR {
        width: 16,
        height: 16,
        tiles: vec![TileRef { tile: 0, flip_x: false, flip_y: false, palette: 0 }; 4],
    };
    let buf = nscr.render(&nclr, &ncgr).unwrap();
    assert_eq!(buf.len(), 16 * 16 * 3);
    let pixel = |x: usize, y: usize| -> (u8, u8, u8) {
        let p = 3 * (y * 16 + x);
        (buf[p], buf[p + 1], buf[p + 2])
    };
    for y in 0..8 {
        for x in 0..8 {
            let q = pixel(x, y);
            assert_eq!(pixel(x + 8, y), q);
            assert_eq!(pixel(x, y + 8), q);
            assert_eq!(pixel(x + 8, y + 8), q);
        }
    }
    // and the colors are the DS expansion of the palette entries
    let idx = ramp_tile()[0] as usize;
    assert_eq!(pixel(0, 0).0, (idx as u8) * 0 + 0 * 8);
}

#[test]
fn render_tilemap_applies_flips_to_addressing() {
    let palette: Vec<ColorBGR555> = (0..16).map(|i| color(i as u8, 0, 0)).collect();
    let nclr = NCLR {
        palettes: vec![(0, palette)],
        is_8_bit: false,
        color_amt: 16,
        pcmp_unk: vec![0xEF, 0xBE, 0x08, 0, 0, 0],
    };
    let mut tile = vec![0u8; 64];
    tile[0] = 5; // top-left pixel only
    let ncgr = NCGR {
        tiles: NCGRTiles::Horizontal(vec![tile]),
        is_8_bit: false,
        has_cpos: false,
        ncbr_ff: false,
    };
    let nscr = NSCR {
        width: 8,
        height: 8,
        tiles: vec![TileRef { tile: 0, flip_x: true, flip_y: false, palette: 0 }],
    };
    let buf = nscr.render(&nclr, &ncgr).unwrap();
    // the marked pixel moves to the top-right corner
    assert_eq!(buf[3 * 7], 5 * 8);
    assert_eq!(buf[0], 0);
}

#[test]
fn render_tilemap_out_of_range_fails() {
    let nclr = NCLR {
        palettes: vec![(0, sixteen_colors(0))],
        is_8_bit: false,
        color_amt: 16,
        pcmp_unk: vec![0xEF, 0xBE, 0x08, 0, 0, 0],
    };
    let ncgr = NCGR {
        tiles: NCGRTiles::Horizontal(vec![ramp_tile()]),
        is_8_bit: false,
        has_cpos: false,
        ncbr_ff: false,
    };
    // tile index out of range
    let nscr = NSCR {
        width: 8,
        height: 8,
        tiles: vec![TileRef { tile: 9, flip_x: false, flip_y: false, palette: 0 }],
    };
    assert!(nscr.render(&nclr, &ncgr).is_none());
    // palette slot out of range
    let nscr = NSCR {
        width: 8,
        height: 8,
        tiles: vec![TileRef { tile: 0, flip_x: false, flip_y: false, palette: 2 }],
    };
    assert!(nscr.render(&nclr, &ncgr).is_none());
}

#[test]
fn object_attribute_round_trip() {
    let o = ObjectInternals {
        tile: 513,
        palette: 11,
        is_8_bit: true,
        pos_x: 300,
        pos_y: 99,
        shape: ObjectShape::Object32x16,
        flip_x: true,
        flip_y: false,
        priority: 2,
        disable: false,
        mode: 1,
        mosaic: true,
        unused_attr1: 5,
    };
    let attrs = o.to_attributes();
    let p = ObjectInternals::from_attributes(&attrs).unwrap();
    assert_eq!(p, o);
}

#[test]
fn object_attribute_errors() {
    // rotation/scaling bit set
    assert!(matches!(
        ObjectInternals::from_attributes(&[0x100, 0, 0]),
        Err(Error::UnimplementedFeature)
    ));
    // undefined shape field
    assert!(matches!(ObjectShape::new(3, 0), Err(Error::InvalidObjectShape { .. })));
    assert!(matches!(
        ObjectInternals::from_attributes(&[3 << 14, 0, 0]),
        Err(Error::InvalidObjectShape { .. })
    ));
    assert_eq!(ObjectShape::new(0, 0).unwrap(), ObjectShape::Object8x8);
    assert_eq!(ObjectShape::new(0, 3).unwrap(), ObjectShape::Object32x32);
}

#[test]
fn format_filters_list_all_extensions() {
    let (pats, desc) = FormatType::Nintendo.filters().unwrap();
    assert_eq!(pats.len(), 8);
    assert_eq!(pats[0], "*.nclr");
    assert_eq!(desc, "Nintendo DS image files");
}
