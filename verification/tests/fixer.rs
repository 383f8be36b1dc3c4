use nuclear::{
    allocate_palettes, image_to_tiles, ColorBGR555, Error, FixerTile, ImgHelper, NCGRTiles, NSCR,
};

fn solid_image(w: usize, h: usize, rgb: [u8; 3]) -> ImgHelper {
    ImgHelper { pixels: vec![rgb; w * h], width: w, height: h }
}

fn color(r: u8, g: u8, b: u8) -> ColorBGR555 {
    ColorBGR555 { r, g, b, x: false }
}

#[test]
fn image_pixels_convert_to_5bit_channels() {
    let img = solid_image(8, 8, [255, 128, 7]);
    let t = FixerTile::from_image(&img, 0, 0).unwrap();
    assert_eq!(t.pixels.len(), 64);
    assert!(t.pixels.iter().all(|c| *c == color(31, 16, 0)));
}

#[test]
fn flip_mirrors_addressing() {
    let mut img = solid_image(8, 8, [0, 0, 0]);
    img.pixels[0] = [255, 255, 255]; // top-left pixel
    let t = FixerTile::from_image(&img, 0, 0).unwrap();
    let h = t.flip(true, false);
    assert_eq!(h.pixels[7], color(31, 31, 31));
    assert_eq!(h.pixels[0], color(0, 0, 0));
    let v = t.flip(false, true);
    assert_eq!(v.pixels[7 * 8], color(31, 31, 31));
    let b = t.flip(true, true);
    assert_eq!(b.pixels[63], color(31, 31, 31));
}

#[test]
fn colors_are_deduplicated_in_first_appearance_order() {
    let mut img = solid_image(8, 8, [0, 0, 0]);
    img.pixels[1] = [64, 0, 0];
    img.pixels[9] = [64, 0, 0];
    img.pixels[2] = [0, 64, 0];
    let t = FixerTile::from_image(&img, 0, 0).unwrap();
    let cs = t.colors();
    assert_eq!(cs, vec![color(0, 0, 0), color(8, 0, 0), color(0, 8, 0)]);
}

#[test]
fn all_black_image_yields_one_unique_tile() {
    let img = solid_image(16, 8, [0, 0, 0]);
    let (tiles, refs, w, h) = image_to_tiles(&img).unwrap();
    assert_eq!((w, h), (16, 8));
    assert_eq!(tiles.len(), 1);
    assert_eq!(refs.len(), 2);
    for r in &refs {
        assert_eq!(r.tile, 0);
        assert!(!r.flip_x);
        assert!(!r.flip_y);
    }
}

#[test]
fn mirrored_cell_becomes_flipped_reference() {
    // left cell: a gradient; right cell: the same mirrored horizontally
    let mut img = solid_image(16, 8, [0, 0, 0]);
    for y in 0..8 {
        for x in 0..8 {
            let v = (x * 8 + y) as u8 * 2;
            img.pixels[y * 16 + x] = [v, 0, 0];
            img.pixels[y * 16 + (15 - x)] = [v, 0, 0];
        }
    }
    let (tiles, refs, _, _) = image_to_tiles(&img).unwrap();
    assert_eq!(tiles.len(), 1);
    assert_eq!(refs.len(), 2);
    assert!(!refs[0].flip_x && !refs[0].flip_y);
    assert!(refs[1].flip_x);
    assert!(!refs[1].flip_y);
    assert_eq!(refs[1].tile, 0);
}

#[test]
fn image_size_must_be_multiple_of_eight() {
    let img = solid_image(12, 8, [0, 0, 0]);
    assert!(matches!(image_to_tiles(&img), Err(Error::BadImageDimensions { .. })));
}

fn distinct_colors(base: u8, n: usize) -> Vec<ColorBGR555> {
    (0..n).map(|i| color(base, (i % 32) as u8, (i / 32) as u8)).collect()
}

#[test]
fn seventeenth_color_opens_a_new_slot() {
    // first tile fills a slot with 16 colors; the second shares 15 of
    // them but brings a 17th distinct color, so it cannot fit there and
    // opens a new slot
    let first = distinct_colors(1, 16);
    let mut second = distinct_colors(1, 15);
    second.push(color(2, 0, 0));
    let (slots, assign) = allocate_palettes(&vec![first.clone(), second], false).unwrap();
    assert_eq!(slots.len(), 2);
    assert_eq!(assign, vec![0, 1]);
    assert!(slots.iter().all(|s| s.len() <= 16));
    assert_eq!(slots[0], first);
}

#[test]
fn subset_tile_reuses_full_slot() {
    let first = distinct_colors(1, 16);
    let subset = first[0..4].to_vec();
    let (slots, assign) = allocate_palettes(&vec![first, subset], false).unwrap();
    assert_eq!(slots.len(), 1);
    assert_eq!(assign, vec![0, 0]);
}

#[test]
fn seventeen_disjoint_full_tiles_exhaust_the_palettes() {
    // 16 tiles of 16 disjoint colors fill all 16 slots; a 17th disjoint
    // tile must fail, not silently truncate
    let mut tiles: Vec<Vec<ColorBGR555>> = Vec::new();
    for t in 0..16u8 {
        tiles.push((0..16).map(|i| color(t, i as u8, 20)).collect());
    }
    assert!(allocate_palettes(&tiles, false).is_ok());
    tiles.push((0..16).map(|i| color(20, i as u8, 21)).collect());
    assert!(matches!(allocate_palettes(&tiles, false), Err(Error::TooManyColors)));
}

#[test]
fn eight_bit_mode_uses_a_single_palette() {
    let tiles = vec![distinct_colors(1, 16), distinct_colors(2, 16)];
    let (slots, assign) = allocate_palettes(&tiles, true).unwrap();
    assert_eq!(slots.len(), 1);
    assert_eq!(assign, vec![0, 0]);
    assert_eq!(slots[0].len(), 32);
}

#[test]
fn indexed_triple_is_self_consistent() {
    // two cells: one solid red, one solid green
    let mut img = solid_image(16, 8, [255, 0, 0]);
    for y in 0..8 {
        for x in 8..16 {
            img.pixels[y * 16 + x] = [0, 255, 0];
        }
    }
    let (ftiles, refs, w, h) = image_to_tiles(&img).unwrap();
    assert_eq!(ftiles.len(), 2);
    let (clr, cgr, scr) = FixerTile::to_indexed_tiles(
        ftiles,
        refs,
        [w, h],
        false,
        false,
        false,
        false,
    )
    .unwrap();
    assert!(!clr.is_8_bit);
    assert_eq!(scr.width, 16);
    assert_eq!(scr.height, 8);
    assert_eq!(scr.tiles.len(), 2);
    // rendering the triple back gives the quantized image colors
    let buf = scr.render(&clr, &cgr).unwrap();
    assert_eq!(buf.len(), 16 * 8 * 3);
    assert_eq!(&buf[0..3], &[248, 0, 0]);
    let right = 3 * 8;
    assert_eq!(&buf[right..right + 3], &[0, 248, 0]);
}

#[test]
fn indexed_tiles_reference_their_palette() {
    let mut img = solid_image(8, 8, [0, 0, 0]);
    img.pixels[0] = [255, 255, 255];
    let (ftiles, refs, w, h) = image_to_tiles(&img).unwrap();
    let (clr, cgr, _scr) =
        FixerTile::to_indexed_tiles(ftiles, refs, [w, h], false, false, false, false).unwrap();
    assert_eq!(clr.palettes.len(), 1);
    let pal = &clr.palettes[0].1;
    assert_eq!(pal.len(), 2);
    match &cgr.tiles {
        NCGRTiles::Horizontal(ts) => {
            assert_eq!(ts.len(), 1);
            // first pixel indexes the white entry, the rest the black one
            assert_eq!(pal[ts[0][0] as usize], color(31, 31, 31));
            assert_eq!(pal[ts[0][1] as usize], color(0, 0, 0));
        }
        _ => panic!("expected split tiles"),
    }
}

#[test]
fn gritify_builds_a_map_from_a_color_raster() {
    // left half one color, right half another: two cells, two unique tiles
    let mut img = Vec::new();
    for y in 0..8 {
        for x in 0..16 {
            let _ = y;
            img.push(color(if x < 8 { 1 } else { 2 }, 0, 0));
        }
    }
    let map = NSCR::gritify(img, [16, 8]);
    assert_eq!(map.width, 16);
    assert_eq!(map.height, 8);
    assert_eq!(map.tiles.len(), 2);
    assert_eq!(map.tiles[0].tile, 0);
    assert_eq!(map.tiles[1].tile, 1);
    assert!(map.tiles.iter().all(|t| !t.flip_x && !t.flip_y && t.palette == 0));
}
