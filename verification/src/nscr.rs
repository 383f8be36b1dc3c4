use vstd::prelude::*;

use crate::bytes::{
    copy_bytes, get_u16, get_u16s, get_u32, lemma_parse_u16s_of_encoded, lemma_u16_round_trip,
    lemma_u16s_bytes_len, lemma_u32_round_trip, parse_u16s, put_u16, put_u16s, put_u32, spec_u16,
    spec_u32, u16_bytes, u16s_bytes, u32_bytes, ByteOrder,
};
use crate::color::ColorBGR555;
use crate::error::Error;
use crate::ncgr::{groups_of, to_tiles_spec, NCGR};
use crate::nclr::{pal_index, NCLR, NCLRView};
use crate::ndsfile::{tag4, tag_eq, NDSFile, NDSFileView, Section, SectionView};

verus! {

/// NSCR (Nintendo SCreen Resource) tilemap format: the rendered size in
/// pixels and one tile reference per 8x8 cell, in raster order.
#[derive(Debug, Clone)]
pub struct NSCR {
    pub width: u16,
    pub height: u16,
    pub tiles: Vec<TileRef>,
}

/// Reference to a tile: which tile, whether it is flipped on either axis,
/// and which palette slot colors it.
#[derive(Debug, Clone, Copy, PartialEq, Eq, Structural)]
pub struct TileRef {
    pub tile: u16,
    pub flip_x: bool,
    pub flip_y: bool,
    pub palette: u8,
}

/// Mathematical image of an [`NSCR`].
pub struct NSCRView {
    pub width: u16,
    pub height: u16,
    pub tiles: Seq<TileRef>,
}

impl View for NSCR {
    type V = NSCRView;

    open spec fn view(&self) -> NSCRView {
        NSCRView { width: self.width, height: self.height, tiles: self.tiles@ }
    }
}

impl TileRef {
    /// The fields fit their bit ranges: a 10-bit tile index and a 4-bit
    /// palette slot.
    pub open spec fn wf(self) -> bool {
        self.tile < 1024 && self.palette < 16
    }

    /// The reference packed into its 16-bit attribute word: tile index in
    /// bits 0-9, horizontal flip in bit 10, vertical flip in bit 11,
    /// palette slot in bits 12-15.
    pub open spec fn spec_word(self) -> u16 {
        (self.tile + (if self.flip_x {
            1024int
        } else {
            0int
        }) + (if self.flip_y {
            2048int
        } else {
            0int
        }) + self.palette * 4096) as u16
    }

    /// The reference a 16-bit attribute word denotes.
    pub open spec fn spec_from_word(w: u16) -> TileRef {
        TileRef {
            tile: (w % 1024) as u16,
            flip_x: (w / 1024) % 2 != 0,
            flip_y: (w / 2048) % 2 != 0,
            palette: (w / 4096) as u8,
        }
    }

    /// Unpacks an attribute word.
    pub fn from_word(w: u16) -> (r: TileRef)
        ensures
            r == TileRef::spec_from_word(w),
            r.wf(),
    {
        TileRef {
            tile: w % 1024,
            flip_x: (w / 1024) % 2 != 0,
            flip_y: (w / 2048) % 2 != 0,
            palette: (w / 4096) as u8,
        }
    }

    /// Packs the reference into its attribute word.
    pub fn to_word(&self) -> (w: u16)
        requires
            self.wf(),
        ensures
            w == self.spec_word(),
    {
        self.tile + (if self.flip_x {
            1024
        } else {
            0
        }) + (if self.flip_y {
            2048
        } else {
            0
        }) + self.palette as u16 * 4096
    }
}

/// A well-formed tile reference survives the trip through its attribute
/// word unchanged.
pub proof fn lemma_tile_ref_round_trip(r: TileRef)
    requires
        r.wf(),
    ensures
        TileRef::spec_from_word(r.spec_word()) == r,
{
    let fx: int = if r.flip_x {
        1
    } else {
        0
    };
    let fy: int = if r.flip_y {
        1
    } else {
        0
    };
    let w = r.tile + fx * 1024 + fy * 2048 + r.palette * 4096;
    assert(w % 1024 == r.tile && (w / 1024) % 2 == fx && (w / 2048) % 2 == fy && w / 4096
        == r.palette) by (nonlinear_arith)
        requires
            r.tile < 1024 && r.palette < 16 && 0 <= fx <= 1 && 0 <= fy <= 1 && w == r.tile + fx
                * 1024 + fy * 2048 + r.palette * 4096,
    ;
}

/// The `RCSN` container magic of tilemap files.
pub open spec fn nscr_magic() -> Seq<u8> {
    seq![0x52u8, 0x43u8, 0x53u8, 0x4Eu8]
}

/// The `NRCS` tag of the screen-data section.
pub open spec fn nrcs_magic() -> Seq<u8> {
    seq![0x4Eu8, 0x52u8, 0x43u8, 0x53u8]
}

/// The attribute words of all tile references, in raster order.
pub open spec fn ref_words(rs: Seq<TileRef>) -> Seq<u16> {
    Seq::new(rs.len(), |i: int| rs[i].spec_word())
}

impl NSCRView {
    /// Validity: the size is a whole number of 8x8 cells, every reference
    /// fits its bit ranges, and the data fits its on-disk size field.
    pub open spec fn wf(self) -> bool {
        &&& self.width % 8 == 0
        &&& self.height % 8 == 0
        &&& (forall|i: int| 0 <= i < self.tiles.len() ==> (#[trigger] self.tiles[i]).wf())
        &&& 24 + 2 * self.tiles.len() <= u32::MAX
    }
}

/// Contents of the screen-data section: width, height, padding, byte size
/// of the reference words, then the words in raster order.
pub open spec fn nrcs_contents(x: NSCRView, o: ByteOrder) -> Seq<u8> {
    u16_bytes(x.width, o) + u16_bytes(x.height, o) + u32_bytes(0, o) + u32_bytes(
        (2 * x.tiles.len()) as u32,
        o,
    ) + u16s_bytes(ref_words(x.tiles), o)
}

/// The whole container a tilemap resource serializes to.
pub open spec fn spec_nscr_file(x: NSCRView, fname: Seq<char>, o: ByteOrder) -> NDSFileView {
    NDSFileView {
        fname: fname,
        magic: nscr_magic(),
        byteorder: o,
        sections: seq![SectionView { magic: nrcs_magic(), contents: nrcs_contents(x, o) }],
    }
}

/// The ways a tilemap decode can fail.
pub enum NscrErr {
    WrongKind,
    UnknownSection(Seq<u8>),
    Truncated,
    MissingScrn,
}

/// Reads a screen-data section.
pub open spec fn parse_nrcs(c: Seq<u8>, o: ByteOrder) -> Result<(u16, u16, Seq<TileRef>), NscrErr> {
    if c.len() < 12 {
        Err(NscrErr::Truncated)
    } else {
        let w = spec_u16(c[0], c[1], o);
        let h = spec_u16(c[2], c[3], o);
        let ds = spec_u32(c[8], c[9], c[10], c[11], o) as int;
        let count = ds / 2;
        if 12 + 2 * count > c.len() {
            Err(NscrErr::Truncated)
        } else {
            Ok(
                (
                    w,
                    h,
                    Seq::new(
                        count as nat,
                        |i: int| TileRef::spec_from_word(parse_u16s(c, 12, count, o)[i]),
                    ),
                ),
            )
        }
    }
}

/// Walks the sections in order: only the screen-data tag is known.
pub open spec fn nscr_scan(
    ss: Seq<SectionView>,
    o: ByteOrder,
    m: Option<(u16, u16, Seq<TileRef>)>,
) -> Result<NSCRView, NscrErr>
    decreases ss.len(),
{
    if ss.len() == 0 {
        match m {
            None => Err(NscrErr::MissingScrn),
            Some(mm) => Ok(NSCRView { width: mm.0, height: mm.1, tiles: mm.2 }),
        }
    } else {
        let s = ss[0];
        if s.magic == nrcs_magic() {
            match parse_nrcs(s.contents, o) {
                Ok(mm) => nscr_scan(ss.drop_first(), o, Some(mm)),
                Err(e) => Err(e),
            }
        } else {
            Err(NscrErr::UnknownSection(s.magic))
        }
    }
}

/// The full tilemap decode: magic check, then the section walk.
pub open spec fn spec_parse_nscr(f: NDSFileView) -> Result<NSCRView, NscrErr> {
    if f.magic != nscr_magic() {
        Err(NscrErr::WrongKind)
    } else {
        nscr_scan(f.sections, f.byteorder, None)
    }
}

/// Which [`Error`] value each spec-level failure surfaces as.
pub open spec fn nscr_err_matches(e: Error, k: NscrErr, f: NDSFileView) -> bool {
    match k {
        NscrErr::WrongKind => e matches Error::WrongFileKind { file, expected, got } && file@
            == f.fname && expected@ == nscr_magic() && got@ == f.magic,
        NscrErr::UnknownSection(tag) => e matches Error::UnknownSection { file, s_name } && file@
            == f.fname && s_name@ == tag,
        NscrErr::Truncated => e matches Error::TruncatedData { file } && file@ == f.fname,
        NscrErr::MissingScrn => e matches Error::MissingRequiredSection { file, s_name } && file@
            == f.fname && s_name@ == seq![0x53u8, 0x43u8, 0x52u8, 0x4Eu8],
    }
}

impl NSCR {
    /// Decodes a tilemap resource from a container, unpacking each 16-bit
    /// attribute word into its tile index, flips and palette slot.
    pub fn from_ndsfile(file: &NDSFile) -> (r: Result<NSCR, Error>)
        ensures
            match r {
                Ok(x) => spec_parse_nscr(file@) == Ok::<NSCRView, NscrErr>(x@),
                Err(e) => spec_parse_nscr(file@) matches Err(k) && nscr_err_matches(e, k, file@),
            },
    {
        let o = file.byteorder;
        if !tag_eq(&file.magic, 0x52, 0x43, 0x53, 0x4E) {
            return Err(Error::WrongFileKind {
                file: file.fname.clone(),
                expected: tag4(0x52, 0x43, 0x53, 0x4E),
                got: copy_bytes(&file.magic),
            });
        }
        let n_secs = file.sections.len();
        let mut m_st: Option<(u16, u16, Vec<TileRef>)> = None;
        let mut si: usize = 0;
        proof {
            assert(file@.sections.skip(0) =~= file@.sections);
        }
        while si < n_secs
            invariant
                n_secs == file.sections@.len(),
                si <= n_secs,
                o == file.byteorder,
                file@.magic == nscr_magic(),
                nscr_scan(file@.sections, o, None) == nscr_scan(
                    file@.sections.skip(si as int),
                    o,
                    match m_st {
                        None => None,
                        Some(mm) => Some((mm.0, mm.1, mm.2@)),
                    },
                ),
            decreases n_secs - si,
        {
            let sec = &file.sections[si];
            let ghost rem = file@.sections.skip(si as int);
            proof {
                assert(file@.sections[si as int] == sec@);
                assert(rem[0] == sec@);
                assert(rem.drop_first() =~= file@.sections.skip(si + 1));
            }
            if tag_eq(&sec.magic, 0x4E, 0x52, 0x43, 0x53) {
                let c = &sec.contents;
                let clen = c.len();
                if clen < 12 {
                    return Err(Error::TruncatedData { file: file.fname.clone() });
                }
                let w = get_u16(c, 0, o);
                let h = get_u16(c, 2, o);
                let ds = get_u32(c, 8, o);
                let count64: u64 = ds as u64 / 2;
                if count64 > ((clen - 12) / 2) as u64 {
                    return Err(Error::TruncatedData { file: file.fname.clone() });
                }
                let count = count64 as usize;
                let words = get_u16s(c, 12, count, o);
                let mut refs: Vec<TileRef> = Vec::new();
                let mut i: usize = 0;
                while i < count
                    invariant
                        i <= count,
                        words@.len() == count,
                        refs@.len() == i,
                        forall|k: int|
                            0 <= k < i ==> #[trigger] refs@[k] == TileRef::spec_from_word(
                                words@[k],
                            ),
                    decreases count - i,
                {
                    let r = TileRef::from_word(words[i]);
                    refs.push(r);
                    i = i + 1;
                }
                proof {
                    let mm = parse_nrcs(sec@.contents, o)->Ok_0;
                    assert(parse_nrcs(sec@.contents, o) is Ok);
                    assert(refs@ =~= mm.2);
                }
                m_st = Some((w, h, refs));
            } else {
                return Err(Error::UnknownSection {
                    file: file.fname.clone(),
                    s_name: copy_bytes(&sec.magic),
                });
            }
            si = si + 1;
        }
        proof {
            assert(file@.sections.skip(n_secs as int) =~= Seq::<SectionView>::empty());
        }
        match m_st {
            Some((w, h, refs)) => {
                let x = NSCR { width: w, height: h, tiles: refs };
                Ok(x)
            },
            None => Err(Error::MissingRequiredSection {
                file: file.fname.clone(),
                s_name: tag4(0x53, 0x43, 0x52, 0x4E),
            }),
        }
    }

    /// Serializes the tilemap resource into a container, packing each
    /// reference into its attribute word, in raster order.
    pub fn to_ndsfile(&self, fname: String, o: ByteOrder) -> (r: Result<NDSFile, Error>)
        requires
            self@.wf(),
        ensures
            (r matches Ok(f) && f@ == spec_nscr_file(self@, fname@, o)),
    {
        let mut words: Vec<u16> = Vec::new();
        let n = self.tiles.len();
        let mut i: usize = 0;
        while i < n
            invariant
                self@.wf(),
                n == self.tiles@.len(),
                i <= n,
                words@ =~= ref_words(self@.tiles).subrange(0, i as int),
            decreases n - i,
        {
            let w = self.tiles[i].to_word();
            words.push(w);
            i = i + 1;
            proof {
                assert(words@ =~= ref_words(self@.tiles).subrange(0, i as int));
            }
        }
        proof {
            assert(ref_words(self@.tiles).subrange(0, n as int) =~= ref_words(self@.tiles));
        }
        let mut scrn_buffer: Vec<u8> = Vec::new();
        put_u16(&mut scrn_buffer, self.width, o);
        put_u16(&mut scrn_buffer, self.height, o);
        put_u32(&mut scrn_buffer, 0, o);
        put_u32(&mut scrn_buffer, 2 * n as u32, o);
        put_u16s(&mut scrn_buffer, &words, o);
        proof {
            assert(scrn_buffer@ =~= nrcs_contents(self@, o));
        }
        let mut sections: Vec<Section> = Vec::new();
        sections.push(Section { magic: tag4(0x4E, 0x52, 0x43, 0x53), contents: scrn_buffer });
        let f = NDSFile { fname, magic: tag4(0x52, 0x43, 0x53, 0x4E), byteorder: o, sections };
        proof {
            assert(f@.sections =~= spec_nscr_file(self@, fname@, o).sections);
            assert(f@ == spec_nscr_file(self@, fname@, o));
        }
        Ok(f)
    }
}

/// One tile reference can be rendered: its tile exists and holds 64
/// pixels, its palette slot names a stored palette, and every pixel index
/// of the tile lands on a well-formed color of that palette.
pub open spec fn ref_ok(tr: TileRef, pal: NCLRView, tiles: Seq<Seq<u8>>) -> bool {
    &&& tr.tile < tiles.len()
    &&& tiles[tr.tile as int].len() == 64
    &&& pal_index(pal.palettes, tr.palette as u16, 0) is Some
    &&& {
        let p = pal.palettes[pal_index(pal.palettes, tr.palette as u16, 0)->Some_0].1;
        forall|k: int|
            0 <= k < 64 ==> (#[trigger] tiles[tr.tile as int][k]) < p.len() && p[tiles[tr.tile as int][k] as int].wf()
    }
}

/// A tilemap can be rendered against a palette resource and a tile list:
/// the size cuts into whole 8x8 cells, there is exactly one reference per
/// cell, and every reference is in range.
pub open spec fn render_ok(m: NSCRView, pal: NCLRView, tiles: Seq<Seq<u8>>) -> bool {
    &&& m.width % 8 == 0
    &&& m.height % 8 == 0
    &&& m.tiles.len() == (m.width as int / 8) * (m.height as int / 8)
    &&& forall|r: int| 0 <= r < m.tiles.len() ==> ref_ok(#[trigger] m.tiles[r], pal, tiles)
}

/// Byte `p` of the rendered true-color image: three bytes per pixel in
/// raster order; flips are applied to the addressing within the 8x8 cell;
/// each 5-bit channel is expanded by multiplying by 8.
pub open spec fn rendered_byte(m: NSCRView, pal: NCLRView, tiles: Seq<Seq<u8>>, p: int) -> u8 {
    let w = m.width as int;
    let pix = p / 3;
    let ch = p % 3;
    let y = pix / w;
    let x = pix % w;
    let tr = m.tiles[(y / 8) * (w / 8) + (x / 8)];
    let j = if tr.flip_y {
        7 - (y % 8)
    } else {
        (y % 8)
    };
    let i = if tr.flip_x {
        7 - (x % 8)
    } else {
        (x % 8)
    };
    let idx = tiles[tr.tile as int][j * 8 + i];
    let colors = pal.palettes[pal_index(pal.palettes, tr.palette as u16, 0)->Some_0].1;
    let c = colors[idx as int];
    if ch == 0 {
        (c.r * 8) as u8
    } else if ch == 1 {
        (c.g * 8) as u8
    } else {
        (c.b * 8) as u8
    }
}

/// The whole rendered true-color image.
pub open spec fn rendered_map(m: NSCRView, pal: NCLRView, tiles: Seq<Seq<u8>>) -> Seq<u8> {
    Seq::new((3 * m.width * m.height) as nat, |p: int| rendered_byte(m, pal, tiles, p))
}

impl NSCR {
    /// Renders the tilemap to 24-bit true-color image data, three bytes
    /// per pixel in raster order, or `None` when a referenced palette
    /// slot, tile index or pixel index is out of range or the size is not
    /// a whole number of cells.
    #[verifier::rlimit(100)]
    pub fn render(&self, nclr: &NCLR, ncgr: &NCGR) -> (r: Option<Vec<u8>>)
        requires
            3 * self@.width * self@.height <= usize::MAX,
        ensures
            match r {
                Some(buf) => render_ok(
                    self@,
                    nclr@,
                    to_tiles_spec(ncgr@.tiles, ncgr@.is_8_bit),
                ) && buf@ == rendered_map(
                    self@,
                    nclr@,
                    to_tiles_spec(ncgr@.tiles, ncgr@.is_8_bit),
                ),
                None => !render_ok(self@, nclr@, to_tiles_spec(ncgr@.tiles, ncgr@.is_8_bit)),
            },
    {
        let ghost spec_tiles = to_tiles_spec(ncgr@.tiles, ncgr@.is_8_bit);
        let tiles = ncgr.tiles.to_tiles(ncgr.is_8_bit);
        proof {
            assert(groups_of(tiles@) == spec_tiles);
            assert forall|k: int| 0 <= k < tiles@.len() implies spec_tiles[k]
                == (#[trigger] tiles@[k])@ by {
                assert(groups_of(tiles@)[k] == tiles@[k]@);
            }
        }
        if self.width % 8 != 0 || self.height % 8 != 0 {
            return None;
        }
        let w8 = (self.width / 8) as usize;
        let h8 = (self.height / 8) as usize;
        proof {
            assert(w8 * h8 <= 0x2000 * 0x2000) by (nonlinear_arith)
                requires
                    w8 <= 0x2000 && h8 <= 0x2000,
            ;
        }
        if self.tiles.len() != w8 * h8 {
            return None;
        }
        // validate every reference before touching any pixel
        let nrefs = self.tiles.len();
        let mut r: usize = 0;
        while r < nrefs
            invariant
                nrefs == self.tiles@.len(),
                r <= nrefs,
                spec_tiles == to_tiles_spec(ncgr@.tiles, ncgr@.is_8_bit),
                groups_of(tiles@) == spec_tiles,
                forall|k: int| 0 <= k < tiles@.len() ==> spec_tiles[k] == (#[trigger] tiles@[k])@,
                forall|k: int| 0 <= k < r ==> ref_ok(#[trigger] self.tiles@[k], nclr@, spec_tiles),
            decreases nrefs - r,
        {
            let tr = self.tiles[r];
            if tr.tile as usize >= tiles.len() {
                return None;
            }
            let tile = &tiles[tr.tile as usize];
            if tile.len() != 64 {
                return None;
            }
            let pi = match nclr.find_palette(tr.palette as u16) {
                Some(pi) => pi,
                None => {
                    return None;
                },
            };
            let colors = &nclr.palettes[pi].1;
            proof {
                assert(nclr@.palettes[pi as int].1 == colors@);
            }
            let mut k: usize = 0;
            while k < 64
                invariant
                    r < nrefs,
                    nrefs == self.tiles@.len(),
                    spec_tiles == to_tiles_spec(ncgr@.tiles, ncgr@.is_8_bit),
                    tile@.len() == 64,
                    tile@ == spec_tiles[self.tiles@[r as int].tile as int],
                    colors@ == nclr@.palettes[pal_index(
                        nclr@.palettes,
                        self.tiles@[r as int].palette as u16,
                        0,
                    )->Some_0].1,
                    k <= 64,
                    forall|q: int|
                        0 <= q < k ==> (#[trigger] tile@[q]) < colors@.len() && colors@[tile@[q] as int].wf(),
                decreases 64 - k,
            {
                let idx = tile[k];
                if idx as usize >= colors.len() {
                    proof {
                        assert(spec_tiles[self.tiles@[r as int].tile as int][k as int]
                            >= colors@.len());
                        assert(!ref_ok(self.tiles@[r as int], nclr@, spec_tiles));
                        assert(self@.tiles[r as int] == self.tiles@[r as int]);
                        assert(!render_ok(self@, nclr@, spec_tiles));
                    }
                    return None;
                }
                let c = colors[idx as usize];
                if !(c.r < 32 && c.g < 32 && c.b < 32) {
                    proof {
                        assert(!colors@[spec_tiles[self.tiles@[r as int].tile as int][k as int] as int].wf());
                        assert(!ref_ok(self.tiles@[r as int], nclr@, spec_tiles));
                        assert(self@.tiles[r as int] == self.tiles@[r as int]);
                        assert(!render_ok(self@, nclr@, spec_tiles));
                    }
                    return None;
                }
                k = k + 1;
            }
            r = r + 1;
            proof {
                assert(ref_ok(self.tiles@[r - 1], nclr@, spec_tiles));
            }
        }
        // paint, three bytes per pixel in raster order
        let w = self.width as usize;
        let h = self.height as usize;
        let ghost total = 3 * w * h;
        let mut out: Vec<u8> = Vec::new();
        let mut y: usize = 0;
        proof {
            assert(render_ok(self@, nclr@, spec_tiles));
            assert(rendered_map(self@, nclr@, spec_tiles).len() == total);
        }
        while y < h
            invariant
                w == self@.width && h == self@.height,
                w % 8 == 0 && h % 8 == 0,
                w8 == w as int / 8 && h8 == h as int / 8,
                nrefs == self.tiles@.len(),
                nrefs == w8 * h8,
                3 * w * h <= usize::MAX,
                total == 3 * w * h,
                render_ok(self@, nclr@, spec_tiles),
                spec_tiles == to_tiles_spec(ncgr@.tiles, ncgr@.is_8_bit),
                groups_of(tiles@) == spec_tiles,
                forall|k: int| 0 <= k < tiles@.len() ==> spec_tiles[k] == (#[trigger] tiles@[k])@,
                y <= h,
                out@.len() == y * (3 * w),
                out@ =~= rendered_map(self@, nclr@, spec_tiles).subrange(0, (y * (3 * w)) as int),
            decreases h - y,
        {
            proof {
                assert(y * (3 * w) + 3 * w <= h * (3 * w) && h * (3 * w) == total)
                    by (nonlinear_arith)
                    requires
                        y < h && w >= 0 && total == 3 * w * h,
                ;
            }
            let mut x: usize = 0;
            while x < w
                invariant
                    w == self@.width && h == self@.height,
                    w % 8 == 0 && h % 8 == 0,
                    w8 == w as int / 8 && h8 == h as int / 8,
                    nrefs == self.tiles@.len(),
                    nrefs == w8 * h8,
                    3 * w * h <= usize::MAX,
                    total == 3 * w * h,
                    y * (3 * w) + 3 * w <= total,
                    render_ok(self@, nclr@, spec_tiles),
                    spec_tiles == to_tiles_spec(ncgr@.tiles, ncgr@.is_8_bit),
                    groups_of(tiles@) == spec_tiles,
                    forall|k: int|
                        0 <= k < tiles@.len() ==> spec_tiles[k] == (#[trigger] tiles@[k])@,
                    y < h,
                    x <= w,
                    out@.len() == y * (3 * w) + 3 * x,
                    out@ =~= rendered_map(self@, nclr@, spec_tiles).subrange(
                        0,
                        (y * (3 * w) + 3 * x) as int,
                    ),
                decreases w - x,
            {
                let ry = y / 8;
                let rx = x / 8;
                proof {
                    vstd::arithmetic::div_mod::lemma_multiply_divide_lt(y as int, 8, h8 as int);
                    assert(8 * (h8 as int) == h) by (nonlinear_arith)
                        requires
                            h8 == h as int / 8 && h % 8 == 0 && h >= 0,
                    ;
                    vstd::arithmetic::div_mod::lemma_multiply_divide_lt(x as int, 8, w8 as int);
                    assert(8 * (w8 as int) == w) by (nonlinear_arith)
                        requires
                            w8 == w as int / 8 && w % 8 == 0 && w >= 0,
                    ;
                    assert(ry < h8 && rx < w8);
                    assert(ry * w8 + rx < h8 * w8 && h8 * w8 == w8 * h8) by (nonlinear_arith)
                        requires
                            ry < h8 && rx < w8 && w8 >= 1,
                    ;
                }
                let ridx = ry * w8 + rx;
                let tr = self.tiles[ridx];
                proof {
                    assert(ref_ok(self.tiles@[ridx as int], nclr@, spec_tiles));
                }
                let tile = &tiles[tr.tile as usize];
                let pi = match nclr.find_palette(tr.palette as u16) {
                    Some(pi) => pi,
                    None => {
                        proof {
                            assert(false);
                        }
                        return None;
                    },
                };
                let colors = &nclr.palettes[pi].1;
                proof {
                    assert(nclr@.palettes[pi as int].1 == colors@);
                    assert(tile@ == spec_tiles[tr.tile as int]);
                }
                let jj = y % 8;
                let ii = x % 8;
                let j = if tr.flip_y { 7 - jj } else { jj };
                let i = if tr.flip_x { 7 - ii } else { ii };
                let idx = tile[j * 8 + i];
                let c = colors[idx as usize];
                let p = out.len();
                proof {
                    let pint = p as int;
                    let wi = w as int;
                    let pix = y * wi + x;
                    assert(pint == pix * 3 && 0 <= pix) by (nonlinear_arith)
                        requires
                            pint == y * (3 * wi) + 3 * x && pix == y * wi + x && 0 <= x && 0 <= y
                                && wi >= 0,
                    ;
                    vstd::arithmetic::div_mod::lemma_fundamental_div_mod_converse(pint, 3, pix, 0);
                    vstd::arithmetic::div_mod::lemma_fundamental_div_mod_converse(
                        pix,
                        wi,
                        y as int,
                        x as int,
                    );
                    assert(pint / 3 == pix && pint % 3 == 0);
                    assert(pix / wi == y && pix % wi == x);
                    assert(rendered_byte(self@, nclr@, spec_tiles, pint) == (c.r * 8) as u8);
                    assert(rendered_byte(self@, nclr@, spec_tiles, pint + 1) == (c.g * 8) as u8)
                        by {
                        vstd::arithmetic::div_mod::lemma_fundamental_div_mod_converse(
                            pint + 1,
                            3,
                            pix,
                            1,
                        );
                    }
                    assert(rendered_byte(self@, nclr@, spec_tiles, pint + 2) == (c.b * 8) as u8)
                        by {
                        vstd::arithmetic::div_mod::lemma_fundamental_div_mod_converse(
                            pint + 2,
                            3,
                            pix,
                            2,
                        );
                    }
                    assert(c.wf());
                }
                out.push(c.r * 8);
                out.push(c.g * 8);
                out.push(c.b * 8);
                x = x + 1;
                proof {
                    assert(out@ =~= rendered_map(self@, nclr@, spec_tiles).subrange(
                        0,
                        (y * (3 * w) + 3 * x) as int,
                    ));
                }
            }
            y = y + 1;
            proof {
                assert(y * (3 * w) == (y - 1) * (3 * w) + 3 * w) by (nonlinear_arith);
            }
        }
        proof {
            assert(h * (3 * w) == total) by (nonlinear_arith)
                requires
                    total == 3 * w * h,
            ;
            assert(out@ =~= rendered_map(self@, nclr@, spec_tiles));
        }
        Some(out)
    }
}

/// The 64 colors of the 8x8 cell of a flat color raster whose top-left
/// pixel is `(x, y)`.
pub open spec fn color_cell_at(img: Seq<ColorBGR555>, w: int, x: int, y: int) -> Seq<ColorBGR555> {
    Seq::new(64, |k: int| img[(x + k % 8) + (y + k / 8) * w])
}

/// The 8x8 cells of a flat color raster, in raster order.
pub open spec fn color_cells_of(img: Seq<ColorBGR555>, w: int, h: int) -> Seq<Seq<ColorBGR555>> {
    Seq::new(
        ((w / 8) * (h / 8)) as nat,
        |t: int| color_cell_at(img, w, (t % (w / 8)) * 8, (t / (w / 8)) * 8),
    )
}

impl NSCR {
    /// Builds a tilemap from a raw color raster: the raster is cut into
    /// 8x8 cells and deduplicated exactly as the tile fixer does, and the
    /// resulting references (all on palette slot 0) become the map.
    pub fn gritify(img: Vec<ColorBGR555>, size: [usize; 2]) -> (r: NSCR)
        requires
            size@[0] % 8 == 0,
            size@[1] % 8 == 0,
            size@[0] <= u16::MAX,
            size@[1] <= u16::MAX,
            (size@[0] as int / 8) * (size@[1] as int / 8) < 0x10000,
            img@.len() == size@[0] * size@[1],
        ensures
            r@.width == size@[0] as u16,
            r@.height == size@[1] as u16,
            r@.tiles == crate::tile_fixer::extract_spec(
                color_cells_of(img@, size@[0] as int, size@[1] as int),
                0,
                Seq::empty(),
                Seq::empty(),
            ).1,
    {
        let w = size[0];
        let h = size[1];
        let ilen = img.len();
        let w8 = w / 8;
        let h8 = h / 8;
        let ghost cv = color_cells_of(img@, w as int, h as int);
        proof {
            assert(w8 * h8 <= 0x2000 * 0x2000) by (nonlinear_arith)
                requires
                    w8 <= 0x2000 && h8 <= 0x2000,
            ;
            assert(cv.len() == w8 * h8);
        }
        let mut cells: Vec<crate::tile_fixer::FixerTile> = Vec::new();
        let mut ty: usize = 0;
        while ty < h8
            invariant
                w == size@[0] && h == size@[1],
                w % 8 == 0 && h % 8 == 0,
                w8 == w as int / 8 && h8 == h as int / 8,
                w8 * h8 <= 0x2000 * 0x2000,
                img@.len() == w * h,
                ilen == img@.len(),
                cv == color_cells_of(img@, w as int, h as int),
                cv.len() == w8 * h8,
                ty <= h8,
                cells@.len() == ty * w8,
                forall|q: int|
                    0 <= q < cells@.len() ==> (#[trigger] cells@[q])@.wf() && cells@[q]@.pixels
                        == cv[q],
            decreases h8 - ty,
        {
            proof {
                assert(ty * w8 + w8 <= h8 * w8 && h8 * w8 == w8 * h8) by (nonlinear_arith)
                    requires
                        ty < h8 && w8 >= 0,
                ;
            }
            let mut tx: usize = 0;
            while tx < w8
                invariant
                    w == size@[0] && h == size@[1],
                    w % 8 == 0 && h % 8 == 0,
                    w8 == w as int / 8 && h8 == h as int / 8,
                    img@.len() == w * h,
                    ilen == img@.len(),
                    cv == color_cells_of(img@, w as int, h as int),
                    cv.len() == w8 * h8,
                    ty < h8,
                    tx <= w8,
                    ty * w8 + w8 <= w8 * h8,
                    cells@.len() == ty * w8 + tx,
                    forall|q: int|
                        0 <= q < cells@.len() ==> (#[trigger] cells@[q])@.wf() && cells@[q]@.pixels
                            == cv[q],
                decreases w8 - tx,
            {
                proof {
                    assert(tx * 8 + 8 <= w8 * 8 && w8 * 8 <= w) by (nonlinear_arith)
                        requires
                            tx < w8 && w8 == w as int / 8 && w % 8 == 0 && w >= 0,
                    ;
                    assert(ty * 8 + 8 <= h8 * 8 && h8 * 8 <= h) by (nonlinear_arith)
                        requires
                            ty < h8 && h8 == h as int / 8 && h % 8 == 0 && h >= 0,
                    ;
                }
                let x0 = tx * 8;
                let y0 = ty * 8;
                let mut pixels: Vec<ColorBGR555> = Vec::new();
                let mut j: usize = 0;
                while j < 8
                    invariant
                        img@.len() == w * h,
                        ilen == img@.len(),
                        x0 + 8 <= w,
                        y0 + 8 <= h,
                        j <= 8,
                        pixels@.len() == j * 8,
                        pixels@ =~= color_cell_at(img@, w as int, x0 as int, y0 as int).subrange(
                            0,
                            (j * 8) as int,
                        ),
                    decreases 8 - j,
                {
                    let mut i: usize = 0;
                    while i < 8
                        invariant
                            img@.len() == w * h,
                            ilen == img@.len(),
                            x0 + 8 <= w,
                            y0 + 8 <= h,
                            j < 8,
                            i <= 8,
                            pixels@.len() == j * 8 + i,
                            pixels@ =~= color_cell_at(
                                img@,
                                w as int,
                                x0 as int,
                                y0 as int,
                            ).subrange(0, (j * 8 + i) as int),
                        decreases 8 - i,
                    {
                        proof {
                            assert((x0 + i) + (y0 + j) * w < w * h) by (nonlinear_arith)
                                requires
                                    x0 + i < w && y0 + j < h && w >= 0,
                            ;
                            let k = (j * 8 + i) as int;
                            assert(k / 8 == j && k % 8 == i) by (nonlinear_arith)
                                requires
                                    0 <= i < 8 && 0 <= j && k == j * 8 + i,
                            ;
                        }
                        let c = img[(x0 + i) + (y0 + j) * w];
                        pixels.push(c);
                        i = i + 1;
                        proof {
                            assert(pixels@ =~= color_cell_at(
                                img@,
                                w as int,
                                x0 as int,
                                y0 as int,
                            ).subrange(0, (j * 8 + i) as int));
                        }
                    }
                    j = j + 1;
                }
                proof {
                    assert(color_cell_at(img@, w as int, x0 as int, y0 as int).subrange(
                        0,
                        64,
                    ) =~= color_cell_at(img@, w as int, x0 as int, y0 as int));
                    let q = (ty * w8 + tx) as int;
                    vstd::arithmetic::div_mod::lemma_fundamental_div_mod_converse(
                        q,
                        w8 as int,
                        ty as int,
                        tx as int,
                    );
                    assert(q / (w8 as int) == ty && q % (w8 as int) == tx);
                    assert(cv[q] == color_cell_at(img@, w as int, x0 as int, y0 as int));
                }
                cells.push(crate::tile_fixer::FixerTile { pixels, pal: 0 });
                tx = tx + 1;
            }
            ty = ty + 1;
            proof {
                assert(ty * w8 == (ty - 1) * w8 + w8) by (nonlinear_arith);
            }
        }
        proof {
            assert(cells@.len() == cv.len()) by {
                assert(h8 * w8 == w8 * h8) by (nonlinear_arith);
            }
            assert(crate::tile_fixer::fixer_views(cells@) =~= cv);
            assert(cv.len() < 0x10000);
        }
        let (_tiles, refs) = crate::tile_fixer::extract_tiles(&cells);
        NSCR { width: w as u16, height: h as u16, tiles: refs }
    }
}

/// The screen-data section of an encoded valid resource parses back to
/// the same size and references.
pub proof fn lemma_nrcs_round_trip(x: NSCRView, o: ByteOrder)
    requires
        x.wf(),
    ensures
        parse_nrcs(nrcs_contents(x, o), o) == Ok::<(u16, u16, Seq<TileRef>), NscrErr>(
            (x.width, x.height, x.tiles),
        ),
{
    let c = nrcs_contents(x, o);
    let n = x.tiles.len() as int;
    let words = ref_words(x.tiles);
    let wb = u16s_bytes(words, o);
    lemma_u16s_bytes_len(words, o);
    let a = u16_bytes(x.width, o);
    let b = u16_bytes(x.height, o);
    let d3 = u32_bytes(0u32, o);
    let d4 = u32_bytes((2 * n) as u32, o);
    assert(c == a + b + d3 + d4 + wb);
    assert(c.len() == 12 + 2 * n);
    lemma_u16_round_trip(x.width, o);
    lemma_u16_round_trip(x.height, o);
    lemma_u32_round_trip((2 * n) as u32, o);
    assert(c[0] == a[0] && c[1] == a[1] && c[2] == b[0] && c[3] == b[1]);
    assert(spec_u16(c[0], c[1], o) == x.width && spec_u16(c[2], c[3], o) == x.height);
    assert(c[8] == d4[0] && c[9] == d4[1] && c[10] == d4[2] && c[11] == d4[3]);
    assert(spec_u32(c[8], c[9], c[10], c[11], o) == 2 * n);
    assert((2 * n) / 2 == n);
    assert forall|k: int| 0 <= k < wb.len() implies c[12 + k] == wb[k] by {
        assert(c[12 + k] == (a + b + d3 + d4 + wb)[12 + k]);
    }
    assert(c.subrange(12, 12 + 2 * n) =~= wb);
    lemma_parse_u16s_of_encoded(c, 12, words, o);
    let got = parse_nrcs(c, o)->Ok_0;
    assert(parse_nrcs(c, o) is Ok);
    assert(got.0 == x.width && got.1 == x.height);
    assert forall|i: int| 0 <= i < n implies #[trigger] got.2[i] == x.tiles[i] by {
        assert(parse_u16s(c, 12, n, o)[i] == words[i]);
        assert(words[i] == x.tiles[i].spec_word());
        lemma_tile_ref_round_trip(x.tiles[i]);
    }
    assert(got.2 =~= x.tiles);
}

/// Round-trip exactness for tilemap resources: decoding an encoded valid
/// resource yields it back field-for-field, reference order included.
pub proof fn lemma_nscr_round_trip(x: NSCRView, fname: Seq<char>, o: ByteOrder)
    requires
        x.wf(),
    ensures
        spec_parse_nscr(spec_nscr_file(x, fname, o)) == Ok::<NSCRView, NscrErr>(x),
{
    let f = spec_nscr_file(x, fname, o);
    lemma_nrcs_round_trip(x, o);
    let ss = f.sections;
    assert(ss[0].magic == nrcs_magic() && ss[0].contents == nrcs_contents(x, o));
    assert(ss.drop_first() =~= Seq::<SectionView>::empty());
    let out = nscr_scan(ss, o, None);
    assert(out == nscr_scan(ss.drop_first(), o, Some((x.width, x.height, x.tiles))));
    assert(out == Ok::<NSCRView, NscrErr>(NSCRView { width: x.width, height: x.height, tiles: x.tiles }));
}

} // verus!
