use vstd::prelude::*;

use crate::bytes::{
    copy_bytes, get_u16, get_u32, lemma_u16_round_trip, lemma_u32_round_trip, put_u16, put_u32,
    spec_u16, spec_u32, u16_bytes, u32_bytes, ByteOrder,
};
use crate::error::Error;
use crate::ndsfile::{tag4, tag_eq, NDSFile, NDSFileView, Section, SectionView};

verus! {

/// One 8-by-8 tile as 64 palette indices, one byte per pixel, row-major.
pub type Tile = Vec<u8>;

/// NCGR (Nintendo Character Graphics Resource) / NCBR tileset format.
#[derive(Debug, Clone)]
pub struct NCGR {
    /// The tile data, in one of its two on-disk layouts.
    pub tiles: NCGRTiles,
    /// Whether the file uses 8-bit color (true) or 4-bit color (false).
    pub is_8_bit: bool,
    /// Whether the file carries the optional positioning section.
    pub has_cpos: bool,
    /// Whether the file stored its tile count as the 0xFFFF sentinel, so
    /// that re-encoding reproduces it.
    pub ncbr_ff: bool,
}

/// Tile data in one of two layouts.
#[derive(Debug, Clone)]
pub enum NCGRTiles {
    /// Pixel data not split into tiles: one flat buffer of on-disk bytes.
    Lineal(Vec<u8>),
    /// Pixel data split into 8x8 tiles of 64 indices each.
    Horizontal(Vec<Tile>),
}

/// Mathematical image of [`NCGRTiles`].
pub enum NCGRTilesView {
    Lineal(Seq<u8>),
    Horizontal(Seq<Seq<u8>>),
}

impl View for NCGRTiles {
    type V = NCGRTilesView;

    open spec fn view(&self) -> NCGRTilesView {
        match self {
            NCGRTiles::Lineal(c) => NCGRTilesView::Lineal(c@),
            NCGRTiles::Horizontal(ts) => NCGRTilesView::Horizontal(
                Seq::new(ts@.len(), |i: int| ts@[i]@),
            ),
        }
    }
}

/// Mathematical image of an [`NCGR`].
pub struct NCGRView {
    pub tiles: NCGRTilesView,
    pub is_8_bit: bool,
    pub has_cpos: bool,
    pub ncbr_ff: bool,
}

impl View for NCGR {
    type V = NCGRView;

    open spec fn view(&self) -> NCGRView {
        NCGRView {
            tiles: self.tiles@,
            is_8_bit: self.is_8_bit,
            has_cpos: self.has_cpos,
            ncbr_ff: self.ncbr_ff,
        }
    }
}

/// Bytes one tile occupies on disk: 64 in 8-bit mode, 32 (two pixels per
/// byte) in 4-bit mode.
pub open spec fn tile_size_on_disk(is8: bool) -> int {
    if is8 {
        0x40
    } else {
        0x20
    }
}

impl NCGRView {
    /// Validity: every tile holds 64 one-byte indices (below 16 in 4-bit
    /// mode); a flat buffer holds whole tiles only; counts and sizes fit
    /// their on-disk fields.
    pub open spec fn wf(self) -> bool {
        let ts = tile_size_on_disk(self.is_8_bit);
        &&& match self.tiles {
            NCGRTilesView::Horizontal(tiles) => {
                &&& tiles.len() <= u16::MAX
                &&& 48 + tiles.len() * ts <= u32::MAX
                &&& (forall|i: int| 0 <= i < tiles.len() ==> (#[trigger] tiles[i]).len() == 64)
                &&& (self.is_8_bit || (forall|i: int, j: int|
                    0 <= i < tiles.len() && 0 <= j < 64 ==> self.tiles->Horizontal_0[i][j] < 16))
            },
            NCGRTilesView::Lineal(c) => {
                &&& c.len() % ts as nat == 0
                &&& c.len() / ts as nat <= u16::MAX
                &&& 48 + c.len() <= u32::MAX
            },
        }
        &&& (!self.ncbr_ff ==> self.tile_count() < 0xFFFF)
    }

    /// The number of tiles the data holds.
    pub open spec fn tile_count(self) -> int {
        match self.tiles {
            NCGRTilesView::Horizontal(tiles) => tiles.len() as int,
            NCGRTilesView::Lineal(c) => c.len() as int / tile_size_on_disk(self.is_8_bit),
        }
    }
}

/// The `RGCN` container magic of tileset files.
pub open spec fn ncgr_magic() -> Seq<u8> {
    seq![0x52u8, 0x47u8, 0x43u8, 0x4Eu8]
}

/// The `RAHC` tag of the character-data section.
pub open spec fn rahc_magic() -> Seq<u8> {
    seq![0x52u8, 0x41u8, 0x48u8, 0x43u8]
}

/// The `SOPC` tag of the optional positioning section.
pub open spec fn sopc_magic() -> Seq<u8> {
    seq![0x53u8, 0x4Fu8, 0x50u8, 0x43u8]
}

/// Splits every byte into its two 4-bit indices, low nibble first.
pub open spec fn unpack_nibbles(bs: Seq<u8>) -> Seq<u8> {
    Seq::new(
        2 * bs.len(),
        |k: int|
            if k % 2 == 0 {
                (bs[k / 2] % 16) as u8
            } else {
                (bs[k / 2] / 16) as u8
            },
    )
}

/// Joins pairs of 4-bit indices back into bytes, low nibble first.
pub open spec fn pack_nibbles(px: Seq<u8>) -> Seq<u8> {
    Seq::new(px.len() / 2, |i: int| (px[2 * i] % 16 + (px[2 * i + 1] % 16) * 16) as u8)
}

/// Packing the two nibbles of any byte back together yields that byte:
/// the 4-bit unpack/pack pair is an exact inverse.
pub proof fn lemma_pack_unpack(bs: Seq<u8>)
    ensures
        pack_nibbles(unpack_nibbles(bs)) == bs,
{
    let un = unpack_nibbles(bs);
    assert forall|i: int| 0 <= i < bs.len() implies #[trigger] pack_nibbles(un)[i] == bs[i] by {
        assert(un[2 * i] == bs[i] % 16);
        assert(un[2 * i + 1] == bs[i] / 16);
        assert(bs[i] % 16 + (bs[i] / 16 % 16) * 16 == bs[i]) by (nonlinear_arith);
    }
    assert(pack_nibbles(un) =~= bs);
}

/// Unpacking packed 4-bit indices yields them back, provided each index
/// fits in 4 bits.
pub proof fn lemma_unpack_pack(px: Seq<u8>)
    requires
        px.len() % 2 == 0,
        forall|i: int| 0 <= i < px.len() ==> px[i] < 16,
    ensures
        unpack_nibbles(pack_nibbles(px)) == px,
{
    let pk = pack_nibbles(px);
    assert forall|k: int| 0 <= k < px.len() implies #[trigger] unpack_nibbles(pk)[k] == px[k] by {
        let i = k / 2;
        assert(0 <= i < pk.len());
        assert(pk[i] == px[2 * i] % 16 + (px[2 * i + 1] % 16) * 16);
        assert(px[2 * i] < 16 && px[2 * i + 1] < 16);
        assert((px[2 * i] + px[2 * i + 1] * 16) % 16 == px[2 * i] && (px[2 * i] + px[2 * i + 1]
            * 16) / 16 == px[2 * i + 1]) by (nonlinear_arith)
            requires
                px[2 * i] < 16 && px[2 * i + 1] < 16,
        ;
        if k % 2 == 0 {
            assert(k == 2 * i);
        } else {
            assert(k == 2 * i + 1);
        }
    }
    assert(unpack_nibbles(pk) =~= px);
}

/// One tile's on-disk bytes: the indices verbatim in 8-bit mode, packed
/// two to a byte in 4-bit mode.
pub open spec fn tile_bytes(t: Seq<u8>, is8: bool) -> Seq<u8> {
    if is8 {
        t
    } else {
        pack_nibbles(t)
    }
}

/// All tiles' on-disk bytes, in order.
pub open spec fn tiles_data(ts: Seq<Seq<u8>>, is8: bool) -> Seq<u8>
    decreases ts.len(),
{
    if ts.len() == 0 {
        Seq::empty()
    } else {
        tile_bytes(ts[0], is8) + tiles_data(ts.drop_first(), is8)
    }
}

/// Appending one tile appends its bytes.
pub proof fn lemma_tiles_data_snoc(ts: Seq<Seq<u8>>, t: Seq<u8>, is8: bool)
    ensures
        tiles_data(ts.push(t), is8) == tiles_data(ts, is8) + tile_bytes(t, is8),
    decreases ts.len(),
{
    if ts.len() == 0 {
        assert(ts.push(t).drop_first() =~= Seq::<Seq<u8>>::empty());
        assert(tiles_data(ts.push(t).drop_first(), is8) == Seq::<u8>::empty());
        assert(ts.push(t)[0] == t);
        assert(tiles_data(ts.push(t), is8) =~= tiles_data(ts, is8) + tile_bytes(t, is8));
    } else {
        assert(ts.push(t).drop_first() =~= ts.drop_first().push(t));
        lemma_tiles_data_snoc(ts.drop_first(), t, is8);
        assert(ts.push(t)[0] == ts[0]);
        assert(tiles_data(ts.push(t), is8) == tile_bytes(ts[0], is8) + (tiles_data(
            ts.drop_first(),
            is8,
        ) + tile_bytes(t, is8)));
        assert(tiles_data(ts.push(t), is8) =~= tiles_data(ts, is8) + tile_bytes(t, is8));
    }
}

/// With every tile holding 64 indices, tile `i`'s bytes start at
/// `i * tile_size`.
pub proof fn lemma_tiles_data_len(ts: Seq<Seq<u8>>, is8: bool)
    requires
        forall|i: int| 0 <= i < ts.len() ==> (#[trigger] ts[i]).len() == 64,
    ensures
        tiles_data(ts, is8).len() == ts.len() * tile_size_on_disk(is8),
    decreases ts.len(),
{
    if ts.len() != 0 {
        let rest = ts.drop_first();
        assert(forall|i: int| 0 <= i < rest.len() ==> (#[trigger] rest[i]).len() == 64);
        lemma_tiles_data_len(rest, is8);
        let n = ts.len() as int;
        let z = tile_size_on_disk(is8);
        assert(tile_bytes(ts[0], is8).len() == z);
        assert(n * z == z + (n - 1) * z) by (nonlinear_arith);
    }
}

/// Tile `i` occupies bytes `i * tile_size` up to `(i + 1) * tile_size` of
/// the run.
pub proof fn lemma_tiles_data_index(ts: Seq<Seq<u8>>, is8: bool, i: int)
    requires
        forall|k: int| 0 <= k < ts.len() ==> (#[trigger] ts[k]).len() == 64,
        0 <= i < ts.len(),
    ensures
        tiles_data(ts, is8).subrange(
            i * tile_size_on_disk(is8),
            (i + 1) * tile_size_on_disk(is8),
        ) == tile_bytes(ts[i], is8),
    decreases i,
{
    let z = tile_size_on_disk(is8);
    lemma_tiles_data_len(ts, is8);
    let all = tiles_data(ts, is8);
    if i == 0 {
        assert(tile_bytes(ts[0], is8).len() == z);
        assert(all == tile_bytes(ts[0], is8) + tiles_data(ts.drop_first(), is8));
        assert(all.subrange(0, z) =~= tile_bytes(ts[0], is8));
    } else {
        let rest = ts.drop_first();
        assert(forall|k: int| 0 <= k < rest.len() ==> (#[trigger] rest[k]).len() == 64);
        lemma_tiles_data_index(rest, is8, i - 1);
        lemma_tiles_data_len(rest, is8);
        assert(rest[i - 1] == ts[i]);
        assert(i * z == z + (i - 1) * z && (i + 1) * z == z + i * z && i * z >= z && (i + 1) * z
            <= ts.len() * z) by (nonlinear_arith)
            requires
                1 <= i < ts.len() && z > 0,
        ;
        let head = tile_bytes(ts[0], is8);
        assert(head.len() == z);
        assert(all == head + tiles_data(rest, is8));
        assert(all.subrange(i * z, (i + 1) * z) =~= tiles_data(rest, is8).subrange(
            (i - 1) * z,
            i * z,
        ));
    }
}

/// The two tile-count header fields: the 0xFFFF sentinel twice when the
/// resource was marked as the legacy variant, else the count and 1.
pub open spec fn rahc_count_fields(x: NCGRView, o: ByteOrder) -> Seq<u8> {
    if x.ncbr_ff {
        u16_bytes(0xFFFF, o) + u16_bytes(0xFFFF, o)
    } else {
        u16_bytes(x.tile_count() as u16, o) + u16_bytes(1, o)
    }
}

/// The raw tile bytes the data region carries.
pub open spec fn rahc_data(x: NCGRView) -> Seq<u8> {
    match x.tiles {
        NCGRTilesView::Horizontal(tiles) => tiles_data(tiles, x.is_8_bit),
        NCGRTilesView::Lineal(c) => c,
    }
}

/// Contents of the character-data section: two count fields, depth
/// selector, padding, layout flag, data size, a reserved field, then the
/// tile bytes.
pub open spec fn rahc_contents(x: NCGRView, o: ByteOrder) -> Seq<u8> {
    rahc_count_fields(x, o) + u32_bytes(if x.is_8_bit { 4u32 } else { 3u32 }, o) + u32_bytes(0, o)
        + u32_bytes(
        if x.tiles is Lineal {
            1u32
        } else {
            0u32
        },
        o,
    ) + u32_bytes((x.tile_count() * tile_size_on_disk(x.is_8_bit)) as u32, o) + u32_bytes(0x18, o)
        + rahc_data(x)
}

/// Contents of the positioning section the encoder emits when the flag is
/// set: a fixed small header around the tile size and data size.
pub open spec fn sopc_contents(x: NCGRView, o: ByteOrder) -> Seq<u8> {
    u32_bytes(0, o) + u16_bytes(tile_size_on_disk(x.is_8_bit) as u16, o) + u32_bytes(
        (x.tile_count() * tile_size_on_disk(x.is_8_bit)) as u32,
        o,
    )
}

/// The whole container a tileset resource serializes to.
pub open spec fn spec_ncgr_file(x: NCGRView, fname: Seq<char>, o: ByteOrder) -> NDSFileView {
    NDSFileView {
        fname: fname,
        magic: ncgr_magic(),
        byteorder: o,
        sections: if x.has_cpos {
            seq![
                SectionView { magic: rahc_magic(), contents: rahc_contents(x, o) },
                SectionView { magic: sopc_magic(), contents: sopc_contents(x, o) },
            ]
        } else {
            seq![SectionView { magic: rahc_magic(), contents: rahc_contents(x, o) }]
        },
    }
}

impl NCGR {
    /// Serializes the tileset resource into a container, reproducing the
    /// sentinel count encoding when the flag is set and re-emitting the
    /// optional positioning section exactly when the resource carries it.
    pub fn to_ndsfile(&self, fname: String, o: ByteOrder) -> (r: Result<NDSFile, Error>)
        requires
            self@.wf(),
        ensures
            (r matches Ok(f) && f@ == spec_ncgr_file(self@, fname@, o)),
    {
        let mut char_buff: Vec<u8> = Vec::new();
        let count: usize;
        match &self.tiles {
            NCGRTiles::Horizontal(ts) => {
                count = ts.len();
            },
            NCGRTiles::Lineal(c) => {
                count = c.len() / (if self.is_8_bit { 0x40 } else { 0x20 });
            },
        }
        proof {
            assert(count == self@.tile_count());
        }
        if self.ncbr_ff {
            put_u16(&mut char_buff, 0xFFFF, o);
            put_u16(&mut char_buff, 0xFFFF, o);
        } else {
            put_u16(&mut char_buff, count as u16, o);
            put_u16(&mut char_buff, 1, o);
        }
        put_u32(&mut char_buff, if self.is_8_bit { 4 } else { 3 }, o);
        put_u32(&mut char_buff, 0, o);
        let tsize: usize = if self.is_8_bit { 0x40 } else { 0x20 };
        match &self.tiles {
            NCGRTiles::Horizontal(_) => put_u32(&mut char_buff, 0, o),
            NCGRTiles::Lineal(_) => put_u32(&mut char_buff, 1, o),
        }
        proof {
            if self@.tiles is Lineal {
                let c = self@.tiles->Lineal_0;
                vstd::arithmetic::div_mod::lemma_fundamental_div_mod(c.len() as int, tsize as int);
                assert(self@.tile_count() * tsize == c.len());
            }
        }
        put_u32(&mut char_buff, (count * tsize) as u32, o);
        put_u32(&mut char_buff, 0x18, o);
        let ghost pre = char_buff@;
        match &self.tiles {
            NCGRTiles::Horizontal(ts) => {
                proof {
                    assert(self@.tiles->Horizontal_0 =~= groups_of(ts@));
                    assert forall|k: int| 0 <= k < ts@.len() implies (#[trigger] ts@[k]@).len()
                        == 64 by {
                        assert(self@.tiles->Horizontal_0[k] == ts@[k]@);
                    }
                    assert forall|k: int, j: int|
                        !self.is_8_bit && 0 <= k < ts@.len() && 0 <= j
                            < 64 implies #[trigger] ts@[k]@[j] < 16 by {
                        assert(self@.tiles->Horizontal_0[k] == ts@[k]@);
                        assert(self@.tiles->Horizontal_0[k][j] < 16);
                    }
                }
                let mut i: usize = 0;
                while i < ts.len()
                    invariant
                        self@.wf(),
                        self@.tiles == NCGRTilesView::Horizontal(
                            Seq::new(ts@.len(), |k: int| ts@[k]@),
                        ),
                        i <= ts@.len(),
                        forall|k: int| 0 <= k < ts@.len() ==> (#[trigger] ts@[k]@).len() == 64,
                        forall|k: int, j: int|
                            !self.is_8_bit && 0 <= k < ts@.len() && 0 <= j < 64 ==> ts@[k]@[j]
                                < 16,
                        char_buff@ == pre + tiles_data(
                            groups_of(ts@).subrange(0, i as int),
                            self.is_8_bit,
                        ),
                    decreases ts@.len() - i,
                {
                    let t = &ts[i];
                    let ghost done = tiles_data(
                        groups_of(ts@).subrange(0, i as int),
                        self.is_8_bit,
                    );
                    proof {
                        assert(groups_of(ts@)[i as int] == t@);
                        assert(self@.tiles->Horizontal_0[i as int] == t@);
                    }
                    if self.is_8_bit {
                        let mut k: usize = 0;
                        while k < 64
                            invariant
                                t@.len() == 64,
                                k <= 64,
                                char_buff@ == pre + done + t@.subrange(0, k as int),
                            decreases 64 - k,
                        {
                            char_buff.push(t[k]);
                            k = k + 1;
                            proof {
                                assert(char_buff@ =~= pre + done + t@.subrange(0, k as int));
                            }
                        }
                        proof {
                            assert(t@.subrange(0, 64) =~= t@);
                            assert(tile_bytes(t@, true) == t@);
                        }
                    } else {
                        let mut k: usize = 0;
                        while k < 32
                            invariant
                                t@.len() == 64,
                                forall|j: int| 0 <= j < 64 ==> t@[j] < 16,
                                k <= 32,
                                char_buff@ == pre + done + pack_nibbles(t@).subrange(0, k as int),
                            decreases 32 - k,
                        {
                            let b = t[2 * k] + t[2 * k + 1] * 16;
                            char_buff.push(b);
                            k = k + 1;
                            proof {
                                assert(pack_nibbles(t@)[k - 1] == b);
                                assert(char_buff@ =~= pre + done + pack_nibbles(t@).subrange(
                                    0,
                                    k as int,
                                ));
                            }
                        }
                        proof {
                            assert(pack_nibbles(t@).subrange(0, 32) =~= pack_nibbles(t@));
                        }
                    }
                    i = i + 1;
                    proof {
                        lemma_tiles_data_snoc(
                            groups_of(ts@).subrange(0, i - 1),
                            t@,
                            self.is_8_bit,
                        );
                        assert(groups_of(ts@).subrange(0, i as int) =~= groups_of(
                            ts@,
                        ).subrange(0, i - 1).push(t@));
                        assert(char_buff@ =~= pre + tiles_data(
                            groups_of(ts@).subrange(0, i as int),
                            self.is_8_bit,
                        ));
                    }
                }
                proof {
                    assert(groups_of(ts@).subrange(0, ts@.len() as int) =~= groups_of(ts@));
                    assert(char_buff@ =~= rahc_contents(self@, o));
                }
            },
            NCGRTiles::Lineal(c) => {
                let mut k: usize = 0;
                while k < c.len()
                    invariant
                        k <= c@.len(),
                        char_buff@ == pre + c@.subrange(0, k as int),
                    decreases c@.len() - k,
                {
                    char_buff.push(c[k]);
                    k = k + 1;
                    proof {
                        assert(char_buff@ =~= pre + c@.subrange(0, k as int));
                    }
                }
                proof {
                    assert(c@.subrange(0, c@.len() as int) =~= c@);
                    assert(char_buff@ =~= rahc_contents(self@, o));
                }
            },
        }

        let mut sections: Vec<Section> = Vec::new();
        sections.push(Section { magic: tag4(0x52, 0x41, 0x48, 0x43), contents: char_buff });
        if self.has_cpos {
            let mut cpos_buff: Vec<u8> = Vec::new();
            put_u32(&mut cpos_buff, 0, o);
            put_u16(&mut cpos_buff, tsize as u16, o);
            put_u32(&mut cpos_buff, (count * tsize) as u32, o);
            proof {
                assert(cpos_buff@ =~= sopc_contents(self@, o));
            }
            sections.push(Section { magic: tag4(0x53, 0x4F, 0x50, 0x43), contents: cpos_buff });
        }
        let f = NDSFile { fname, magic: tag4(0x52, 0x47, 0x43, 0x4E), byteorder: o, sections };
        proof {
            assert(f@.sections =~= spec_ncgr_file(self@, fname@, o).sections);
            assert(f@ == spec_ncgr_file(self@, fname@, o));
        }
        Ok(f)
    }
}

/// Spec image of a vector of tiles.
pub open spec fn groups_of(ts: Seq<Tile>) -> Seq<Seq<u8>> {
    Seq::new(ts.len(), |i: int| ts[i]@)
}

/// What a character-data section denotes.
pub struct RahcModel {
    pub tiles: NCGRTilesView,
    pub is_8_bit: bool,
    pub ncbr_ff: bool,
}

/// The ways a tileset decode can fail.
pub enum NcgrErr {
    WrongKind,
    UnknownSection(Seq<u8>),
    UnknownFormat(u32),
    Truncated,
    MissingChar,
}

/// The tile count a character-data section declares: the product of the
/// two count fields, or, under the 0xFFFF sentinel, the data size divided
/// by the tile size (taken modulo the width of the on-disk count field).
pub open spec fn rahc_tile_count(a: u16, b: u16, ds: int, z: int) -> int {
    if a == 0xFFFF {
        (ds / z) % 0x10000
    } else {
        a * b
    }
}

/// Reads a character-data section.
pub open spec fn parse_rahc(c: Seq<u8>, o: ByteOrder) -> Result<RahcModel, NcgrErr> {
    if c.len() < 24 {
        Err(NcgrErr::Truncated)
    } else {
        let a = spec_u16(c[0], c[1], o);
        let b = spec_u16(c[2], c[3], o);
        let depth = spec_u32(c[4], c[5], c[6], c[7], o);
        if depth != 3 && depth != 4 {
            Err(NcgrErr::UnknownFormat(depth))
        } else {
            let is8 = depth == 4;
            let z = tile_size_on_disk(is8);
            let lineal = spec_u32(c[12], c[13], c[14], c[15], o) % 256 != 0;
            let ds = spec_u32(c[16], c[17], c[18], c[19], o) as int;
            let count = rahc_tile_count(a, b, ds, z);
            if 24 + count * z > c.len() {
                Err(NcgrErr::Truncated)
            } else {
                let tiles = if lineal {
                    NCGRTilesView::Lineal(c.subrange(24, 24 + count * z))
                } else if is8 {
                    NCGRTilesView::Horizontal(
                        Seq::new(count as nat, |i: int| c.subrange(24 + i * z, 24 + (i + 1) * z)),
                    )
                } else {
                    NCGRTilesView::Horizontal(
                        Seq::new(
                            count as nat,
                            |i: int| unpack_nibbles(c.subrange(24 + i * z, 24 + (i + 1) * z)),
                        ),
                    )
                };
                Ok(RahcModel { tiles, is_8_bit: is8, ncbr_ff: a == 0xFFFF })
            }
        }
    }
}

/// Walks the sections in order: the character data is decoded, the
/// positioning section only remembered, any other tag is an error.
pub open spec fn ncgr_scan(
    ss: Seq<SectionView>,
    o: ByteOrder,
    m: Option<RahcModel>,
    cpos: bool,
) -> Result<NCGRView, NcgrErr>
    decreases ss.len(),
{
    if ss.len() == 0 {
        match m {
            None => Err(NcgrErr::MissingChar),
            Some(mm) => Ok(
                NCGRView {
                    tiles: mm.tiles,
                    is_8_bit: mm.is_8_bit,
                    has_cpos: cpos,
                    ncbr_ff: mm.ncbr_ff,
                },
            ),
        }
    } else {
        let s = ss[0];
        if s.magic == rahc_magic() {
            match parse_rahc(s.contents, o) {
                Ok(mm) => ncgr_scan(ss.drop_first(), o, Some(mm), cpos),
                Err(e) => Err(e),
            }
        } else if s.magic == sopc_magic() {
            ncgr_scan(ss.drop_first(), o, m, true)
        } else {
            Err(NcgrErr::UnknownSection(s.magic))
        }
    }
}

/// The full tileset decode: magic check, then the section walk.
pub open spec fn spec_parse_ncgr(f: NDSFileView) -> Result<NCGRView, NcgrErr> {
    if f.magic != ncgr_magic() {
        Err(NcgrErr::WrongKind)
    } else {
        ncgr_scan(f.sections, f.byteorder, None, false)
    }
}

/// Which [`Error`] value each spec-level failure surfaces as.
pub open spec fn ncgr_err_matches(e: Error, k: NcgrErr, f: NDSFileView) -> bool {
    match k {
        NcgrErr::WrongKind => e matches Error::WrongFileKind { file, expected, got } && file@
            == f.fname && expected@ == ncgr_magic() && got@ == f.magic,
        NcgrErr::UnknownSection(tag) => e matches Error::UnknownSection { file, s_name } && file@
            == f.fname && s_name@ == tag,
        NcgrErr::UnknownFormat(v) => e matches Error::UnknownColorFormat { file, got } && file@
            == f.fname && got == v,
        NcgrErr::Truncated => e matches Error::TruncatedData { file } && file@ == f.fname,
        NcgrErr::MissingChar => e matches Error::MissingRequiredSection { file, s_name } && file@
            == f.fname && s_name@ == seq![0x43u8, 0x48u8, 0x41u8, 0x52u8],
    }
}

/// Spec image of the optional character-data state the decoder carries.
pub open spec fn rahc_model_of(m: Option<(NCGRTiles, bool, bool)>) -> Option<RahcModel> {
    match m {
        None => None,
        Some(mm) => Some(RahcModel { tiles: mm.0@, is_8_bit: mm.1, ncbr_ff: mm.2 }),
    }
}

impl NCGR {
    /// Decodes a tileset resource from a container, unpacking the
    /// bit-packed pixel indices into one byte per pixel.
    pub fn from_ndsfile(file: &NDSFile) -> (r: Result<NCGR, Error>)
        ensures
            match r {
                Ok(x) => spec_parse_ncgr(file@) == Ok::<NCGRView, NcgrErr>(x@),
                Err(e) => spec_parse_ncgr(file@) matches Err(k) && ncgr_err_matches(e, k, file@),
            },
    {
        let o = file.byteorder;
        if !tag_eq(&file.magic, 0x52, 0x47, 0x43, 0x4E) {
            return Err(Error::WrongFileKind {
                file: file.fname.clone(),
                expected: tag4(0x52, 0x47, 0x43, 0x4E),
                got: copy_bytes(&file.magic),
            });
        }
        let n_secs = file.sections.len();
        let mut m_st: Option<(NCGRTiles, bool, bool)> = None;
        let mut cpos: bool = false;
        let mut si: usize = 0;
        proof {
            assert(file@.sections.skip(0) =~= file@.sections);
        }
        while si < n_secs
            invariant
                n_secs == file.sections@.len(),
                si <= n_secs,
                o == file.byteorder,
                file@.magic == ncgr_magic(),
                ncgr_scan(file@.sections, o, None, false) == ncgr_scan(
                    file@.sections.skip(si as int),
                    o,
                    rahc_model_of(m_st),
                    cpos,
                ),
            decreases n_secs - si,
        {
            let sec = &file.sections[si];
            let ghost rem = file@.sections.skip(si as int);
            proof {
                assert(file@.sections[si as int] == sec@);
                assert(rem[0] == sec@);
                assert(rem.drop_first() =~= file@.sections.skip(si + 1));
            }
            if tag_eq(&sec.magic, 0x52, 0x41, 0x48, 0x43) {
                let c = &sec.contents;
                let clen = c.len();
                if clen < 24 {
                    return Err(Error::TruncatedData { file: file.fname.clone() });
                }
                let a = get_u16(c, 0, o);
                let b = get_u16(c, 2, o);
                let depth = get_u32(c, 4, o);
                if depth != 3 && depth != 4 {
                    return Err(Error::UnknownColorFormat { file: file.fname.clone(), got: depth });
                }
                let is8 = depth == 4;
                let z: usize = if is8 { 0x40 } else { 0x20 };
                let lineal = get_u32(c, 12, o) % 256 != 0;
                let ds = get_u32(c, 16, o);
                let count64: u64;
                if a == 0xFFFF {
                    count64 = (ds as u64 / z as u64) % 0x10000;
                } else {
                    proof {
                        assert((a as int) * (b as int) <= 0xFFFF * 0xFFFF) by (nonlinear_arith)
                            requires
                                a <= 0xFFFF && b <= 0xFFFF,
                        ;
                    }
                    count64 = a as u64 * b as u64;
                }
                let ncbr_ff = a == 0xFFFF;
                proof {
                    assert(count64 as int == rahc_tile_count(
                        a,
                        b,
                        ds as int,
                        tile_size_on_disk(is8),
                    ));
                    assert(count64 <= 0xFFFF * 0xFFFF && z <= 0x40);
                    assert((count64 as int) * (z as int) <= 0xFFFF * 0xFFFF * 0x40)
                        by (nonlinear_arith)
                        requires
                            count64 <= 0xFFFF * 0xFFFF && z as int <= 0x40 && count64 >= 0 && z
                                as int >= 0,
                    ;
                }
                let need: u64 = count64 * z as u64;
                if 24 + need > clen as u64 {
                    return Err(Error::TruncatedData { file: file.fname.clone() });
                }
                proof {
                    assert(count64 <= need) by (nonlinear_arith)
                        requires
                            need == count64 * (z as u64) && z as u64 >= 1 && count64 >= 0,
                    ;
                }
                let count = count64 as usize;
                let ghost mspec = parse_rahc(sec@.contents, o)->Ok_0;
                proof {
                    assert(parse_rahc(sec@.contents, o) is Ok);
                }
                let tiles: NCGRTiles;
                if lineal {
                    let total = count * z;
                    proof {
                        assert(count * z == count64 * (z as u64)) by (nonlinear_arith)
                            requires
                                count == count64 && z as u64 == z,
                        ;
                    }
                    let mut buf: Vec<u8> = Vec::new();
                    let mut k: usize = 0;
                    while k < total
                        invariant
                            k <= total,
                            clen == c@.len(),
                            24 + total <= clen,
                            buf@ =~= c@.subrange(24, 24 + k as int),
                        decreases total - k,
                    {
                        buf.push(c[24 + k]);
                        k = k + 1;
                        proof {
                            assert(buf@ =~= c@.subrange(24, 24 + k as int));
                        }
                    }
                    tiles = NCGRTiles::Lineal(buf);
                    proof {
                        assert(tiles@ == mspec.tiles);
                    }
                } else {
                    let total = count * z;
                    proof {
                        assert(count * z == count64 * (z as u64)) by (nonlinear_arith)
                            requires
                                count == count64 && z as u64 == z,
                        ;
                    }
                    let mut tvec: Vec<Tile> = Vec::new();
                    let mut i: usize = 0;
                    let ghost spec_tiles = mspec.tiles->Horizontal_0;
                    proof {
                        assert(spec_tiles.len() == count);
                    }
                    while i < count
                        invariant
                            i <= count,
                            total == count * z,
                            z == tile_size_on_disk(is8),
                            z == 0x40 <==> is8,
                            z == 0x40 || z == 0x20,
                            clen == c@.len(),
                            24 + total <= clen,
                            tvec@.len() == i,
                            spec_tiles.len() == count,
                            forall|k: int|
                                0 <= k < count ==> #[trigger] spec_tiles[k] == (if is8 {
                                    c@.subrange(24 + k * (z as int), 24 + (k + 1) * (z as int))
                                } else {
                                    unpack_nibbles(
                                        c@.subrange(24 + k * (z as int), 24 + (k + 1) * (z as int)),
                                    )
                                }),
                            forall|k: int| 0 <= k < i ==> (#[trigger] tvec@[k])@ == spec_tiles[k],
                        decreases count - i,
                    {
                        proof {
                            assert(i * z + z <= count * z) by (nonlinear_arith)
                                requires
                                    i < count && z >= 0,
                            ;
                            assert(i * z >= 0) by (nonlinear_arith)
                                requires
                                    i >= 0 && z >= 0,
                            ;
                        }
                        let base = 24 + i * z;
                        let mut t: Vec<u8> = Vec::new();
                        if is8 {
                            let mut k: usize = 0;
                            while k < 0x40
                                invariant
                                    k <= 0x40,
                                    clen == c@.len(),
                                    base + 0x40 <= clen,
                                    t@ =~= c@.subrange(base as int, base + k as int),
                                decreases 0x40 - k,
                            {
                                t.push(c[base + k]);
                                k = k + 1;
                                proof {
                                    assert(t@ =~= c@.subrange(base as int, base + k as int));
                                }
                            }
                        } else {
                            let mut k: usize = 0;
                            while k < 0x20
                                invariant
                                    k <= 0x20,
                                    clen == c@.len(),
                                    base + 0x20 <= clen,
                                    t@ =~= unpack_nibbles(
                                        c@.subrange(base as int, base + 0x20),
                                    ).subrange(0, 2 * k as int),
                                decreases 0x20 - k,
                            {
                                let byte = c[base + k];
                                t.push(byte % 16);
                                t.push(byte / 16);
                                k = k + 1;
                                proof {
                                    let reg = c@.subrange(base as int, base + 0x20);
                                    assert(reg[k - 1] == byte);
                                    assert(unpack_nibbles(reg)[2 * (k - 1)] == byte % 16);
                                    assert(unpack_nibbles(reg)[2 * (k - 1) + 1] == byte / 16);
                                    assert(t@ =~= unpack_nibbles(reg).subrange(0, 2 * k as int));
                                }
                            }
                        }
                        tvec.push(t);
                        i = i + 1;
                        proof {
                            let reg = c@.subrange(24 + (i - 1) * (z as int), 24 + i * (z as int));
                            assert((i as int) * (z as int) == (i - 1) * (z as int) + z)
                                by (nonlinear_arith);
                            assert(24 + (i - 1) * (z as int) == base);
                            assert(24 + i * (z as int) == base + z);
                            if is8 {
                                assert(tvec@[i - 1]@ =~= reg);
                            } else {
                                assert(c@.subrange(base as int, base + 0x20) == reg);
                                assert(unpack_nibbles(reg).subrange(
                                    0,
                                    0x40 as int,
                                ) =~= unpack_nibbles(reg));
                                assert(tvec@[i - 1]@ =~= unpack_nibbles(reg));
                            }
                            assert(tvec@[i - 1]@ == spec_tiles[i - 1]);
                        }
                    }
                    tiles = NCGRTiles::Horizontal(tvec);
                    proof {
                        assert(groups_of(tvec@) =~= spec_tiles);
                        assert(tiles@ == mspec.tiles);
                    }
                }
                m_st = Some((tiles, is8, ncbr_ff));
                proof {
                    assert(rahc_model_of(m_st) == Some(mspec));
                }
            } else if tag_eq(&sec.magic, 0x53, 0x4F, 0x50, 0x43) {
                cpos = true;
            } else {
                return Err(Error::UnknownSection {
                    file: file.fname.clone(),
                    s_name: copy_bytes(&sec.magic),
                });
            }
            si = si + 1;
        }
        proof {
            assert(file@.sections.skip(n_secs as int) =~= Seq::<SectionView>::empty());
        }
        match m_st {
            Some((tiles, is8, ncbr_ff)) => {
                let x = NCGR { tiles, is_8_bit: is8, has_cpos: cpos, ncbr_ff };
                proof {
                    assert(spec_parse_ncgr(file@) == Ok::<NCGRView, NcgrErr>(x@));
                }
                Ok(x)
            },
            None => Err(Error::MissingRequiredSection {
                file: file.fname.clone(),
                s_name: tag4(0x43, 0x48, 0x41, 0x52),
            }),
        }
    }
}

/// The byte at position `p` of a rendered tile sheet `width` tiles wide:
/// tiles are laid out left to right in rows of `width`, every row 8
/// scanlines tall, and positions past the last tile show the zero index.
pub open spec fn sheet_byte(ts: Seq<Seq<u8>>, width: int, p: int) -> u8 {
    let i = p % 8;
    let q = p / 8;
    let col = q % width;
    let s = q / width;
    let j = s % 8;
    let row = s / 8;
    let t = row * width + col;
    if 0 <= t < ts.len() && 0 <= j * 8 + i < ts[t].len() {
        ts[t][j * 8 + i]
    } else {
        0
    }
}

/// The whole rendered tile sheet: the final partial row of tiles is
/// padded with zero-index filler so every row is exactly `width` tiles.
pub open spec fn sheet_of(ts: Seq<Seq<u8>>, width: int) -> Seq<u8> {
    Seq::new((((ts.len() + width - 1) / width) * width * 64) as nat, |p: int| sheet_byte(ts, width, p))
}

impl NCGRTiles {
    /// Converts a list of tiles into indexed image data for display, laid
    /// out in rows of `render_width` tiles; the last row is padded with
    /// zero-index tiles. A sub-range of tiles may be rendered.
    #[verifier::rlimit(100)]
    pub fn render_tiles(
        tiles: &Vec<Tile>,
        range: Option<core::ops::Range<usize>>,
        render_width: usize,
    ) -> (r: Vec<u8>)
        requires
            render_width >= 1,
            (groups_of(tiles@).len() + render_width) * 64 <= usize::MAX,
            match range {
                Some(rg) => rg.start <= rg.end <= tiles@.len(),
                None => true,
            },
            forall|i: int| 0 <= i < tiles@.len() ==> (#[trigger] tiles@[i]@).len() == 64,
        ensures
            r@ == sheet_of(
                match range {
                    Some(rg) => groups_of(tiles@).subrange(rg.start as int, rg.end as int),
                    None => groups_of(tiles@),
                },
                render_width as int,
            ),
    {
        let start: usize;
        let end: usize;
        match &range {
            Some(rg) => {
                start = rg.start;
                end = rg.end;
            },
            None => {
                start = 0;
                end = tiles.len();
            },
        }
        let ghost ts = match range {
            Some(rg) => groups_of(tiles@).subrange(rg.start as int, rg.end as int),
            None => groups_of(tiles@),
        };
        proof {
            if range is None {
                assert(groups_of(tiles@).subrange(0, tiles@.len() as int) =~= groups_of(tiles@));
            }
        }
        let n = end - start;
        let w = render_width;
        proof {
            assert((tiles@.len() + w) * 64 >= tiles@.len() + w) by (nonlinear_arith)
                requires
                    w >= 1,
            ;
        }
        let nrows = (n + w - 1) / w;
        let ghost total = nrows * w * 64;
        proof {
            assert(ts.len() == n);
            vstd::arithmetic::div_mod::lemma_fundamental_div_mod(n as int + w - 1, w as int);
            vstd::arithmetic::div_mod::lemma_mod_bound(n as int + w - 1, w as int);
            assert(nrows * w <= n + w) by (nonlinear_arith)
                requires
                    nrows == (n + w - 1) as int / w as int && w >= 1 && (w as int) * (nrows as int)
                        <= n + w - 1,
            ;
            assert(nrows * w * 64 <= (n + w) * 64) by (nonlinear_arith)
                requires
                    nrows * w <= n + w,
            ;
            assert((n + w) * 64 <= (tiles@.len() + w) * 64) by (nonlinear_arith)
                requires
                    n <= tiles@.len(),
            ;
            assert(sheet_of(ts, w as int).len() == total);
        }
        let mut out: Vec<u8> = Vec::new();
        let mut row: usize = 0;
        while row < nrows
            invariant
                row <= nrows,
                w >= 1,
                n == ts.len(),
                n == end - start,
                start <= end <= tiles@.len(),
                nrows == (n + w - 1) / w as int,
                total == nrows * w * 64,
                total <= usize::MAX,
                forall|i: int| 0 <= i < tiles@.len() ==> (#[trigger] tiles@[i]@).len() == 64,
                forall|i: int| 0 <= i < n ==> ts[i] == tiles@[start + i]@,
                out@.len() == row * (w * 64),
                out@ =~= sheet_of(ts, w as int).subrange(0, (row * (w * 64)) as int),
            decreases nrows - row,
        {
            proof {
                assert((row + 1) * (w * 64) <= nrows * (w * 64) && row * (w * 64) + w * 64 == (row
                    + 1) * (w * 64) && nrows * (w * 64) == total) by (nonlinear_arith)
                    requires
                        row < nrows && w >= 1 && total == nrows * w * 64,
                ;
            }
            let mut j: usize = 0;
            while j < 8
                invariant
                    w >= 1,
                    n == ts.len(),
                    n == end - start,
                    start <= end <= tiles@.len(),
                    row < nrows,
                    nrows == (n + w - 1) / w as int,
                    total == nrows * w * 64,
                    total <= usize::MAX,
                    row * (w * 64) + w * 64 <= total,
                    forall|i: int| 0 <= i < tiles@.len() ==> (#[trigger] tiles@[i]@).len() == 64,
                    forall|i: int| 0 <= i < n ==> ts[i] == tiles@[start + i]@,
                    j <= 8,
                    out@.len() == row * (w * 64) + j * (w * 8),
                    out@ =~= sheet_of(ts, w as int).subrange(
                        0,
                        (row * (w * 64) + j * (w * 8)) as int,
                    ),
                decreases 8 - j,
            {
                let mut col: usize = 0;
                while col < w
                    invariant
                        w >= 1,
                        n == ts.len(),
                        n == end - start,
                        start <= end <= tiles@.len(),
                        row < nrows,
                        nrows == (n + w - 1) / w as int,
                        j < 8,
                        col <= w,
                        total == nrows * w * 64,
                        total <= usize::MAX,
                        row * (w * 64) + w * 64 <= total,
                        forall|i: int| 0 <= i < tiles@.len() ==> (#[trigger] tiles@[i]@).len()
                            == 64,
                        forall|i: int| 0 <= i < n ==> ts[i] == tiles@[start + i]@,
                        out@.len() == row * (w * 64) + j * (w * 8) + col * 8,
                        out@ =~= sheet_of(ts, w as int).subrange(
                            0,
                            (row * (w * 64) + j * (w * 8) + col * 8) as int,
                        ),
                    decreases w - col,
                {
                    proof {
                        assert(j * (w * 8) + col * 8 + 8 <= w * 64) by (nonlinear_arith)
                            requires
                                j < 8 && col < w && w >= 1,
                        ;
                        assert(row * w + col < nrows * w && nrows * w <= nrows * w * 64)
                            by (nonlinear_arith)
                            requires
                                row < nrows && col < w && w >= 1,
                        ;
                    }
                    let t = row * w + col;
                    let mut i: usize = 0;
                    while i < 8
                        invariant
                            w >= 1,
                            n == ts.len(),
                            n == end - start,
                            start <= end <= tiles@.len(),
                            row < nrows,
                            nrows == (n + w - 1) / w as int,
                            j < 8,
                            col < w,
                            i <= 8,
                            t == row * w + col,
                            total == nrows * w * 64,
                            total <= usize::MAX,
                            row * (w * 64) + j * (w * 8) + col * 8 + 8 <= total,
                            forall|k: int| 0 <= k < tiles@.len() ==> (#[trigger] tiles@[k]@).len()
                                == 64,
                            forall|k: int| 0 <= k < n ==> ts[k] == tiles@[start + k]@,
                            out@.len() == row * (w * 64) + j * (w * 8) + col * 8 + i,
                            out@ =~= sheet_of(ts, w as int).subrange(
                                0,
                                (row * (w * 64) + j * (w * 8) + col * 8 + i) as int,
                            ),
                        decreases 8 - i,
                    {
                        let p = out.len();
                        let v: u8;
                        if t < n {
                            let tile = &tiles[start + t];
                            proof {
                                assert(ts[t as int] == tiles@[start + t]@);
                            }
                            v = tile[j * 8 + i];
                        } else {
                            v = 0;
                        }
                        proof {
                            let pi = p as int;
                            let wi = w as int;
                            let q = (row * 8 + j) * wi + col;
                            assert(pi == q * 8 + i && 0 <= q) by (nonlinear_arith)
                                requires
                                    pi == row * (wi * 64) + j * (wi * 8) + col * 8 + i && wi >= 1
                                        && q == (row * 8 + j) * wi + col && 0 <= col < wi && 0 <= j
                                        < 8 && 0 <= row && 0 <= i,
                            ;
                            vstd::arithmetic::div_mod::lemma_fundamental_div_mod_converse(
                                pi,
                                8,
                                q,
                                i as int,
                            );
                            vstd::arithmetic::div_mod::lemma_fundamental_div_mod_converse(
                                q,
                                wi,
                                (row * 8 + j) as int,
                                col as int,
                            );
                            vstd::arithmetic::div_mod::lemma_fundamental_div_mod_converse(
                                (row * 8 + j) as int,
                                8,
                                row as int,
                                j as int,
                            );
                            assert(pi / 8 == q && pi % 8 == i);
                            assert(q / wi == row * 8 + j && q % wi == col);
                            assert(sheet_byte(ts, wi, pi) == v);
                            assert(pi < total);
                            assert(sheet_of(ts, wi)[pi] == v);
                        }
                        out.push(v);
                        i = i + 1;
                        proof {
                            assert(out@ =~= sheet_of(ts, w as int).subrange(0, p + 1));
                        }
                    }
                    col = col + 1;
                    proof {
                        assert(col * 8 == (col - 1) * 8 + 8) by (nonlinear_arith);
                    }
                }
                j = j + 1;
                proof {
                    assert(j * (w * 8) == (j - 1) * (w * 8) + w * 8) by (nonlinear_arith);
                }
            }
            row = row + 1;
            proof {
                assert(row * (w * 64) == (row - 1) * (w * 64) + 8 * (w * 8)) by (nonlinear_arith);
            }
        }
        proof {
            assert(nrows * (w * 64) == nrows * w * 64) by (nonlinear_arith);
            assert(out@ =~= sheet_of(ts, w as int).subrange(
                0,
                sheet_of(ts, w as int).len() as int,
            ));
            assert(out@ =~= sheet_of(ts, w as int));
        }
        out
    }
}

/// The tiles a tile store denotes, one 64-index tile each: a flat buffer
/// is cut into consecutive tiles and bit-unpacked.
pub open spec fn to_tiles_spec(tv: NCGRTilesView, is8: bool) -> Seq<Seq<u8>> {
    match tv {
        NCGRTilesView::Horizontal(ts) => ts,
        NCGRTilesView::Lineal(c) => {
            let z = tile_size_on_disk(is8);
            Seq::new(
                (c.len() as int / z) as nat,
                |i: int|
                    if is8 {
                        c.subrange(i * z, (i + 1) * z)
                    } else {
                        unpack_nibbles(c.subrange(i * z, (i + 1) * z))
                    },
            )
        },
    }
}

impl NCGRTiles {
    /// The number of tiles held.
    pub fn len(&self, is_8_bit: bool) -> (r: usize)
        ensures
            r == to_tiles_spec(self@, is_8_bit).len(),
    {
        match self {
            NCGRTiles::Horizontal(c) => c.len(),
            NCGRTiles::Lineal(c) => c.len() / (if is_8_bit { 0x40 } else { 0x20 }),
        }
    }

    /// Converts the tile store into one 64-index tile per 8x8 block, the
    /// form the tilemap renderer refers into.
    pub fn to_tiles(&self, is_8_bit: bool) -> (r: Vec<Tile>)
        ensures
            groups_of(r@) == to_tiles_spec(self@, is_8_bit),
    {
        match self {
            NCGRTiles::Horizontal(ts) => {
                let mut out: Vec<Tile> = Vec::new();
                let mut i: usize = 0;
                while i < ts.len()
                    invariant
                        i <= ts@.len(),
                        out@.len() == i,
                        forall|k: int| 0 <= k < i ==> (#[trigger] out@[k])@ == ts@[k]@,
                    decreases ts@.len() - i,
                {
                    let t = &ts[i];
                    let mut cp: Vec<u8> = Vec::new();
                    let mut q: usize = 0;
                    while q < t.len()
                        invariant
                            q <= t@.len(),
                            cp@ =~= t@.subrange(0, q as int),
                        decreases t@.len() - q,
                    {
                        cp.push(t[q]);
                        q = q + 1;
                        proof {
                            assert(cp@ =~= t@.subrange(0, q as int));
                        }
                    }
                    proof {
                        assert(cp@ =~= t@);
                    }
                    out.push(cp);
                    i = i + 1;
                }
                proof {
                    assert(groups_of(out@) =~= to_tiles_spec(self@, is_8_bit));
                }
                out
            },
            NCGRTiles::Lineal(c) => {
                let z: usize = if is_8_bit { 0x40 } else { 0x20 };
                let count = c.len() / z;
                let ghost spec_tiles = to_tiles_spec(self@, is_8_bit);
                proof {
                    vstd::arithmetic::div_mod::lemma_fundamental_div_mod(c@.len() as int, z as int);
                    vstd::arithmetic::div_mod::lemma_mod_bound(c@.len() as int, z as int);
                    assert(count * z <= c@.len());
                }
                let clen = c.len();
                let mut out: Vec<Tile> = Vec::new();
                let mut i: usize = 0;
                while i < count
                    invariant
                        z == tile_size_on_disk(is_8_bit),
                        count == c@.len() as int / z as int,
                        count * z <= clen,
                        clen == c@.len(),
                        spec_tiles == to_tiles_spec(self@, is_8_bit),
                        spec_tiles.len() == count,
                        self@ == NCGRTilesView::Lineal(c@),
                        i <= count,
                        out@.len() == i,
                        forall|k: int| 0 <= k < i ==> (#[trigger] out@[k])@ == spec_tiles[k],
                    decreases count - i,
                {
                    proof {
                        assert(i * z + z <= count * z && 0 <= i * z) by (nonlinear_arith)
                            requires
                                0 <= i < count && z >= 1,
                        ;
                    }
                    let base = i * z;
                    let mut t: Vec<u8> = Vec::new();
                    if is_8_bit {
                        let mut k: usize = 0;
                        while k < 0x40
                            invariant
                                k <= 0x40,
                                base + 0x40 <= clen,
                                clen == c@.len(),
                                t@ =~= c@.subrange(base as int, base + k as int),
                            decreases 0x40 - k,
                        {
                            t.push(c[base + k]);
                            k = k + 1;
                            proof {
                                assert(t@ =~= c@.subrange(base as int, base + k as int));
                            }
                        }
                    } else {
                        let mut k: usize = 0;
                        while k < 0x20
                            invariant
                                k <= 0x20,
                                base + 0x20 <= clen,
                                clen == c@.len(),
                                t@ =~= unpack_nibbles(c@.subrange(base as int, base + 0x20)).subrange(
                                    0,
                                    2 * k as int,
                                ),
                            decreases 0x20 - k,
                        {
                            let byte = c[base + k];
                            t.push(byte % 16);
                            t.push(byte / 16);
                            k = k + 1;
                            proof {
                                let reg = c@.subrange(base as int, base + 0x20);
                                assert(reg[k - 1] == byte);
                                assert(unpack_nibbles(reg)[2 * (k - 1)] == byte % 16);
                                assert(unpack_nibbles(reg)[2 * (k - 1) + 1] == byte / 16);
                                assert(t@ =~= unpack_nibbles(reg).subrange(0, 2 * k as int));
                            }
                        }
                    }
                    out.push(t);
                    i = i + 1;
                    proof {
                        assert((i - 1) * (z as int) == base && i * (z as int) == base + z)
                            by (nonlinear_arith)
                            requires
                                base == (i - 1) * (z as int) && z >= 1,
                        ;
                        let reg = c@.subrange(base as int, base + z as int);
                        if is_8_bit {
                            assert(out@[i - 1]@ =~= reg);
                        } else {
                            assert(unpack_nibbles(reg).subrange(0, 0x40 as int) =~= unpack_nibbles(
                                reg,
                            ));
                            assert(out@[i - 1]@ =~= unpack_nibbles(reg));
                        }
                        assert(out@[i - 1]@ == spec_tiles[i - 1]);
                    }
                }
                proof {
                    assert(groups_of(out@) =~= spec_tiles);
                }
                out
            },
        }
    }

    /// Converts the tile store into indexed image data for display: split
    /// tiles go through the padded sheet layout; a flat buffer is
    /// bit-unpacked (and possibly sliced to a sub-range of tiles) as it
    /// stands.
    pub fn render(
        &self,
        is_8_bit: bool,
        range: Option<core::ops::Range<usize>>,
        render_width: usize,
    ) -> (r: Vec<u8>)
        requires
            render_width >= 1,
            match self@ {
                NCGRTilesView::Horizontal(ts) => {
                    &&& (ts.len() + render_width) * 64 <= usize::MAX
                    &&& (forall|i: int| 0 <= i < ts.len() ==> (#[trigger] ts[i]).len() == 64)
                    &&& match range {
                        Some(rg) => rg.start <= rg.end <= ts.len(),
                        None => true,
                    }
                },
                NCGRTilesView::Lineal(c) => match range {
                    Some(rg) => rg.start <= rg.end && rg.end * tile_size_on_disk(is_8_bit)
                        <= c.len(),
                    None => true,
                },
            },
        ensures
            r@ == match self@ {
                NCGRTilesView::Horizontal(ts) => sheet_of(
                    match range {
                        Some(rg) => ts.subrange(rg.start as int, rg.end as int),
                        None => ts,
                    },
                    render_width as int,
                ),
                NCGRTilesView::Lineal(c) => {
                    let z = tile_size_on_disk(is_8_bit);
                    let sl = match range {
                        Some(rg) => c.subrange(rg.start as int * z, rg.end as int * z),
                        None => c,
                    };
                    if is_8_bit {
                        sl
                    } else {
                        unpack_nibbles(sl)
                    }
                },
            },
    {
        match self {
            NCGRTiles::Horizontal(c) => {
                proof {
                    assert(groups_of(c@) == self@->Horizontal_0);
                    assert forall|i: int| 0 <= i < c@.len() implies (#[trigger] c@[i]@).len()
                        == 64 by {
                        assert(self@->Horizontal_0[i] == c@[i]@);
                    }
                }
                Self::render_tiles(c, range, render_width)
            },
            NCGRTiles::Lineal(c) => {
                let z: usize = if is_8_bit { 0x40 } else { 0x20 };
                let clen = c.len();
                let start_b: usize;
                let end_b: usize;
                match &range {
                    Some(rg) => {
                        proof {
                            assert(rg.start * z <= rg.end * z) by (nonlinear_arith)
                                requires
                                    rg.start <= rg.end && z >= 0,
                            ;
                            assert(rg.end * z <= clen);
                        }
                        start_b = rg.start * z;
                        end_b = rg.end * z;
                    },
                    None => {
                        start_b = 0;
                        end_b = clen;
                    },
                }
                let ghost sl = c@.subrange(start_b as int, end_b as int);
                proof {
                    if range is None {
                        assert(c@.subrange(0, c@.len() as int) =~= c@);
                    }
                }
                if is_8_bit {
                    let mut out: Vec<u8> = Vec::new();
                    let mut k: usize = start_b;
                    while k < end_b
                        invariant
                            start_b <= k <= end_b <= c@.len(),
                            out@ =~= c@.subrange(start_b as int, k as int),
                        decreases end_b - k,
                    {
                        out.push(c[k]);
                        k = k + 1;
                        proof {
                            assert(out@ =~= c@.subrange(start_b as int, k as int));
                        }
                    }
                    out
                } else {
                    let mut out: Vec<u8> = Vec::new();
                    let mut k: usize = start_b;
                    while k < end_b
                        invariant
                            start_b <= k <= end_b <= c@.len(),
                            out@ =~= unpack_nibbles(
                                c@.subrange(start_b as int, end_b as int),
                            ).subrange(0, 2 * (k - start_b)),
                        decreases end_b - k,
                    {
                        let byte = c[k];
                        out.push(byte % 16);
                        out.push(byte / 16);
                        k = k + 1;
                        proof {
                            let reg = c@.subrange(start_b as int, end_b as int);
                            assert(reg[k - 1 - start_b] == byte);
                            assert(unpack_nibbles(reg)[2 * (k - 1 - start_b)] == byte % 16);
                            assert(unpack_nibbles(reg)[2 * (k - 1 - start_b) + 1] == byte / 16);
                            assert(out@ =~= unpack_nibbles(reg).subrange(0, 2 * (k - start_b)));
                        }
                    }
                    proof {
                        let reg = c@.subrange(start_b as int, end_b as int);
                        assert(unpack_nibbles(reg).subrange(
                            0,
                            2 * (end_b - start_b),
                        ) =~= unpack_nibbles(reg));
                    }
                    out
                }
            },
        }
    }
}

impl NCGRTiles {
    /// Builds a tile store from split tiles: kept split, or packed into
    /// one flat buffer of on-disk bytes for the flat layout.
    pub fn from_tiles(tiles: Vec<Tile>, is_8_bit: bool, lineal_mode: bool) -> (r: NCGRTiles)
        requires
            forall|i: int| 0 <= i < tiles@.len() ==> (#[trigger] tiles@[i]@).len() == 64,
            is_8_bit || (forall|i: int, j: int|
                0 <= i < tiles@.len() && 0 <= j < 64 ==> tiles@[i]@[j] < 16),
            tiles@.len() * 64 <= usize::MAX,
        ensures
            r@ == if lineal_mode {
                NCGRTilesView::Lineal(tiles_data(groups_of(tiles@), is_8_bit))
            } else {
                NCGRTilesView::Horizontal(groups_of(tiles@))
            },
    {
        if !lineal_mode {
            let r = NCGRTiles::Horizontal(tiles);
            proof {
                assert(r@ == NCGRTilesView::Horizontal(groups_of(tiles@)));
            }
            return r;
        }
        let mut buf: Vec<u8> = Vec::new();
        let n = tiles.len();
        let mut i: usize = 0;
        while i < n
            invariant
                n == tiles@.len(),
                n * 64 <= usize::MAX,
                forall|k: int| 0 <= k < tiles@.len() ==> (#[trigger] tiles@[k]@).len() == 64,
                is_8_bit || (forall|k: int, j: int|
                    0 <= k < tiles@.len() && 0 <= j < 64 ==> tiles@[k]@[j] < 16),
                i <= n,
                buf@ == tiles_data(groups_of(tiles@).subrange(0, i as int), is_8_bit),
            decreases n - i,
        {
            let t = &tiles[i];
            let ghost done = tiles_data(groups_of(tiles@).subrange(0, i as int), is_8_bit);
            proof {
                assert(groups_of(tiles@)[i as int] == t@);
            }
            if is_8_bit {
                let mut k: usize = 0;
                while k < 64
                    invariant
                        t@.len() == 64,
                        k <= 64,
                        buf@ == done + t@.subrange(0, k as int),
                    decreases 64 - k,
                {
                    buf.push(t[k]);
                    k = k + 1;
                    proof {
                        assert(buf@ =~= done + t@.subrange(0, k as int));
                    }
                }
                proof {
                    assert(t@.subrange(0, 64) =~= t@);
                    assert(tile_bytes(t@, true) == t@);
                }
            } else {
                let mut k: usize = 0;
                while k < 32
                    invariant
                        t@.len() == 64,
                        forall|j: int| 0 <= j < 64 ==> t@[j] < 16,
                        k <= 32,
                        buf@ == done + pack_nibbles(t@).subrange(0, k as int),
                    decreases 32 - k,
                {
                    let b = t[2 * k] + t[2 * k + 1] * 16;
                    buf.push(b);
                    k = k + 1;
                    proof {
                        assert(pack_nibbles(t@)[k - 1] == b);
                        assert(buf@ =~= done + pack_nibbles(t@).subrange(0, k as int));
                    }
                }
                proof {
                    assert(pack_nibbles(t@).subrange(0, 32) =~= pack_nibbles(t@));
                }
            }
            i = i + 1;
            proof {
                lemma_tiles_data_snoc(groups_of(tiles@).subrange(0, i - 1), t@, is_8_bit);
                assert(groups_of(tiles@).subrange(0, i as int) =~= groups_of(tiles@).subrange(
                    0,
                    i - 1,
                ).push(t@));
            }
        }
        proof {
            assert(groups_of(tiles@).subrange(0, n as int) =~= groups_of(tiles@));
        }
        NCGRTiles::Lineal(buf)
    }
}

/// The character-data section of an encoded valid resource parses back to
/// the very same tile data, layout, depth and sentinel flag.
#[verifier::rlimit(100)]
pub proof fn lemma_rahc_round_trip(x: NCGRView, o: ByteOrder)
    requires
        x.wf(),
    ensures
        parse_rahc(rahc_contents(x, o), o) == Ok::<RahcModel, NcgrErr>(
            (RahcModel { tiles: x.tiles, is_8_bit: x.is_8_bit, ncbr_ff: x.ncbr_ff }),
        ),
{
    let z = tile_size_on_disk(x.is_8_bit);
    let count = x.tile_count();
    let c = rahc_contents(x, o);
    let cf = rahc_count_fields(x, o);
    let depth_v: u32 = if x.is_8_bit { 4 } else { 3 };
    let lin_v: u32 = if x.tiles is Lineal { 1 } else { 0 };
    let ds_v: u32 = (count * z) as u32;
    let data = rahc_data(x);
    let d1 = u32_bytes(depth_v, o);
    let d2 = u32_bytes(0u32, o);
    let d3 = u32_bytes(lin_v, o);
    let d4 = u32_bytes(ds_v, o);
    let d5 = u32_bytes(0x18u32, o);
    assert(c == cf + d1 + d2 + d3 + d4 + d5 + data);
    assert(cf.len() == 4);
    match x.tiles {
        NCGRTilesView::Horizontal(tiles) => {
            assert(forall|i: int| 0 <= i < tiles.len() ==> (#[trigger] tiles[i]).len() == 64);
            lemma_tiles_data_len(tiles, x.is_8_bit);
            assert(data.len() == count * z);
        },
        NCGRTilesView::Lineal(buf) => {
            vstd::arithmetic::div_mod::lemma_fundamental_div_mod(buf.len() as int, z);
            assert(data.len() == count * z);
        },
    }
    assert(c.len() == 24 + count * z);
    assert(count * z >= 0) by (nonlinear_arith)
        requires
            count >= 0 && z >= 0,
    ;
    lemma_u32_round_trip(depth_v, o);
    lemma_u32_round_trip(0u32, o);
    lemma_u32_round_trip(lin_v, o);
    lemma_u32_round_trip(ds_v, o);
    lemma_u32_round_trip(0x18u32, o);
    let a_v: u16 = if x.ncbr_ff { 0xFFFF } else { count as u16 };
    let b_v: u16 = if x.ncbr_ff { 0xFFFF } else { 1 };
    lemma_u16_round_trip(a_v, o);
    lemma_u16_round_trip(b_v, o);
    assert(cf == u16_bytes(a_v, o) + u16_bytes(b_v, o));
    assert(c[0] == cf[0] && c[1] == cf[1] && c[2] == cf[2] && c[3] == cf[3]);
    assert(cf[0] == u16_bytes(a_v, o)[0] && cf[1] == u16_bytes(a_v, o)[1]);
    assert(cf[2] == u16_bytes(b_v, o)[0] && cf[3] == u16_bytes(b_v, o)[1]);
    assert(spec_u16(c[0], c[1], o) == a_v);
    assert(spec_u16(c[2], c[3], o) == b_v);
    assert(c[4] == d1[0] && c[5] == d1[1] && c[6] == d1[2] && c[7] == d1[3]);
    assert(spec_u32(c[4], c[5], c[6], c[7], o) == depth_v);
    assert(c[12] == d3[0] && c[13] == d3[1] && c[14] == d3[2] && c[15] == d3[3]);
    assert(spec_u32(c[12], c[13], c[14], c[15], o) == lin_v);
    assert(c[16] == d4[0] && c[17] == d4[1] && c[18] == d4[2] && c[19] == d4[3]);
    assert(spec_u32(c[16], c[17], c[18], c[19], o) == ds_v);

    // the parsed count equals the stored one
    vstd::arithmetic::div_mod::lemma_fundamental_div_mod_converse(count * z, z, count, 0);
    assert((ds_v as int) / z == count);
    if x.ncbr_ff {
        assert(count <= 0xFFFF);
        assert(rahc_tile_count(a_v, b_v, ds_v as int, z) == count);
    } else {
        assert(count < 0xFFFF);
        assert(a_v != 0xFFFF);
        assert(a_v * b_v == count);
    }
    assert(24 + rahc_tile_count(a_v, b_v, ds_v as int, z) * z == c.len());

    // the data region is the data bytes
    assert forall|k: int| 0 <= k < data.len() implies c[24 + k] == data[k] by {
        assert(c[24 + k] == (cf + d1 + d2 + d3 + d4 + d5 + data)[24 + k]);
    }
    let m = parse_rahc(c, o)->Ok_0;
    assert(parse_rahc(c, o) is Ok);
    assert(m.is_8_bit == x.is_8_bit && m.ncbr_ff == x.ncbr_ff);
    match x.tiles {
        NCGRTilesView::Lineal(buf) => {
            assert(c.subrange(24, 24 + count * z) =~= buf);
            assert(m.tiles == x.tiles);
        },
        NCGRTilesView::Horizontal(tiles) => {
            let mt = m.tiles->Horizontal_0;
            assert(mt.len() == count);
            assert forall|i: int| 0 <= i < count implies #[trigger] mt[i] == tiles[i] by {
                lemma_tiles_data_index(tiles, x.is_8_bit, i);
                assert(0 <= i * z && i * z + z <= count * z && (i + 1) * z == i * z + z)
                    by (nonlinear_arith)
                    requires
                        0 <= i < count && z > 0,
                ;
                assert(c.subrange(24 + i * z, 24 + (i + 1) * z) =~= data.subrange(
                    i * z,
                    (i + 1) * z,
                ));
                if x.is_8_bit {
                    assert(mt[i] == c.subrange(24 + i * z, 24 + (i + 1) * z));
                    assert(tile_bytes(tiles[i], true) == tiles[i]);
                } else {
                    assert(mt[i] == unpack_nibbles(c.subrange(24 + i * z, 24 + (i + 1) * z)));
                    assert(tiles[i].len() == 64);
                    assert(forall|j: int| 0 <= j < tiles[i].len() ==> tiles[i][j] < 16);
                    lemma_unpack_pack(tiles[i]);
                    assert(tile_bytes(tiles[i], false) == pack_nibbles(tiles[i]));
                }
            }
            assert(mt =~= tiles);
            assert(m.tiles == x.tiles);
        },
    }
}

/// Round-trip exactness for tileset resources: decoding an encoded valid
/// resource yields it back field-for-field, the sentinel flag and the
/// optional-section flag included.
#[verifier::rlimit(60)]
pub proof fn lemma_ncgr_round_trip(x: NCGRView, fname: Seq<char>, o: ByteOrder)
    requires
        x.wf(),
    ensures
        spec_parse_ncgr(spec_ncgr_file(x, fname, o)) == Ok::<NCGRView, NcgrErr>(x),
{
    let f = spec_ncgr_file(x, fname, o);
    lemma_rahc_round_trip(x, o);
    let m = RahcModel { tiles: x.tiles, is_8_bit: x.is_8_bit, ncbr_ff: x.ncbr_ff };
    let ss = f.sections;
    assert(rahc_magic()[0] != sopc_magic()[0]);
    assert(sopc_magic() != rahc_magic());
    assert(ss[0].magic == rahc_magic() && ss[0].contents == rahc_contents(x, o));
    if x.has_cpos {
        assert(ss.drop_first()[0].magic == sopc_magic());
        assert(ss.drop_first().drop_first() =~= Seq::<SectionView>::empty());
        let out = ncgr_scan(ss, o, None, false);
        assert(out == ncgr_scan(ss.drop_first(), o, Some(m), false));
        assert(out == ncgr_scan(ss.drop_first().drop_first(), o, Some(m), true));
        assert(out == Ok::<NCGRView, NcgrErr>(x));
    } else {
        assert(ss.drop_first() =~= Seq::<SectionView>::empty());
        let out = ncgr_scan(ss, o, None, false);
        assert(out == ncgr_scan(ss.drop_first(), o, Some(m), false));
        assert(out == Ok::<NCGRView, NcgrErr>(x));
    }
}

} // verus!
