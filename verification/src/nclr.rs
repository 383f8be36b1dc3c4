use vstd::prelude::*;

use crate::bytes::{
    copy_bytes, lemma_parse_u16s_of_encoded, lemma_u16_round_trip, lemma_u16s_bytes_len,
    lemma_u32_round_trip,
    get_u16, get_u16s, get_u32, parse_u16s, put_u16, put_u16s, put_u32, spec_u16, spec_u32,
    u16_bytes, u16s_bytes, u32_bytes, ByteOrder,
};
use crate::color::ColorBGR555;
use crate::error::Error;
use crate::ndsfile::{tag4, tag_eq, NDSFile, NDSFileView, Section, SectionView};

verus! {

/// NCLR (Nintendo CoLor Resource) palette format: an ordered mapping from
/// palette id to a fixed-length array of color cells.
#[derive(Debug, Clone)]
pub struct NCLR {
    /// The palettes themselves, in BGR555 format, keyed by id, kept in
    /// ascending id order.
    pub palettes: Vec<(u16, Vec<ColorBGR555>)>,
    /// Whether the file uses 8-bit color (true) or 4-bit color (false).
    pub is_8_bit: bool,
    /// The number of colors in each palette.
    pub color_amt: u32,
    /// The six reserved bytes of the index-table section, preserved
    /// verbatim for round-tripping.
    pub pcmp_unk: Vec<u8>,
}

/// Mathematical image of an [`NCLR`].
pub struct NCLRView {
    pub palettes: Seq<(u16, Seq<ColorBGR555>)>,
    pub is_8_bit: bool,
    pub color_amt: u32,
    pub pcmp_unk: Seq<u8>,
}

impl View for NCLR {
    type V = NCLRView;

    open spec fn view(&self) -> NCLRView {
        NCLRView {
            palettes: Seq::new(
                self.palettes@.len(),
                |i: int| (self.palettes@[i].0, self.palettes@[i].1@),
            ),
            is_8_bit: self.is_8_bit,
            color_amt: self.color_amt,
            pcmp_unk: self.pcmp_unk@,
        }
    }
}

impl NCLRView {
    /// Validity: every palette holds exactly `color_amt` well-formed
    /// colors, ids are strictly ascending (hence deduplicated), 8-bit mode
    /// has exactly one palette, and everything fits its on-disk fields.
    pub open spec fn wf(self) -> bool {
        &&& self.color_amt > 0
        &&& (forall|i: int|
            0 <= i < self.palettes.len() ==> (#[trigger] self.palettes[i]).1.len()
                == self.color_amt)
        &&& (forall|i: int, j: int|
            0 <= i < self.palettes.len() && 0 <= j < self.color_amt ==> (
            #[trigger] self.palettes[i].1[j]).wf())
        &&& (forall|i: int, j: int|
            0 <= i < j < self.palettes.len() ==> self.palettes[i].0 < self.palettes[j].0)
        &&& (self.is_8_bit ==> self.palettes.len() == 1)
        &&& self.pcmp_unk.len() == 6
        &&& self.palettes.len() <= u16::MAX
        &&& 48 + self.palettes.len() * self.color_amt * 2 + 2 * self.palettes.len() <= u32::MAX
    }

    /// The same resource with every color's unused high bit cleared, as
    /// encoding normalizes it.
    pub open spec fn clear_x(self) -> NCLRView {
        NCLRView {
            palettes: Seq::new(
                self.palettes.len(),
                |i: int|
                    (
                        self.palettes[i].0,
                        Seq::new(
                            self.palettes[i].1.len(),
                            |j: int| ColorBGR555 { x: false, ..self.palettes[i].1[j] },
                        ),
                    ),
            ),
            is_8_bit: self.is_8_bit,
            color_amt: self.color_amt,
            pcmp_unk: self.pcmp_unk,
        }
    }
}

/// On a resource whose colors already carry a cleared unused bit — every
/// palette the encoder itself can produce — the normalization changes
/// nothing, so such resources round-trip to themselves exactly.
pub proof fn lemma_clear_x_identity(x: NCLRView)
    requires
        forall|i: int, j: int|
            0 <= i < x.palettes.len() && 0 <= j < x.palettes[i].1.len() ==> !(
            #[trigger] x.palettes[i].1[j]).x,
    ensures
        x.clear_x() == x,
{
    assert forall|i: int| 0 <= i < x.palettes.len() implies #[trigger] x.clear_x().palettes[i]
        == x.palettes[i] by {
        assert forall|j: int| 0 <= j < x.palettes[i].1.len() implies #[trigger] x.clear_x(
        ).palettes[i].1[j] == x.palettes[i].1[j] by {
            assert(!x.palettes[i].1[j].x);
        }
        assert(x.clear_x().palettes[i].1 =~= x.palettes[i].1);
    }
    assert(x.clear_x().palettes =~= x.palettes);
}

/// The `RLCN` container magic of palette files.
pub open spec fn nclr_magic() -> Seq<u8> {
    seq![0x52u8, 0x4Cu8, 0x43u8, 0x4Eu8]
}

/// The `TTLP` tag of the color-table section.
pub open spec fn ttlp_magic() -> Seq<u8> {
    seq![0x54u8, 0x54u8, 0x4Cu8, 0x50u8]
}

/// The `PMCP` tag of the index-table section.
pub open spec fn pmcp_magic() -> Seq<u8> {
    seq![0x50u8, 0x4Du8, 0x43u8, 0x50u8]
}

/// The colors of one palette, packed to their 16-bit cells.
pub open spec fn color_words(cs: Seq<ColorBGR555>) -> Seq<u16> {
    Seq::new(cs.len(), |i: int| cs[i].spec_to_u16())
}

/// All palettes' packed colors, one palette after the other.
pub open spec fn pal_color_words(ps: Seq<(u16, Seq<ColorBGR555>)>) -> Seq<u16>
    decreases ps.len(),
{
    if ps.len() == 0 {
        Seq::empty()
    } else {
        color_words(ps[0].1) + pal_color_words(ps.drop_first())
    }
}

/// The palette ids, in stored (ascending) order.
pub open spec fn pal_ids(ps: Seq<(u16, Seq<ColorBGR555>)>) -> Seq<u16> {
    Seq::new(ps.len(), |i: int| ps[i].0)
}

/// Appending one palette appends its packed colors.
pub proof fn lemma_pal_color_words_snoc(ps: Seq<(u16, Seq<ColorBGR555>)>, p: (u16, Seq<ColorBGR555>))
    ensures
        pal_color_words(ps.push(p)) == pal_color_words(ps) + color_words(p.1),
    decreases ps.len(),
{
    if ps.len() == 0 {
        assert(ps.push(p).drop_first() =~= Seq::<(u16, Seq<ColorBGR555>)>::empty());
        assert(pal_color_words(ps.push(p).drop_first()) == Seq::<u16>::empty());
        assert(ps.push(p)[0] == p);
        assert(pal_color_words(ps.push(p)) =~= pal_color_words(ps) + color_words(p.1));
    } else {
        assert(ps.push(p).drop_first() =~= ps.drop_first().push(p));
        lemma_pal_color_words_snoc(ps.drop_first(), p);
        assert(ps.push(p)[0] == ps[0]);
        assert(pal_color_words(ps.push(p)) == color_words(ps[0].1) + (pal_color_words(
            ps.drop_first(),
        ) + color_words(p.1)));
        assert(pal_color_words(ps.push(p)) =~= pal_color_words(ps) + color_words(p.1));
    }
}

/// With every palette holding `amt` colors, the packed run has `n * amt`
/// words and palette `i`'s color `j` sits at word `i * amt + j`.
pub proof fn lemma_pal_color_words_index(
    ps: Seq<(u16, Seq<ColorBGR555>)>,
    amt: int,
    i: int,
    j: int,
)
    requires
        forall|k: int| 0 <= k < ps.len() ==> (#[trigger] ps[k]).1.len() == amt,
        0 <= i < ps.len(),
        0 <= j < amt,
    ensures
        pal_color_words(ps).len() == ps.len() * amt,
        pal_color_words(ps)[i * amt + j] == ps[i].1[j].spec_to_u16(),
    decreases i,
{
    lemma_pal_color_words_len(ps, amt);
    if i == 0 {
        assert(i * amt == 0) by (nonlinear_arith)
            requires
                i == 0,
        ;
        assert(pal_color_words(ps)[j] == color_words(ps[0].1)[j]);
    } else {
        let rest = ps.drop_first();
        assert(forall|k: int| 0 <= k < rest.len() ==> (#[trigger] rest[k]).1.len() == amt);
        lemma_pal_color_words_index(rest, amt, i - 1, j);
        lemma_pal_color_words_len(rest, amt);
        assert(rest[i - 1] == ps[i]);
        assert(i * amt + j == amt + ((i - 1) * amt + j)) by (nonlinear_arith);
        assert(i * amt >= amt) by (nonlinear_arith)
            requires
                i >= 1 && amt >= 0,
        ;
        assert(i * amt + j < ps.len() * amt) by (nonlinear_arith)
            requires
                0 <= j < amt && 0 <= i < ps.len(),
        ;
        assert(color_words(ps[0].1).len() == amt);
        assert(pal_color_words(ps) == color_words(ps[0].1) + pal_color_words(rest));
        assert(pal_color_words(ps)[i * amt + j] == pal_color_words(rest)[(i - 1) * amt + j]);
    }
}

/// With every palette holding `amt` colors, the packed run has `n * amt`
/// words.
pub proof fn lemma_pal_color_words_len(ps: Seq<(u16, Seq<ColorBGR555>)>, amt: int)
    requires
        forall|k: int| 0 <= k < ps.len() ==> (#[trigger] ps[k]).1.len() == amt,
    ensures
        pal_color_words(ps).len() == ps.len() * amt,
    decreases ps.len(),
{
    if ps.len() == 0 {
    } else {
        let rest = ps.drop_first();
        assert(forall|k: int| 0 <= k < rest.len() ==> (#[trigger] rest[k]).1.len() == amt);
        lemma_pal_color_words_len(rest, amt);
        let n = ps.len() as int;
        assert(n * amt == amt + (n - 1) * amt) by (nonlinear_arith);
        assert(rest.len() == n - 1);
    }
}

/// Contents of the color-table section: color depth selector, padding,
/// total data size, colors per palette, then every palette's colors.
pub open spec fn ttlp_contents(x: NCLRView, o: ByteOrder) -> Seq<u8> {
    u32_bytes(if x.is_8_bit { 4u32 } else { 3u32 }, o) + u32_bytes(0, o) + u32_bytes(
        (x.palettes.len() * x.color_amt * 2) as u32,
        o,
    ) + u32_bytes(x.color_amt, o) + u16s_bytes(pal_color_words(x.palettes), o)
}

/// Contents of the index-table section: palette count, six reserved bytes,
/// then the ids in stored order.
pub open spec fn pmcp_contents(x: NCLRView, o: ByteOrder) -> Seq<u8> {
    u16_bytes(x.palettes.len() as u16, o) + x.pcmp_unk + u16s_bytes(pal_ids(x.palettes), o)
}

/// The whole container a palette resource serializes to.
pub open spec fn spec_nclr_file(x: NCLRView, fname: Seq<char>, o: ByteOrder) -> NDSFileView {
    NDSFileView {
        fname: fname,
        magic: nclr_magic(),
        byteorder: o,
        sections: seq![
            SectionView { magic: ttlp_magic(), contents: ttlp_contents(x, o) },
            SectionView { magic: pmcp_magic(), contents: pmcp_contents(x, o) },
        ],
    }
}

/// What a color-table section denotes: the raw palettes in file order,
/// not yet keyed by id.
pub struct TtlpModel {
    pub groups: Seq<Seq<ColorBGR555>>,
    pub is_8_bit: bool,
    pub color_amt: u32,
}

/// What an index-table section denotes.
pub struct PcmpModel {
    pub ids: Seq<u16>,
    pub unk: Seq<u8>,
}

/// The ways a palette decode can fail.
pub enum NclrErr {
    WrongKind,
    UnknownSection(Seq<u8>),
    UnknownFormat(u32),
    Truncated,
    Malformed,
    MissingPltt,
    MissingPcmp,
}

/// Number of color groups the color-table section holds: colors are read
/// in groups of `amt` until `data_size` bytes (2 per color) are consumed.
pub open spec fn ttlp_group_count(data_size: int, amt: int) -> int {
    if amt == 0 {
        0
    } else {
        (data_size + 2 * amt - 1) / (2 * amt)
    }
}

/// Reads a color-table section: depth selector, padding, total data size,
/// colors per palette, then the colors.
pub open spec fn parse_ttlp(c: Seq<u8>, o: ByteOrder) -> Result<TtlpModel, NclrErr> {
    if c.len() < 16 {
        Err(NclrErr::Truncated)
    } else {
        let mode = spec_u32(c[0], c[1], c[2], c[3], o);
        if mode != 3 && mode != 4 {
            Err(NclrErr::UnknownFormat(mode))
        } else {
            let is8 = mode == 4;
            let data_size = spec_u32(c[8], c[9], c[10], c[11], o) as int;
            let amt = spec_u32(c[12], c[13], c[14], c[15], o);
            if amt == 0 && data_size > 0 {
                Err(NclrErr::Malformed)
            } else {
                let g = ttlp_group_count(data_size, amt as int);
                if 16 + g * amt * 2 > c.len() {
                    Err(NclrErr::Truncated)
                } else if is8 && g != 1 {
                    Err(NclrErr::Malformed)
                } else {
                    Ok(
                        TtlpModel {
                            groups: Seq::new(
                                g as nat,
                                |i: int|
                                    Seq::new(
                                        amt as nat,
                                        |j: int|
                                            ColorBGR555::spec_from_u16(
                                                spec_u16(
                                                    c[16 + 2 * (i * amt + j)],
                                                    c[16 + 2 * (i * amt + j) + 1],
                                                    o,
                                                ),
                                            ),
                                    ),
                            ),
                            is_8_bit: is8,
                            color_amt: amt,
                        },
                    )
                }
            }
        }
    }
}

/// Reads an index-table section: palette count, six reserved bytes, ids.
pub open spec fn parse_pmcp(c: Seq<u8>, o: ByteOrder) -> Result<PcmpModel, NclrErr> {
    if c.len() < 8 {
        Err(NclrErr::Truncated)
    } else {
        let count = spec_u16(c[0], c[1], o) as int;
        if 8 + 2 * count > c.len() {
            Err(NclrErr::Truncated)
        } else {
            Ok(PcmpModel { ids: parse_u16s(c, 8, count, o), unk: c.subrange(2, 8) })
        }
    }
}

/// Walks the sections in order, keeping the latest color table and index
/// table seen; any other tag is an error, as are the format's invariant
/// violations.
pub open spec fn nclr_scan(
    ss: Seq<SectionView>,
    o: ByteOrder,
    t: Option<TtlpModel>,
    p: Option<PcmpModel>,
) -> Result<NCLRView, NclrErr>
    decreases ss.len(),
{
    if ss.len() == 0 {
        match t {
            None => Err(NclrErr::MissingPltt),
            Some(tm) => match p {
                None => Err(NclrErr::MissingPcmp),
                Some(pm) => if pm.ids.len() > tm.groups.len() {
                    Err(NclrErr::Malformed)
                } else {
                    Ok(
                        NCLRView {
                            palettes: Seq::new(
                                pm.ids.len(),
                                |i: int| (pm.ids[i], tm.groups[i]),
                            ),
                            is_8_bit: tm.is_8_bit,
                            color_amt: tm.color_amt,
                            pcmp_unk: pm.unk,
                        },
                    )
                },
            },
        }
    } else {
        let s = ss[0];
        if s.magic == ttlp_magic() {
            match parse_ttlp(s.contents, o) {
                Ok(tm) => nclr_scan(ss.drop_first(), o, Some(tm), p),
                Err(e) => Err(e),
            }
        } else if s.magic == pmcp_magic() {
            match parse_pmcp(s.contents, o) {
                Ok(pm) => nclr_scan(ss.drop_first(), o, t, Some(pm)),
                Err(e) => Err(e),
            }
        } else {
            Err(NclrErr::UnknownSection(s.magic))
        }
    }
}

/// The full palette decode: magic check, then the section walk.
pub open spec fn spec_parse_nclr(f: NDSFileView) -> Result<NCLRView, NclrErr> {
    if f.magic != nclr_magic() {
        Err(NclrErr::WrongKind)
    } else {
        nclr_scan(f.sections, f.byteorder, None, None)
    }
}

/// Which [`Error`] value each spec-level failure surfaces as.
pub open spec fn nclr_err_matches(e: Error, k: NclrErr, f: NDSFileView) -> bool {
    match k {
        NclrErr::WrongKind => e matches Error::WrongFileKind { file, expected, got } && file@
            == f.fname && expected@ == nclr_magic() && got@ == f.magic,
        NclrErr::UnknownSection(tag) => e matches Error::UnknownSection { file, s_name } && file@
            == f.fname && s_name@ == tag,
        NclrErr::UnknownFormat(v) => e matches Error::UnknownColorFormat { file, got } && file@
            == f.fname && got == v,
        NclrErr::Truncated => e matches Error::TruncatedData { file } && file@ == f.fname,
        NclrErr::Malformed => e matches Error::MalformedData { file } && file@ == f.fname,
        NclrErr::MissingPltt => e matches Error::MissingRequiredSection { file, s_name } && file@
            == f.fname && s_name@ == seq![0x50u8, 0x4Cu8, 0x54u8, 0x54u8],
        NclrErr::MissingPcmp => e matches Error::MissingRequiredSection { file, s_name } && file@
            == f.fname && s_name@ == seq![0x50u8, 0x43u8, 0x4Du8, 0x50u8],
    }
}

/// Spec image of a vector of color groups.
pub open spec fn groups_view(g: Seq<Vec<ColorBGR555>>) -> Seq<Seq<ColorBGR555>> {
    Seq::new(g.len(), |i: int| g[i]@)
}

/// Spec image of the optional color-table state the decoder carries.
pub open spec fn t_model(t: Option<(Vec<Vec<ColorBGR555>>, bool, u32)>) -> Option<TtlpModel> {
    match t {
        None => None,
        Some(tt) => Some(
            TtlpModel { groups: groups_view(tt.0@), is_8_bit: tt.1, color_amt: tt.2 },
        ),
    }
}

/// Spec image of the optional index-table state the decoder carries.
pub open spec fn p_model(p: Option<(Vec<u16>, Vec<u8>)>) -> Option<PcmpModel> {
    match p {
        None => None,
        Some(pp) => Some(PcmpModel { ids: pp.0@, unk: pp.1@ }),
    }
}

impl NCLR {
    /// Decodes a palette resource from a container: the color-table and
    /// index-table sections may come in either order; each error case of
    /// the spec-level parse surfaces as its own error value.
    pub fn from_ndsfile(file: &NDSFile) -> (r: Result<NCLR, Error>)
        ensures
            match r {
                Ok(x) => spec_parse_nclr(file@) == Ok::<NCLRView, NclrErr>(x@),
                Err(e) => spec_parse_nclr(file@) matches Err(k) && nclr_err_matches(e, k, file@),
            },
    {
        let o = file.byteorder;
        if !tag_eq(&file.magic, 0x52, 0x4C, 0x43, 0x4E) {
            return Err(Error::WrongFileKind {
                file: file.fname.clone(),
                expected: tag4(0x52, 0x4C, 0x43, 0x4E),
                got: copy_bytes(&file.magic),
            });
        }
        let n_secs = file.sections.len();
        let mut t_st: Option<(Vec<Vec<ColorBGR555>>, bool, u32)> = None;
        let mut p_st: Option<(Vec<u16>, Vec<u8>)> = None;
        let mut si: usize = 0;
        proof {
            assert(file@.sections.skip(0) =~= file@.sections);
        }
        while si < n_secs
            invariant
                n_secs == file.sections@.len(),
                si <= n_secs,
                o == file.byteorder,
                file@.magic == nclr_magic(),
                nclr_scan(file@.sections, o, None, None) == nclr_scan(
                    file@.sections.skip(si as int),
                    o,
                    t_model(t_st),
                    p_model(p_st),
                ),
            decreases n_secs - si,
        {
            let sec = &file.sections[si];
            let ghost rem = file@.sections.skip(si as int);
            proof {
                assert(file@.sections[si as int] == sec@);
                assert(rem[0] == sec@);
                assert(rem.drop_first() =~= file@.sections.skip(si + 1));
            }
            if tag_eq(&sec.magic, 0x54, 0x54, 0x4C, 0x50) {
                let c = &sec.contents;
                let clen = c.len();
                if clen < 16 {
                    return Err(Error::TruncatedData { file: file.fname.clone() });
                }
                let mode = get_u32(c, 0, o);
                if mode != 3 && mode != 4 {
                    return Err(Error::UnknownColorFormat { file: file.fname.clone(), got: mode });
                }
                let is8 = mode == 4;
                let data_size = get_u32(c, 8, o);
                let amt = get_u32(c, 12, o);
                if amt == 0 && data_size > 0 {
                    return Err(Error::MalformedData { file: file.fname.clone() });
                }
                let g64: u64 = if amt == 0 {
                    0
                } else {
                    (data_size as u64 + 2 * amt as u64 - 1) / (2 * amt as u64)
                };
                proof {
                    assert(g64 as int == ttlp_group_count(data_size as int, amt as int));
                    if amt > 0 {
                        let x = data_size as int + 2 * (amt as int) - 1;
                        let d = 2 * (amt as int);
                        vstd::arithmetic::div_mod::lemma_fundamental_div_mod(x, d);
                        vstd::arithmetic::div_mod::lemma_mod_bound(x, d);
                        assert(d * (x / d) <= x);
                        assert(g64 * (amt as u64) * 2 <= x) by (nonlinear_arith)
                            requires
                                g64 == x / d && d == 2 * (amt as int) && d * (x / d) <= x,
                        ;
                    }
                }
                let need: u64 = g64 * amt as u64 * 2;
                if 16 + need > clen as u64 {
                    return Err(Error::TruncatedData { file: file.fname.clone() });
                }
                if is8 && g64 != 1 {
                    return Err(Error::MalformedData { file: file.fname.clone() });
                }
                proof {
                    if amt == 0 {
                        assert(g64 == 0);
                    } else {
                        assert(g64 <= g64 * (amt as u64) * 2) by (nonlinear_arith)
                            requires
                                amt >= 1 && g64 >= 0,
                        ;
                    }
                    assert(g64 <= clen);
                    assert((g64 as int) * (amt as int) <= clen as int) by (nonlinear_arith)
                        requires
                            16 + (g64 as int) * (amt as int) * 2 <= clen as int && g64 >= 0 && amt
                                >= 0,
                    ;
                }
                let g = g64 as usize;
                let amt_us = amt as usize;
                let total = g * amt_us;
                let words = get_u16s(c, 16, total, o);
                let ghost spec_groups = parse_ttlp(sec@.contents, o)->Ok_0.groups;
                proof {
                    assert(parse_ttlp(sec@.contents, o) is Ok);
                    assert forall|i: int| 0 <= i < g implies #[trigger] spec_groups[i] == Seq::new(
                        amt as nat,
                        |j: int| ColorBGR555::spec_from_u16(words@[i * (amt as int) + j]),
                    ) by {
                        assert forall|j: int| 0 <= j < amt implies #[trigger] spec_groups[i][j]
                            == ColorBGR555::spec_from_u16(words@[i * (amt as int) + j]) by {
                            let k = i * (amt as int) + j;
                            assert(0 <= k && k < total) by (nonlinear_arith)
                                requires
                                    0 <= i < g && 0 <= j < amt && total == g * (amt as int) && k
                                        == i * (amt as int) + j,
                            ;
                            assert(words@[k] == spec_u16(c@[16 + 2 * k], c@[16 + 2 * k + 1], o));
                        }
                        assert(spec_groups[i] =~= Seq::new(
                            amt as nat,
                            |j: int| ColorBGR555::spec_from_u16(words@[i * (amt as int) + j]),
                        ));
                    }
                }
                let mut groups: Vec<Vec<ColorBGR555>> = Vec::new();
                let mut gi: usize = 0;
                while gi < g
                    invariant
                        gi <= g,
                        total == g * amt_us,
                        amt_us == amt,
                        words@.len() == total,
                        groups@.len() == gi,
                        spec_groups.len() == g,
                        forall|i: int|
                            0 <= i < g ==> (#[trigger] spec_groups[i]) == Seq::new(
                                amt as nat,
                                |j: int| ColorBGR555::spec_from_u16(words@[i * (amt as int) + j]),
                            ),
                        forall|i: int| 0 <= i < gi ==> (#[trigger] groups@[i])@ == spec_groups[i],
                    decreases g - gi,
                {
                    let mut cur: Vec<ColorBGR555> = Vec::new();
                    let mut j: usize = 0;
                    proof {
                        assert(gi * amt_us + amt_us <= g * amt_us) by (nonlinear_arith)
                            requires
                                gi < g && amt_us >= 0,
                        ;
                    }
                    let base = gi * amt_us;
                    while j < amt_us
                        invariant
                            j <= amt_us,
                            base == gi * amt_us,
                            base + amt_us <= total,
                            words@.len() == total,
                            cur@ =~= Seq::new(
                                j as nat,
                                |jj: int|
                                    ColorBGR555::spec_from_u16(words@[gi * (amt_us as int) + jj]),
                            ),
                        decreases amt_us - j,
                    {
                        let w = words[base + j];
                        cur.push(ColorBGR555::from_u16(w));
                        j = j + 1;
                        proof {
                            assert(cur@ =~= Seq::new(
                                j as nat,
                                |jj: int|
                                    ColorBGR555::spec_from_u16(words@[gi * (amt_us as int) + jj]),
                            ));
                        }
                    }
                    groups.push(cur);
                    gi = gi + 1;
                    proof {
                        assert(groups@[gi - 1]@ =~= spec_groups[gi - 1]);
                    }
                }
                t_st = Some((groups, is8, amt));
                proof {
                    let tm = t_model(t_st)->Some_0;
                    assert(tm.groups =~= spec_groups);
                    assert(parse_ttlp(sec@.contents, o) == Ok::<TtlpModel, NclrErr>(tm));
                }
            } else if tag_eq(&sec.magic, 0x50, 0x4D, 0x43, 0x50) {
                let c = &sec.contents;
                let clen = c.len();
                if clen < 8 {
                    return Err(Error::TruncatedData { file: file.fname.clone() });
                }
                let count = get_u16(c, 0, o) as usize;
                if count > (clen - 8) / 2 {
                    return Err(Error::TruncatedData { file: file.fname.clone() });
                }
                let ids = get_u16s(c, 8, count, o);
                let mut unk: Vec<u8> = Vec::new();
                let mut k: usize = 2;
                while k < 8
                    invariant
                        2 <= k <= 8,
                        c@.len() >= 8,
                        unk@ =~= c@.subrange(2, k as int),
                    decreases 8 - k,
                {
                    unk.push(c[k]);
                    k = k + 1;
                    proof {
                        assert(unk@ =~= c@.subrange(2, k as int));
                    }
                }
                p_st = Some((ids, unk));
                proof {
                    let pm = p_model(p_st)->Some_0;
                    assert(parse_pmcp(sec@.contents, o) == Ok::<PcmpModel, NclrErr>(pm));
                }
            } else {
                return Err(Error::UnknownSection {
                    file: file.fname.clone(),
                    s_name: copy_bytes(&sec.magic),
                });
            }
            si = si + 1;
        }
        proof {
            assert(file@.sections.skip(n_secs as int) =~= Seq::<SectionView>::empty());
        }
        match (t_st, p_st) {
            (Some((groups, is8, amt)), Some((ids, unk))) => {
                if ids.len() > groups.len() {
                    return Err(Error::MalformedData { file: file.fname.clone() });
                }
                let mut palettes: Vec<(u16, Vec<ColorBGR555>)> = Vec::new();
                let mut m: usize = 0;
                while m < ids.len()
                    invariant
                        m <= ids@.len(),
                        ids@.len() <= groups@.len(),
                        palettes@.len() == m,
                        forall|i: int|
                            0 <= i < m ==> (#[trigger] palettes@[i]).0 == ids@[i] && palettes@[i].1@
                                == groups@[i]@,
                    decreases ids@.len() - m,
                {
                    let grp = &groups[m];
                    let mut cp: Vec<ColorBGR555> = Vec::new();
                    let mut q: usize = 0;
                    while q < grp.len()
                        invariant
                            q <= grp@.len(),
                            cp@ =~= grp@.subrange(0, q as int),
                        decreases grp@.len() - q,
                    {
                        cp.push(grp[q]);
                        q = q + 1;
                        proof {
                            assert(cp@ =~= grp@.subrange(0, q as int));
                        }
                    }
                    proof {
                        assert(cp@ =~= grp@);
                    }
                    let id = ids[m];
                    palettes.push((id, cp));
                    m = m + 1;
                }
                let x = NCLR { palettes, is_8_bit: is8, color_amt: amt, pcmp_unk: unk };
                proof {
                    let expected = nclr_scan(
                        file@.sections.skip(file.sections@.len() as int),
                        o,
                        t_model(Some((groups, is8, amt))),
                        p_model(Some((ids, unk))),
                    );
                    assert(expected is Ok);
                    assert(x@.palettes =~= expected->Ok_0.palettes) by {
                        assert forall|i: int| 0 <= i < ids@.len() implies x@.palettes[i]
                            == expected->Ok_0.palettes[i] by {
                            assert(x@.palettes[i].0 == ids@[i]);
                            assert(x@.palettes[i].1 == groups_view(groups@)[i]);
                        }
                    }
                    assert(x@ == expected->Ok_0);
                }
                Ok(x)
            },
            (None, _) => Err(Error::MissingRequiredSection {
                file: file.fname.clone(),
                s_name: tag4(0x50, 0x4C, 0x54, 0x54),
            }),
            (Some(_), None) => Err(Error::MissingRequiredSection {
                file: file.fname.clone(),
                s_name: tag4(0x50, 0x43, 0x4D, 0x50),
            }),
        }
    }

    /// Serializes the palette resource into a container, ids in stored
    /// (ascending) order so repeated encodes are byte-identical.
    pub fn to_ndsfile(&self, fname: String, byteorder: ByteOrder) -> (r: Result<NDSFile, Error>)
        requires
            self@.wf(),
        ensures
            (r matches Ok(f) && f@ == spec_nclr_file(self@, fname@, byteorder)),
    {
        let o = byteorder;
        let n = self.palettes.len();

        let mut words: Vec<u16> = Vec::new();
        let mut i: usize = 0;
        while i < n
            invariant
                self@.wf(),
                n == self.palettes@.len(),
                i <= n,
                words@ == pal_color_words(self@.palettes.subrange(0, i as int)),
            decreases n - i,
        {
            let pal = &self.palettes[i].1;
            proof {
                assert(self@.palettes[i as int].1 == pal@);
                assert(self@.palettes[i as int].1.len() == self@.color_amt);
                assert forall|k: int| 0 <= k < pal@.len() implies (#[trigger] pal@[k]).wf() by {
                    assert(self@.palettes[i as int].1[k].wf());
                }
            }
            let mut j: usize = 0;
            while j < pal.len()
                invariant
                    self@.wf(),
                    n == self.palettes@.len(),
                    i < n,
                    pal@ == self.palettes@[i as int].1@,
                    j <= pal@.len(),
                    pal@.len() == self@.color_amt,
                    forall|k: int| 0 <= k < pal@.len() ==> (#[trigger] pal@[k]).wf(),
                    words@ == pal_color_words(self@.palettes.subrange(0, i as int)) + color_words(
                        pal@.subrange(0, j as int),
                    ),
                decreases pal@.len() - j,
            {
                let w = pal[j].to_u16();
                words.push(w);
                j = j + 1;
                proof {
                    assert(color_words(pal@.subrange(0, j as int)) =~= color_words(
                        pal@.subrange(0, j - 1),
                    ).push(pal@[j - 1].spec_to_u16()));
                    assert(words@ =~= pal_color_words(self@.palettes.subrange(0, i as int))
                        + color_words(pal@.subrange(0, j as int)));
                }
            }
            i = i + 1;
            proof {
                lemma_pal_color_words_snoc(
                    self@.palettes.subrange(0, i - 1),
                    self@.palettes[i - 1],
                );
                assert(self@.palettes.subrange(0, i as int) =~= self@.palettes.subrange(
                    0,
                    i - 1,
                ).push(self@.palettes[i - 1]));
                assert(pal@.subrange(0, pal@.len() as int) =~= pal@);
                assert(pal@ == self@.palettes[i - 1].1);
            }
        }
        proof {
            assert(self@.palettes.subrange(0, n as int) =~= self@.palettes);
            lemma_pal_color_words_len(self@.palettes, self@.color_amt as int);
        }

        let mut pltt_buffer: Vec<u8> = Vec::new();
        put_u32(&mut pltt_buffer, if self.is_8_bit { 4 } else { 3 }, o);
        put_u32(&mut pltt_buffer, 0, o);
        proof {
            assert(self@.palettes.len() * self@.color_amt * 2 == (self@.palettes.len()
                * self@.color_amt) * 2) by (nonlinear_arith);
        }
        put_u32(&mut pltt_buffer, (n * self.color_amt as usize * 2) as u32, o);
        put_u32(&mut pltt_buffer, self.color_amt, o);
        put_u16s(&mut pltt_buffer, &words, o);
        proof {
            assert(pltt_buffer@ =~= ttlp_contents(self@, o));
        }

        let mut ids: Vec<u16> = Vec::new();
        let mut i: usize = 0;
        while i < n
            invariant
                n == self.palettes@.len(),
                i <= n,
                ids@ =~= pal_ids(self@.palettes).subrange(0, i as int),
            decreases n - i,
        {
            let id = self.palettes[i].0;
            ids.push(id);
            i = i + 1;
            proof {
                assert(ids@ =~= pal_ids(self@.palettes).subrange(0, i as int));
            }
        }
        proof {
            assert(pal_ids(self@.palettes).subrange(0, n as int) =~= pal_ids(self@.palettes));
        }
        let mut pcmp_buffer: Vec<u8> = Vec::new();
        put_u16(&mut pcmp_buffer, n as u16, o);
        let mut k: usize = 0;
        while k < self.pcmp_unk.len()
            invariant
                k <= self.pcmp_unk@.len(),
                pcmp_buffer@ == u16_bytes(self.palettes@.len() as u16, o) + self.pcmp_unk@.subrange(
                    0,
                    k as int,
                ),
            decreases self.pcmp_unk@.len() - k,
        {
            pcmp_buffer.push(self.pcmp_unk[k]);
            k = k + 1;
            proof {
                assert(pcmp_buffer@ =~= u16_bytes(self.palettes@.len() as u16, o)
                    + self.pcmp_unk@.subrange(0, k as int));
            }
        }
        proof {
            assert(self.pcmp_unk@.subrange(0, self.pcmp_unk@.len() as int) =~= self.pcmp_unk@);
        }
        put_u16s(&mut pcmp_buffer, &ids, o);
        proof {
            assert(pcmp_buffer@ =~= pmcp_contents(self@, o));
        }

        let ttlp_sec = Section { magic: tag4(0x54, 0x54, 0x4C, 0x50), contents: pltt_buffer };
        let pmcp_sec = Section { magic: tag4(0x50, 0x4D, 0x43, 0x50), contents: pcmp_buffer };
        let mut sections: Vec<Section> = Vec::new();
        sections.push(ttlp_sec);
        sections.push(pmcp_sec);
        let f = NDSFile { fname, magic: tag4(0x52, 0x4C, 0x43, 0x4E), byteorder: o, sections };
        proof {
            assert(f@.sections =~= spec_nclr_file(self@, fname@, o).sections);
            assert(f@ == spec_nclr_file(self@, fname@, o));
        }
        Ok(f)
    }
}

/// Round-trip exactness for palette resources: decoding an encoded valid
/// resource yields it back field-for-field, except that every color's
/// unused high bit is normalized to 0.
/// The first palette with the given id, if any: palettes are searched in
/// stored order.
pub open spec fn pal_index(ps: Seq<(u16, Seq<ColorBGR555>)>, id: u16, i: int) -> Option<int>
    decreases ps.len() - i,
{
    if i < 0 || i >= ps.len() {
        None
    } else if ps[i].0 == id {
        Some(i)
    } else {
        pal_index(ps, id, i + 1)
    }
}

impl NCLR {
    /// Finds the stored palette with the given id, searching in stored
    /// order.
    pub fn find_palette(&self, id: u16) -> (r: Option<usize>)
        ensures
            match r {
                Some(i) => pal_index(self@.palettes, id, 0) == Some(i as int) && i
                    < self.palettes@.len() && self@.palettes[i as int].0 == id,
                None => pal_index(self@.palettes, id, 0) is None,
            },
    {
        let n = self.palettes.len();
        let mut i: usize = 0;
        while i < n
            invariant
                n == self.palettes@.len(),
                i <= n,
                pal_index(self@.palettes, id, 0) == pal_index(self@.palettes, id, i as int),
            decreases n - i,
        {
            if self.palettes[i].0 == id {
                proof {
                    assert(self@.palettes[i as int].0 == id);
                }
                return Some(i);
            }
            proof {
                assert(self@.palettes[i as int].0 != id);
            }
            i = i + 1;
        }
        None
    }
}

/// The raw-palette model the color-table section of an encoded valid
/// resource parses back to.
pub open spec fn ttlp_of(x: NCLRView) -> TtlpModel {
    TtlpModel {
        groups: Seq::new(
            x.palettes.len(),
            |i: int|
                Seq::new(
                    x.palettes[i].1.len(),
                    |j: int| ColorBGR555 { x: false, ..x.palettes[i].1[j] },
                ),
        ),
        is_8_bit: x.is_8_bit,
        color_amt: x.color_amt,
    }
}

/// The color-table section round-trips to the raw palettes, with unused
/// bits cleared.
#[verifier::rlimit(60)]
pub proof fn lemma_ttlp_round_trip(x: NCLRView, o: ByteOrder)
    requires
        x.wf(),
    ensures
        parse_ttlp(ttlp_contents(x, o), o) == Ok::<TtlpModel, NclrErr>(ttlp_of(x)),
{
    let n = x.palettes.len() as int;
    let amt = x.color_amt as int;
    let words = pal_color_words(x.palettes);
    lemma_pal_color_words_len(x.palettes, amt);
    lemma_u16s_bytes_len(words, o);

    let c = ttlp_contents(x, o);
    let mode_v: u32 = if x.is_8_bit { 4 } else { 3 };
    let ds_v: u32 = (n * amt * 2) as u32;
    let a = u32_bytes(mode_v, o);
    let b = u32_bytes(0u32, o);
    let d4 = u32_bytes(ds_v, o);
    let e4 = u32_bytes(x.color_amt, o);
    let tailw = u16s_bytes(words, o);
    assert(c == a + b + d4 + e4 + tailw);
    lemma_u32_round_trip(mode_v, o);
    lemma_u32_round_trip(0u32, o);
    lemma_u32_round_trip(ds_v, o);
    lemma_u32_round_trip(x.color_amt, o);
    assert(c.len() == 16 + 2 * words.len());
    assert(c[0] == a[0] && c[1] == a[1] && c[2] == a[2] && c[3] == a[3]);
    assert(c[8] == d4[0] && c[9] == d4[1] && c[10] == d4[2] && c[11] == d4[3]);
    assert(c[12] == e4[0] && c[13] == e4[1] && c[14] == e4[2] && c[15] == e4[3]);
    assert(spec_u32(c[0], c[1], c[2], c[3], o) == mode_v);
    assert(spec_u32(c[8], c[9], c[10], c[11], o) == ds_v);
    assert(spec_u32(c[12], c[13], c[14], c[15], o) == x.color_amt);
    // group count comes back as the palette count
    assert(n * amt * 2 == n * (2 * amt)) by (nonlinear_arith);
    vstd::arithmetic::div_mod::lemma_fundamental_div_mod_converse(
        n * (2 * amt) + (2 * amt - 1),
        2 * amt,
        n,
        2 * amt - 1,
    );
    assert(ttlp_group_count(ds_v as int, amt) == n);
    assert(16 + n * amt * 2 <= c.len());
    // the color words parse back unchanged
    assert forall|k: int| 0 <= k < tailw.len() implies c[16 + k] == tailw[k] by {
        assert(c[16 + k] == (a + b + d4 + e4 + tailw)[16 + k]);
    }
    assert(c.subrange(16, 16 + 2 * words.len() as int) =~= tailw);
    lemma_parse_u16s_of_encoded(c, 16, words, o);
    let tm = parse_ttlp(c, o)->Ok_0;
    assert(parse_ttlp(c, o) is Ok);
    assert(tm.is_8_bit == x.is_8_bit && tm.color_amt == x.color_amt);
    assert(tm.groups.len() == n);
    assert forall|i: int| 0 <= i < n implies #[trigger] tm.groups[i] == ttlp_of(x).groups[i] by {
        assert forall|j: int| 0 <= j < amt implies #[trigger] tm.groups[i][j] == (ColorBGR555 {
            x: false,
            ..x.palettes[i].1[j]
        }) by {
            let k = i * amt + j;
            lemma_pal_color_words_index(x.palettes, amt, i, j);
            assert(0 <= k < words.len()) by (nonlinear_arith)
                requires
                    0 <= i < n && 0 <= j < amt && words.len() == n * amt && k == i * amt + j,
            ;
            assert(spec_u16(c[16 + 2 * k], c[16 + 2 * k + 1], o) == parse_u16s(
                c,
                16,
                words.len() as int,
                o,
            )[k]);
            assert(words[k] == x.palettes[i].1[j].spec_to_u16());
            crate::color::lemma_color_round_trip(x.palettes[i].1[j]);
        }
        assert(tm.groups[i] =~= ttlp_of(x).groups[i]);
    }
    assert(tm.groups =~= ttlp_of(x).groups);
    assert(tm == ttlp_of(x));
}

/// The index-table section round-trips to the ids and reserved bytes.
pub proof fn lemma_pmcp_round_trip(x: NCLRView, o: ByteOrder)
    requires
        x.wf(),
    ensures
        parse_pmcp(pmcp_contents(x, o), o) == Ok::<PcmpModel, NclrErr>(
            (PcmpModel { ids: pal_ids(x.palettes), unk: x.pcmp_unk }),
        ),
{
    let n = x.palettes.len() as int;
    let c2 = pmcp_contents(x, o);
    let ids = pal_ids(x.palettes);
    let idb = u16s_bytes(ids, o);
    lemma_u16s_bytes_len(ids, o);
    assert(c2 == u16_bytes(n as u16, o) + x.pcmp_unk + idb);
    lemma_u16_round_trip(n as u16, o);
    assert(c2.len() == 8 + 2 * n);
    assert(c2[0] == u16_bytes(n as u16, o)[0] && c2[1] == u16_bytes(n as u16, o)[1]);
    assert(spec_u16(c2[0], c2[1], o) == n);
    assert forall|k: int| 0 <= k < idb.len() implies c2[8 + k] == idb[k] by {
        assert(c2[8 + k] == (u16_bytes(n as u16, o) + x.pcmp_unk + idb)[8 + k]);
    }
    assert(c2.subrange(8, 8 + 2 * n) =~= idb);
    lemma_parse_u16s_of_encoded(c2, 8, ids, o);
    assert(c2.subrange(2, 8) =~= x.pcmp_unk);
    let pm = parse_pmcp(c2, o)->Ok_0;
    assert(parse_pmcp(c2, o) is Ok);
    assert(pm.ids == ids && pm.unk == x.pcmp_unk);
}

/// Round-trip exactness for palette resources: decoding an encoded valid
/// resource yields it back field-for-field, except that every color's
/// unused high bit is normalized to 0.
pub proof fn lemma_nclr_round_trip(x: NCLRView, fname: Seq<char>, o: ByteOrder)
    requires
        x.wf(),
    ensures
        spec_parse_nclr(spec_nclr_file(x, fname, o)) == Ok::<NCLRView, NclrErr>(x.clear_x()),
{
    let f = spec_nclr_file(x, fname, o);
    let n = x.palettes.len() as int;
    lemma_ttlp_round_trip(x, o);
    lemma_pmcp_round_trip(x, o);
    let tm = ttlp_of(x);
    let pm = PcmpModel { ids: pal_ids(x.palettes), unk: x.pcmp_unk };

    assert(ttlp_magic()[0] != pmcp_magic()[0]);
    assert(pmcp_magic() != ttlp_magic());
    let ss = f.sections;
    assert(ss[0].magic == ttlp_magic() && ss[0].contents == ttlp_contents(x, o));
    assert(ss.drop_first()[0].magic == pmcp_magic() && ss.drop_first()[0].contents
        == pmcp_contents(x, o));
    assert(ss.drop_first().drop_first() =~= Seq::<SectionView>::empty());
    let out = nclr_scan(ss, o, None, None);
    assert(out == nclr_scan(ss.drop_first(), o, Some(tm), None));
    assert(out == nclr_scan(ss.drop_first().drop_first(), o, Some(tm), Some(pm)));
    assert(pm.ids.len() == n && tm.groups.len() == n);
    assert(out is Ok);
    let y = out->Ok_0;
    assert(y.palettes.len() == n);
    assert forall|i: int| 0 <= i < n implies #[trigger] y.palettes[i]
        == x.clear_x().palettes[i] by {
        assert(y.palettes[i].0 == pal_ids(x.palettes)[i]);
        assert(y.palettes[i].1 == tm.groups[i]);
    }
    assert(y.palettes =~= x.clear_x().palettes);
    assert(y == x.clear_x());
}

} // verus!
