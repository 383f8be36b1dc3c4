use vstd::prelude::*;

use crate::bytes::{
    lemma_u16_round_trip, lemma_u32_round_trip,
    get_u16, get_u32, put_u16, put_u32, spec_u16, spec_u32, u16_bytes, u32_bytes, ByteOrder,
};
use crate::error::Error;

verus! {

/// One named chunk of a container file: a 4-byte ASCII tag and a raw
/// payload, read and written verbatim.
#[derive(Debug, Clone)]
pub struct Section {
    pub magic: Vec<u8>,
    pub contents: Vec<u8>,
}

/// Mathematical image of a [`Section`].
pub struct SectionView {
    pub magic: Seq<u8>,
    pub contents: Seq<u8>,
}

impl View for Section {
    type V = SectionView;

    open spec fn view(&self) -> SectionView {
        SectionView { magic: self.magic@, contents: self.contents@ }
    }
}

impl SectionView {
    pub open spec fn wf(self) -> bool {
        &&& self.magic.len() == 4
        &&& self.contents.len() + 8 <= u32::MAX
    }
}

/// The generic chunked container envelope every format in this family
/// shares: a 4-byte magic tag, a byte-order mark governing every multi-byte
/// integer in the file, and an ordered list of sections.
#[derive(Debug, Clone)]
pub struct NDSFile {
    pub fname: String,
    pub magic: Vec<u8>,
    pub byteorder: ByteOrder,
    pub sections: Vec<Section>,
}

/// Mathematical image of an [`NDSFile`].
pub struct NDSFileView {
    pub fname: Seq<char>,
    pub magic: Seq<u8>,
    pub byteorder: ByteOrder,
    pub sections: Seq<SectionView>,
}

impl View for NDSFile {
    type V = NDSFileView;

    open spec fn view(&self) -> NDSFileView {
        NDSFileView {
            fname: self.fname@,
            magic: self.magic@,
            byteorder: self.byteorder,
            sections: Seq::new(self.sections@.len(), |i: int| self.sections@[i]@),
        }
    }
}

/// Bytes one serialized section occupies: tag, length field, payload.
pub open spec fn section_size(s: SectionView) -> int {
    8 + s.contents.len() as int
}

/// Bytes all sections of a list occupy together.
pub open spec fn sections_size(ss: Seq<SectionView>) -> int
    decreases ss.len(),
{
    if ss.len() == 0 {
        0
    } else {
        section_size(ss[0]) + sections_size(ss.drop_first())
    }
}

impl NDSFileView {
    pub open spec fn wf(self) -> bool {
        &&& self.magic.len() == 4
        &&& self.sections.len() <= u16::MAX
        &&& (forall|i: int| 0 <= i < self.sections.len() ==> (#[trigger] self.sections[i]).wf())
        &&& 16 + sections_size(self.sections) <= u32::MAX
    }

    /// Total size of the serialized file, the value backpatched into the
    /// header's size field.
    pub open spec fn total_size(self) -> int {
        16 + sections_size(self.sections)
    }
}

/// The byte-order mark: `FF FE` for little-endian, `FE FF` for big-endian.
pub open spec fn bom_bytes(o: ByteOrder) -> Seq<u8> {
    match o {
        ByteOrder::LittleEndian => seq![0xFFu8, 0xFEu8],
        ByteOrder::BigEndian => seq![0xFEu8, 0xFFu8],
    }
}

/// One serialized section: tag, payload length plus the 8-byte overhead,
/// payload verbatim.
pub open spec fn section_bytes(s: SectionView, o: ByteOrder) -> Seq<u8> {
    s.magic + u32_bytes((s.contents.len() + 8) as u32, o) + s.contents
}

/// All sections serialized in order.
pub open spec fn sections_bytes(ss: Seq<SectionView>, o: ByteOrder) -> Seq<u8>
    decreases ss.len(),
{
    if ss.len() == 0 {
        Seq::empty()
    } else {
        section_bytes(ss[0], o) + sections_bytes(ss.drop_first(), o)
    }
}

/// The 16-byte file header with a caller-chosen value in the total-size
/// field; encoding first writes 0 there and backpatches the real size.
pub open spec fn header_bytes(f: NDSFileView, size_field: u32) -> Seq<u8> {
    f.magic + bom_bytes(f.byteorder) + u16_bytes(1, f.byteorder) + u32_bytes(
        size_field,
        f.byteorder,
    ) + u16_bytes(0x10, f.byteorder) + u16_bytes(f.sections.len() as u16, f.byteorder)
}

/// The whole serialized container.
pub open spec fn spec_file_bytes(f: NDSFileView) -> Seq<u8> {
    header_bytes(f, f.total_size() as u32) + sections_bytes(f.sections, f.byteorder)
}

/// Serializing a list of sections with one more at the end appends that
/// section's bytes.
pub proof fn lemma_sections_bytes_snoc(ss: Seq<SectionView>, s: SectionView, o: ByteOrder)
    ensures
        sections_bytes(ss.push(s), o) == sections_bytes(ss, o) + section_bytes(s, o),
        sections_size(ss.push(s)) == sections_size(ss) + section_size(s),
    decreases ss.len(),
{
    if ss.len() == 0 {
        assert(ss.push(s).drop_first() =~= Seq::<SectionView>::empty());
        assert(sections_bytes(ss.push(s).drop_first(), o) == Seq::<u8>::empty());
        assert(sections_size(ss.push(s).drop_first()) == 0);
        assert(ss.push(s)[0] == s);
        assert(sections_bytes(ss.push(s), o) =~= sections_bytes(ss, o) + section_bytes(s, o));
    } else {
        assert(ss.push(s).drop_first() =~= ss.drop_first().push(s));
        lemma_sections_bytes_snoc(ss.drop_first(), s, o);
        assert(ss.push(s)[0] == ss[0]);
        assert(sections_bytes(ss.push(s), o) == section_bytes(ss[0], o) + (sections_bytes(
            ss.drop_first(),
            o,
        ) + section_bytes(s, o)));
        assert(sections_bytes(ss.push(s), o) =~= sections_bytes(ss, o) + section_bytes(s, o));
    }
}

/// The serialized sections occupy exactly `sections_size` bytes.
pub proof fn lemma_sections_bytes_len(ss: Seq<SectionView>, o: ByteOrder)
    requires
        forall|i: int| 0 <= i < ss.len() ==> (#[trigger] ss[i]).wf(),
    ensures
        sections_bytes(ss, o).len() == sections_size(ss),
    decreases ss.len(),
{
    if ss.len() != 0 {
        assert(ss[0].wf());
        assert(forall|i: int|
            0 <= i < ss.drop_first().len() ==> (#[trigger] ss.drop_first()[i]).wf());
        lemma_sections_bytes_len(ss.drop_first(), o);
        assert(section_bytes(ss[0], o).len() == 8 + ss[0].contents.len());
    }
}

/// Sizes are never negative.
pub proof fn lemma_sections_size_nonneg(ss: Seq<SectionView>)
    ensures
        sections_size(ss) >= 0,
    decreases ss.len(),
{
    if ss.len() != 0 {
        lemma_sections_size_nonneg(ss.drop_first());
    }
}

/// Builds a 4-byte tag.
pub fn tag4(b0: u8, b1: u8, b2: u8, b3: u8) -> (r: Vec<u8>)
    ensures
        r@ == seq![b0, b1, b2, b3],
{
    let mut r: Vec<u8> = Vec::new();
    r.push(b0);
    r.push(b1);
    r.push(b2);
    r.push(b3);
    proof {
        assert(r@ =~= seq![b0, b1, b2, b3]);
    }
    r
}

/// Compares a tag against the four bytes given.
pub fn tag_eq(a: &Vec<u8>, b0: u8, b1: u8, b2: u8, b3: u8) -> (r: bool)
    ensures
        r == (a@ == seq![b0, b1, b2, b3]),
{
    let r = a.len() == 4 && a[0] == b0 && a[1] == b1 && a[2] == b2 && a[3] == b3;
    proof {
        if r {
            assert(a@ =~= seq![b0, b1, b2, b3]);
        } else {
            assert(a@ != seq![b0, b1, b2, b3]) by {
                if a@ == seq![b0, b1, b2, b3] {
                    assert(a@.len() == 4);
                    assert(a@[0] == b0 && a@[1] == b1 && a@[2] == b2 && a@[3] == b3);
                }
            }
        }
    }
    r
}

/// What a container file denotes: its magic tag, its byte order, and its
/// section list.
pub struct ContainerModel {
    pub magic: Seq<u8>,
    pub byteorder: ByteOrder,
    pub sections: Seq<SectionView>,
}

/// Outcome of reading a container: a model, a bad byte-order mark, or a
/// read that ran past the end of the buffer.
pub enum ContainerParse {
    Parsed(ContainerModel),
    BadBOM,
    Short,
}

/// The model an [`NDSFile`] value carries.
pub open spec fn file_model(f: NDSFileView) -> ContainerModel {
    ContainerModel { magic: f.magic, byteorder: f.byteorder, sections: f.sections }
}

/// The byte order a byte-order-mark pair denotes, if any.
pub open spec fn spec_parse_bom(b0: u8, b1: u8) -> Option<ByteOrder> {
    if b0 == 0xFF && b1 == 0xFE {
        Some(ByteOrder::LittleEndian)
    } else if b0 == 0xFE && b1 == 0xFF {
        Some(ByteOrder::BigEndian)
    } else {
        None
    }
}

/// Reads `count` sections starting at `pos`: each is a 4-byte tag, a length
/// that counts its own 8-byte overhead, and a verbatim payload. `None`
/// when a read would run past the end.
pub open spec fn spec_parse_sections(
    bytes: Seq<u8>,
    pos: int,
    count: int,
    o: ByteOrder,
) -> Option<Seq<SectionView>>
    decreases count,
{
    if count <= 0 {
        Some(Seq::empty())
    } else if pos + 8 > bytes.len() {
        None
    } else {
        let size = spec_u32(bytes[pos + 4], bytes[pos + 5], bytes[pos + 6], bytes[pos + 7], o) as int;
        if size < 8 || pos + size > bytes.len() {
            None
        } else {
            match spec_parse_sections(bytes, pos + size, count - 1, o) {
                Some(rest) => Some(
                    seq![
                        SectionView {
                            magic: bytes.subrange(pos, pos + 4),
                            contents: bytes.subrange(pos + 8, pos + size),
                        },
                    ] + rest,
                ),
                None => None,
            }
        }
    }
}

/// Reads a whole container file: magic, byte-order mark, the three header
/// fields that are only size bookkeeping, a section count, and the
/// sections.
pub open spec fn spec_parse_file(bytes: Seq<u8>) -> ContainerParse {
    if bytes.len() < 6 {
        ContainerParse::Short
    } else {
        match spec_parse_bom(bytes[4], bytes[5]) {
            None => ContainerParse::BadBOM,
            Some(o) => if bytes.len() < 16 {
                ContainerParse::Short
            } else {
                let count = spec_u16(bytes[14], bytes[15], o) as int;
                match spec_parse_sections(bytes, 16, count, o) {
                    Some(ss) => ContainerParse::Parsed(
                        ContainerModel { magic: bytes.subrange(0, 4), byteorder: o, sections: ss },
                    ),
                    None => ContainerParse::Short,
                }
            },
        }
    }
}

/// Reading sections back from their own serialization yields them
/// unchanged, when nothing follows them in the buffer.
pub proof fn lemma_parse_sections_of_encoded(
    bytes: Seq<u8>,
    pos: int,
    ss: Seq<SectionView>,
    o: ByteOrder,
)
    requires
        forall|i: int| 0 <= i < ss.len() ==> (#[trigger] ss[i]).wf(),
        0 <= pos,
        bytes.len() == pos + sections_size(ss),
        bytes.subrange(pos, bytes.len() as int) == sections_bytes(ss, o),
    ensures
        spec_parse_sections(bytes, pos, ss.len() as int, o) == Some(ss),
    decreases ss.len(),
{
    if ss.len() == 0 {
        assert(ss =~= Seq::<SectionView>::empty());
    } else {
        let s0 = ss[0];
        let rest = ss.drop_first();
        lemma_sections_size_nonneg(rest);
        lemma_sections_bytes_len(ss, o);
        assert(forall|i: int| 0 <= i < rest.len() ==> (#[trigger] rest[i]).wf());
        lemma_sections_bytes_len(rest, o);
        let s0b = section_bytes(s0, o);
        assert(s0b.len() == 8 + s0.contents.len());
        let tail = sections_bytes(ss, o);
        assert(tail == s0b + sections_bytes(rest, o));
        assert(bytes.len() - pos == sections_size(ss));
        assert(sections_size(ss) == section_size(s0) + sections_size(rest));
        // the four bytes of the length field
        lemma_u32_round_trip((s0.contents.len() + 8) as u32, o);
        assert(forall|k: int|
            0 <= k < tail.len() ==> bytes[pos + k] == #[trigger] tail[k]) by {
            assert(forall|k: int|
                0 <= k < tail.len() ==> bytes[pos + k] == #[trigger] bytes.subrange(
                    pos,
                    bytes.len() as int,
                )[k]);
        }
        assert(tail[4] == s0b[4] && tail[5] == s0b[5] && tail[6] == s0b[6] && tail[7] == s0b[7]);
        assert(bytes[pos + 4] == tail[4] && bytes[pos + 5] == tail[5] && bytes[pos + 6] == tail[6]
            && bytes[pos + 7] == tail[7]);
        assert(s0b[4] == u32_bytes((s0.contents.len() + 8) as u32, o)[0]);
        assert(s0b[5] == u32_bytes((s0.contents.len() + 8) as u32, o)[1]);
        assert(s0b[6] == u32_bytes((s0.contents.len() + 8) as u32, o)[2]);
        assert(s0b[7] == u32_bytes((s0.contents.len() + 8) as u32, o)[3]);
        let size = spec_u32(bytes[pos + 4], bytes[pos + 5], bytes[pos + 6], bytes[pos + 7], o) as int;
        assert(size == 8 + s0.contents.len());
        assert(pos + size <= bytes.len());
        assert forall|j: int| 0 <= j < 4 implies bytes[pos + j] == s0.magic[j] by {
            assert(bytes[pos + j] == tail[j]);
            assert(tail[j] == s0b[j]);
            assert(s0b[j] == s0.magic[j]);
        }
        assert(bytes.subrange(pos, pos + 4) =~= s0.magic);
        assert forall|j: int| 0 <= j < s0.contents.len() implies bytes[pos + 8 + j]
            == s0.contents[j] by {
            assert(bytes[pos + 8 + j] == tail[8 + j]);
            assert(tail[8 + j] == s0b[8 + j]);
            assert(s0b[8 + j] == s0.contents[j]);
        }
        assert(bytes.subrange(pos + 8, pos + size) =~= s0.contents);
        assert forall|j: int| 0 <= j < sections_bytes(rest, o).len() implies bytes[pos + size + j]
            == sections_bytes(rest, o)[j] by {
            assert(bytes[pos + size + j] == tail[size - pos + pos + j]);
            assert(tail[size + j] == sections_bytes(rest, o)[j]);
        }
        assert(bytes.subrange(pos + size, bytes.len() as int) =~= sections_bytes(rest, o));
        lemma_parse_sections_of_encoded(bytes, pos + size, rest, o);
        let sv = SectionView {
            magic: bytes.subrange(pos, pos + 4),
            contents: bytes.subrange(pos + 8, pos + size),
        };
        assert(sv == s0);
        assert(seq![s0] + rest =~= ss);
    }
}

/// Round-trip exactness of the container layer: decoding a serialized
/// well-formed container yields its magic, byte order and sections
/// unchanged.
pub proof fn lemma_container_round_trip(f: NDSFileView)
    requires
        f.wf(),
    ensures
        spec_parse_file(spec_file_bytes(f)) == ContainerParse::Parsed(file_model(f)),
{
    let o = f.byteorder;
    let bytes = spec_file_bytes(f);
    let hdr = header_bytes(f, f.total_size() as u32);
    lemma_sections_bytes_len(f.sections, o);
    lemma_sections_size_nonneg(f.sections);
    assert(hdr.len() == 16);
    assert(bytes.len() == 16 + sections_size(f.sections));
    assert(forall|k: int| 0 <= k < hdr.len() ==> bytes[k] == #[trigger] hdr[k]);
    assert(bytes[4] == bom_bytes(o)[0]);
    assert(bytes[5] == bom_bytes(o)[1]);
    assert(spec_parse_bom(bytes[4], bytes[5]) == Some(o));
    lemma_u16_round_trip(f.sections.len() as u16, o);
    assert(bytes[14] == u16_bytes(f.sections.len() as u16, o)[0]);
    assert(bytes[15] == u16_bytes(f.sections.len() as u16, o)[1]);
    assert(spec_u16(bytes[14], bytes[15], o) == f.sections.len());
    assert(bytes.subrange(16, bytes.len() as int) =~= sections_bytes(f.sections, o));
    lemma_parse_sections_of_encoded(bytes, 16, f.sections, o);
    assert(bytes.subrange(0, 4) =~= f.magic);
}

impl NDSFile {
    /// Decodes a container from a fully buffered file. Succeeds exactly
    /// when the spec-level read succeeds; a bad byte-order mark and a
    /// truncated buffer are told apart in the error.
    pub fn from_bytes(fname: &str, data: &Vec<u8>) -> (r: Result<NDSFile, Error>)
        ensures
            match r {
                Ok(f) => {
                    &&& spec_parse_file(data@) == ContainerParse::Parsed(file_model(f@))
                    &&& f.fname@ == fname@
                },
                Err(e) => match e {
                    Error::InvalidBOM { file } => spec_parse_file(data@) is BadBOM && file@
                        == fname@,
                    Error::TruncatedData { file } => spec_parse_file(data@) is Short && file@
                        == fname@,
                    _ => false,
                },
            },
    {
        let n = data.len();
        if n < 6 {
            return Err(Error::TruncatedData { file: fname.to_owned() });
        }
        let b0 = data[4];
        let b1 = data[5];
        let o: ByteOrder;
        if b0 == 0xFF && b1 == 0xFE {
            o = ByteOrder::LittleEndian;
        } else if b0 == 0xFE && b1 == 0xFF {
            o = ByteOrder::BigEndian;
        } else {
            return Err(Error::InvalidBOM { file: fname.to_owned() });
        }
        if n < 16 {
            return Err(Error::TruncatedData { file: fname.to_owned() });
        }
        let count = get_u16(data, 14, o);

        let mut sections: Vec<Section> = Vec::new();
        let mut pos: usize = 16;
        let mut i: u16 = 0;
        while i < count
            invariant
                n == data@.len(),
                16 <= pos <= n,
                i <= count,
                sections@.len() == i as int,
                spec_u16(data@[14], data@[15], o) == count,
                data@.len() >= 16,
                spec_parse_bom(data@[4], data@[5]) == Some(o),
                ({
                    let full = spec_parse_sections(data@, 16, count as int, o);
                    let tail = spec_parse_sections(data@, pos as int, count - i, o);
                    match tail {
                        Some(rest) => full == Some(
                            Seq::new(sections@.len(), |j: int| sections@[j]@) + rest,
                        ),
                        None => full is None,
                    }
                }),
            decreases count - i,
        {
            let ghost done = Seq::new(sections@.len(), |j: int| sections@[j]@);
            let ghost old_pos = pos as int;
            if n - pos < 8 {
                return Err(Error::TruncatedData { file: fname.to_owned() });
            }
            let size = get_u32(data, pos + 4, o);
            if size < 8 {
                return Err(Error::TruncatedData { file: fname.to_owned() });
            }
            let size_us = size as usize;
            let payload = size_us - 8;
            if payload > n - (pos + 8) {
                return Err(Error::TruncatedData { file: fname.to_owned() });
            }
            let mut s_magic: Vec<u8> = Vec::new();
            let mut k: usize = 0;
            while k < 4
                invariant
                    pos + 8 <= n,
                    n == data@.len(),
                    k <= 4,
                    s_magic@ =~= data@.subrange(pos as int, pos + k),
                decreases 4 - k,
            {
                s_magic.push(data[pos + k]);
                k = k + 1;
                proof {
                    assert(s_magic@ =~= data@.subrange(pos as int, pos + k as int));
                }
            }
            let mut s_contents: Vec<u8> = Vec::new();
            let mut m: usize = 0;
            while m < payload
                invariant
                    pos + 8 + payload <= n,
                    n == data@.len(),
                    m <= payload,
                    s_contents@ =~= data@.subrange(pos + 8, pos + 8 + m),
                decreases payload - m,
            {
                s_contents.push(data[pos + 8 + m]);
                m = m + 1;
                proof {
                    assert(s_contents@ =~= data@.subrange(pos + 8, pos + 8 + m as int));
                }
            }
            let sec = Section { magic: s_magic, contents: s_contents };
            proof {
                assert(sec@ == (SectionView {
                    magic: data@.subrange(old_pos, old_pos + 4),
                    contents: data@.subrange(old_pos + 8, old_pos + size as int),
                }));
            }
            sections.push(sec);
            pos = pos + size_us;
            i = i + 1;
            proof {
                let done2 = Seq::new(sections@.len(), |j: int| sections@[j]@);
                assert(done2 =~= done.push(sec@));
                let tail2 = spec_parse_sections(data@, pos as int, count - i, o);
                match tail2 {
                    Some(rest2) => {
                        assert(done + (seq![sec@] + rest2) =~= done2 + rest2);
                    },
                    None => {},
                }
            }
        }
        proof {
            assert(spec_parse_sections(data@, pos as int, 0, o) == Some(Seq::<SectionView>::empty()));
            let done = Seq::new(sections@.len(), |j: int| sections@[j]@);
            assert(done + Seq::<SectionView>::empty() =~= done);
        }
        let mut magic: Vec<u8> = Vec::new();
        let mut k: usize = 0;
        while k < 4
            invariant
                n == data@.len(),
                n >= 16,
                k <= 4,
                magic@ =~= data@.subrange(0, k as int),
            decreases 4 - k,
        {
            magic.push(data[k]);
            k = k + 1;
            proof {
                assert(magic@ =~= data@.subrange(0, k as int));
            }
        }
        let f = NDSFile { fname: fname.to_owned(), magic, byteorder: o, sections };
        Ok(f)
    }

    /// Serializes the container: header with a placeholder total size, the
    /// sections in order, then the real total size backpatched into the
    /// header.
    pub fn to_bytes(&self) -> (r: Vec<u8>)
        requires
            self@.wf(),
        ensures
            r@ == spec_file_bytes(self@),
    {
        let o = self.byteorder;
        let mut out: Vec<u8> = Vec::new();
        let mut k: usize = 0;
        while k < self.magic.len()
            invariant
                k <= self.magic@.len(),
                out@ =~= self.magic@.subrange(0, k as int),
            decreases self.magic@.len() - k,
        {
            out.push(self.magic[k]);
            k = k + 1;
            proof {
                assert(out@ =~= self.magic@.subrange(0, k as int));
            }
        }
        proof {
            assert(out@ =~= self.magic@);
        }
        match o {
            ByteOrder::LittleEndian => {
                out.push(0xFF);
                out.push(0xFE);
            },
            ByteOrder::BigEndian => {
                out.push(0xFE);
                out.push(0xFF);
            },
        }
        put_u16(&mut out, 1, o);
        put_u32(&mut out, 0, o);
        put_u16(&mut out, 0x10, o);
        put_u16(&mut out, self.sections.len() as u16, o);
        proof {
            assert(out@ =~= header_bytes(self@, 0));
        }

        let mut i: usize = 0;
        while i < self.sections.len()
            invariant
                self@.wf(),
                o == self.byteorder,
                i <= self@.sections.len(),
                out@ =~= header_bytes(self@, 0) + sections_bytes(
                    self@.sections.subrange(0, i as int),
                    o,
                ),
            decreases self@.sections.len() - i,
        {
            let sec = &self.sections[i];
            let mut k: usize = 0;
            proof {
                assert(self@.sections[i as int].wf());
                assert(sec@ == self@.sections[i as int]);
            }
            while k < sec.magic.len()
                invariant
                    k <= sec.magic@.len(),
                    out@ =~= header_bytes(self@, 0) + sections_bytes(
                        self@.sections.subrange(0, i as int),
                        o,
                    ) + sec.magic@.subrange(0, k as int),
                decreases sec.magic@.len() - k,
            {
                out.push(sec.magic[k]);
                k = k + 1;
                proof {
                    assert(out@ =~= header_bytes(self@, 0) + sections_bytes(
                        self@.sections.subrange(0, i as int),
                        o,
                    ) + sec.magic@.subrange(0, k as int));
                }
            }
            put_u32(&mut out, sec.contents.len() as u32 + 8, o);
            let mut m: usize = 0;
            while m < sec.contents.len()
                invariant
                    m <= sec.contents@.len(),
                    sec.contents@.len() + 8 <= u32::MAX,
                    out@ =~= header_bytes(self@, 0) + sections_bytes(
                        self@.sections.subrange(0, i as int),
                        o,
                    ) + sec.magic@ + u32_bytes((sec.contents@.len() + 8) as u32, o)
                        + sec.contents@.subrange(0, m as int),
                decreases sec.contents@.len() - m,
            {
                out.push(sec.contents[m]);
                m = m + 1;
                proof {
                    assert(out@ =~= header_bytes(self@, 0) + sections_bytes(
                        self@.sections.subrange(0, i as int),
                        o,
                    ) + sec.magic@ + u32_bytes((sec.contents@.len() + 8) as u32, o)
                        + sec.contents@.subrange(0, m as int));
                }
            }
            i = i + 1;
            proof {
                lemma_sections_bytes_snoc(self@.sections.subrange(0, i - 1), self@.sections[i - 1], o);
                assert(self@.sections.subrange(0, i as int) =~= self@.sections.subrange(
                    0,
                    i - 1,
                ).push(self@.sections[i - 1]));
                assert(sec.contents@.subrange(0, sec.contents@.len() as int) =~= sec.contents@);
                assert(section_bytes(self@.sections[i - 1], o) == self@.sections[i - 1].magic
                    + u32_bytes((self@.sections[i - 1].contents.len() + 8) as u32, o)
                    + self@.sections[i - 1].contents);
                assert(out@ =~= header_bytes(self@, 0) + sections_bytes(
                    self@.sections.subrange(0, i as int),
                    o,
                ));
            }
        }
        proof {
            assert(self@.sections.subrange(0, self@.sections.len() as int) =~= self@.sections);
            lemma_sections_bytes_len(self@.sections, o);
            lemma_sections_size_nonneg(self@.sections);
        }
        let total = out.len() as u32;
        let mut szv: Vec<u8> = Vec::new();
        put_u32(&mut szv, total, o);
        let sz0 = szv[0];
        let sz1 = szv[1];
        let sz2 = szv[2];
        let sz3 = szv[3];
        out.set(8, sz0);
        out.set(9, sz1);
        out.set(10, sz2);
        out.set(11, sz3);
        proof {
            assert(out@ =~= spec_file_bytes(self@));
        }
        out
    }
}

} // verus!
