use vstd::prelude::*;

verus! {

/// Byte order used for every multi-byte integer in a container file.
#[derive(Clone, Copy, Debug, PartialEq, Eq, Structural)]
pub enum ByteOrder {
    LittleEndian,
    BigEndian,
}

/// The two bytes that encode `v` in the order `o`, low byte first for
/// little-endian files.
pub open spec fn u16_bytes(v: u16, o: ByteOrder) -> Seq<u8> {
    match o {
        ByteOrder::LittleEndian => seq![(v % 256) as u8, (v / 256) as u8],
        ByteOrder::BigEndian => seq![(v / 256) as u8, (v % 256) as u8],
    }
}

/// The value read from two bytes in the order `o`.
pub open spec fn spec_u16(b0: u8, b1: u8, o: ByteOrder) -> u16 {
    match o {
        ByteOrder::LittleEndian => (b0 + b1 * 256) as u16,
        ByteOrder::BigEndian => (b1 + b0 * 256) as u16,
    }
}

/// Reading back the two bytes of `u16_bytes` yields the original value.
pub proof fn lemma_u16_round_trip(v: u16, o: ByteOrder)
    ensures
        spec_u16(u16_bytes(v, o)[0], u16_bytes(v, o)[1], o) == v,
{
    assert(v % 256 + (v / 256) * 256 == v) by (nonlinear_arith);
}

/// Reads a `u16` at `pos`.
pub fn get_u16(data: &Vec<u8>, pos: usize, o: ByteOrder) -> (r: u16)
    requires
        pos + 2 <= data@.len(),
    ensures
        r == spec_u16(data@[pos as int], data@[pos + 1], o),
{
    let _n: usize = data.len();
    let lo: u16;
    let hi: u16;
    match o {
        ByteOrder::LittleEndian => {
            lo = data[pos] as u16;
            hi = data[pos + 1] as u16;
        }
        ByteOrder::BigEndian => {
            lo = data[pos + 1] as u16;
            hi = data[pos] as u16;
        }
    }
    lo + hi * 256
}

/// Appends the two bytes of `v` in the order `o`.
pub fn put_u16(out: &mut Vec<u8>, v: u16, o: ByteOrder)
    ensures
        final(out)@ == old(out)@ + u16_bytes(v, o),
{
    match o {
        ByteOrder::LittleEndian => {
            out.push((v % 256) as u8);
            out.push((v / 256) as u8);
        }
        ByteOrder::BigEndian => {
            out.push((v / 256) as u8);
            out.push((v % 256) as u8);
        }
    }
    proof {
        assert(out@ =~= old(out)@ + u16_bytes(v, o));
    }
}

/// The four bytes that encode `v` in the order `o`: the low 16-bit half
/// comes first in a little-endian file, last in a big-endian one.
pub open spec fn u32_bytes(v: u32, o: ByteOrder) -> Seq<u8> {
    match o {
        ByteOrder::LittleEndian => u16_bytes((v % 65536) as u16, o) + u16_bytes(
            (v / 65536) as u16,
            o,
        ),
        ByteOrder::BigEndian => u16_bytes((v / 65536) as u16, o) + u16_bytes((v % 65536) as u16, o),
    }
}

/// The value read from four bytes in the order `o`.
pub open spec fn spec_u32(b0: u8, b1: u8, b2: u8, b3: u8, o: ByteOrder) -> u32 {
    match o {
        ByteOrder::LittleEndian => (spec_u16(b0, b1, o) + spec_u16(b2, b3, o) * 65536) as u32,
        ByteOrder::BigEndian => (spec_u16(b2, b3, o) + spec_u16(b0, b1, o) * 65536) as u32,
    }
}

/// Reading back the four bytes of `u32_bytes` yields the original value.
pub proof fn lemma_u32_round_trip(v: u32, o: ByteOrder)
    ensures
        u32_bytes(v, o).len() == 4,
        spec_u32(
            u32_bytes(v, o)[0],
            u32_bytes(v, o)[1],
            u32_bytes(v, o)[2],
            u32_bytes(v, o)[3],
            o,
        ) == v,
{
    lemma_u16_round_trip((v % 65536) as u16, o);
    lemma_u16_round_trip((v / 65536) as u16, o);
    assert(v % 65536 + (v / 65536) * 65536 == v) by (nonlinear_arith);
}

/// Reads a `u32` at `pos`.
pub fn get_u32(data: &Vec<u8>, pos: usize, o: ByteOrder) -> (r: u32)
    requires
        pos + 4 <= data@.len(),
    ensures
        r == spec_u32(data@[pos as int], data@[pos + 1], data@[pos + 2], data@[pos + 3], o),
{
    let _n: usize = data.len();
    let first = get_u16(data, pos, o);
    let second = get_u16(data, pos + 2, o);
    match o {
        ByteOrder::LittleEndian => first as u32 + second as u32 * 65536,
        ByteOrder::BigEndian => second as u32 + first as u32 * 65536,
    }
}

/// Copies a byte buffer.
pub fn copy_bytes(v: &Vec<u8>) -> (r: Vec<u8>)
    ensures
        r@ == v@,
{
    let mut r: Vec<u8> = Vec::new();
    let mut i: usize = 0;
    while i < v.len()
        invariant
            i <= v@.len(),
            r@ =~= v@.subrange(0, i as int),
        decreases v@.len() - i,
    {
        r.push(v[i]);
        i = i + 1;
        proof {
            assert(r@ =~= v@.subrange(0, i as int));
        }
    }
    proof {
        assert(r@ =~= v@);
    }
    r
}

/// A run of 16-bit values serialized one after the other.
pub open spec fn u16s_bytes(vs: Seq<u16>, o: ByteOrder) -> Seq<u8>
    decreases vs.len(),
{
    if vs.len() == 0 {
        Seq::empty()
    } else {
        u16_bytes(vs[0], o) + u16s_bytes(vs.drop_first(), o)
    }
}

/// Serializing one more value appends its two bytes.
pub proof fn lemma_u16s_bytes_snoc(vs: Seq<u16>, v: u16, o: ByteOrder)
    ensures
        u16s_bytes(vs.push(v), o) == u16s_bytes(vs, o) + u16_bytes(v, o),
    decreases vs.len(),
{
    if vs.len() == 0 {
        assert(vs.push(v).drop_first() =~= Seq::<u16>::empty());
        assert(u16s_bytes(vs.push(v).drop_first(), o) == Seq::<u8>::empty());
        assert(vs.push(v)[0] == v);
        assert(u16s_bytes(vs.push(v), o) =~= u16s_bytes(vs, o) + u16_bytes(v, o));
    } else {
        assert(vs.push(v).drop_first() =~= vs.drop_first().push(v));
        lemma_u16s_bytes_snoc(vs.drop_first(), v, o);
        assert(vs.push(v)[0] == vs[0]);
        assert(u16s_bytes(vs.push(v), o) == u16_bytes(vs[0], o) + (u16s_bytes(
            vs.drop_first(),
            o,
        ) + u16_bytes(v, o)));
        assert(u16s_bytes(vs.push(v), o) =~= u16s_bytes(vs, o) + u16_bytes(v, o));
    }
}

/// A run of values occupies two bytes each.
pub proof fn lemma_u16s_bytes_len(vs: Seq<u16>, o: ByteOrder)
    ensures
        u16s_bytes(vs, o).len() == 2 * vs.len(),
    decreases vs.len(),
{
    if vs.len() != 0 {
        lemma_u16s_bytes_len(vs.drop_first(), o);
    }
}

/// The two bytes of the value at position `i` sit at offset `2 * i`.
pub proof fn lemma_u16s_bytes_index(vs: Seq<u16>, o: ByteOrder, i: int)
    requires
        0 <= i < vs.len(),
    ensures
        u16s_bytes(vs, o)[2 * i] == u16_bytes(vs[i], o)[0],
        u16s_bytes(vs, o)[2 * i + 1] == u16_bytes(vs[i], o)[1],
    decreases i,
{
    lemma_u16s_bytes_len(vs, o);
    lemma_u16s_bytes_len(vs.drop_first(), o);
    if i == 0 {
        assert(u16s_bytes(vs, o)[0] == u16_bytes(vs[0], o)[0]);
        assert(u16s_bytes(vs, o)[1] == u16_bytes(vs[0], o)[1]);
    } else {
        lemma_u16s_bytes_index(vs.drop_first(), o, i - 1);
        assert(vs.drop_first()[i - 1] == vs[i]);
        assert(u16s_bytes(vs, o)[2 * i] == u16s_bytes(vs.drop_first(), o)[2 * (i - 1)]);
        assert(u16s_bytes(vs, o)[2 * i + 1] == u16s_bytes(vs.drop_first(), o)[2 * (i - 1) + 1]);
    }
}

/// The values read back from a region of `bytes`, one every two bytes.
pub open spec fn parse_u16s(bytes: Seq<u8>, start: int, count: int, o: ByteOrder) -> Seq<u16> {
    Seq::new(count as nat, |i: int| spec_u16(bytes[start + 2 * i], bytes[start + 2 * i + 1], o))
}

/// Reading a serialized run of values back yields them unchanged.
pub proof fn lemma_parse_u16s_of_encoded(bytes: Seq<u8>, start: int, vs: Seq<u16>, o: ByteOrder)
    requires
        0 <= start,
        start + 2 * vs.len() <= bytes.len(),
        bytes.subrange(start, start + 2 * vs.len()) == u16s_bytes(vs, o),
    ensures
        parse_u16s(bytes, start, vs.len() as int, o) == vs,
{
    let enc = u16s_bytes(vs, o);
    lemma_u16s_bytes_len(vs, o);
    assert forall|i: int| 0 <= i < vs.len() implies parse_u16s(bytes, start, vs.len() as int, o)[i]
        == vs[i] by {
        lemma_u16s_bytes_index(vs, o, i);
        assert(bytes[start + 2 * i] == bytes.subrange(start, start + 2 * vs.len())[2 * i]);
        assert(bytes[start + 2 * i + 1] == bytes.subrange(start, start + 2 * vs.len())[2 * i + 1]);
        lemma_u16_round_trip(vs[i], o);
    }
    assert(parse_u16s(bytes, start, vs.len() as int, o) =~= vs);
}

/// Appends a whole run of 16-bit values.
pub fn put_u16s(out: &mut Vec<u8>, vs: &Vec<u16>, o: ByteOrder)
    ensures
        final(out)@ == old(out)@ + u16s_bytes(vs@, o),
{
    let mut i: usize = 0;
    while i < vs.len()
        invariant
            i <= vs@.len(),
            out@ == old(out)@ + u16s_bytes(vs@.subrange(0, i as int), o),
        decreases vs@.len() - i,
    {
        put_u16(out, vs[i], o);
        i = i + 1;
        proof {
            lemma_u16s_bytes_snoc(vs@.subrange(0, i - 1), vs@[i - 1], o);
            assert(vs@.subrange(0, i as int) =~= vs@.subrange(0, i - 1).push(vs@[i - 1]));
            assert(old(out)@ + u16s_bytes(vs@.subrange(0, i - 1), o) + u16_bytes(vs@[i - 1], o)
                =~= old(out)@ + (u16s_bytes(vs@.subrange(0, i - 1), o) + u16_bytes(
                vs@[i - 1],
                o,
            )));
        }
    }
    proof {
        assert(vs@.subrange(0, vs@.len() as int) =~= vs@);
    }
}

/// Reads a run of `count` 16-bit values at `pos`.
pub fn get_u16s(data: &Vec<u8>, pos: usize, count: usize, o: ByteOrder) -> (r: Vec<u16>)
    requires
        pos + 2 * count <= data@.len(),
    ensures
        r@ == parse_u16s(data@, pos as int, count as int, o),
{
    let n: usize = data.len();
    let mut r: Vec<u16> = Vec::new();
    let mut i: usize = 0;
    while i < count
        invariant
            n == data@.len(),
            pos + 2 * count <= n,
            i <= count,
            r@ =~= parse_u16s(data@, pos as int, i as int, o),
        decreases count - i,
    {
        let v = get_u16(data, pos + 2 * i, o);
        r.push(v);
        i = i + 1;
        proof {
            assert(r@ =~= parse_u16s(data@, pos as int, i as int, o));
        }
    }
    r
}

/// Appends the four bytes of `v` in the order `o`.
pub fn put_u32(out: &mut Vec<u8>, v: u32, o: ByteOrder)
    ensures
        final(out)@ == old(out)@ + u32_bytes(v, o),
{
    match o {
        ByteOrder::LittleEndian => {
            put_u16(out, (v % 65536) as u16, o);
            put_u16(out, (v / 65536) as u16, o);
        }
        ByteOrder::BigEndian => {
            put_u16(out, (v / 65536) as u16, o);
            put_u16(out, (v % 65536) as u16, o);
        }
    }
    proof {
        assert(out@ =~= old(out)@ + u32_bytes(v, o));
    }
}

} // verus!
