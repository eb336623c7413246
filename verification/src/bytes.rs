//! Little-endian byte helpers shared by packet reading and writing.
use vstd::prelude::*;

verus! {

/// Number of header bytes that precede a packet body on the wire.
pub const HEADER_SIZE: usize = 9;
/// Number of zero bytes that follow a packet body on the wire.
pub const TAIL_SIZE: usize = 3;

/// The two little-endian bytes of `v`.
pub open spec fn le16(v: u16) -> Seq<u8> {
    seq![(v & 0xff) as u8, ((v >> 8u16) & 0xff) as u8]
}

/// The four little-endian bytes of `v`.
pub open spec fn le32(v: u32) -> Seq<u8> {
    seq![
        (v & 0xff) as u8,
        ((v >> 8u32) & 0xff) as u8,
        ((v >> 16u32) & 0xff) as u8,
        ((v >> 24u32) & 0xff) as u8,
    ]
}

/// `n` zero bytes.
pub open spec fn zeros(n: nat) -> Seq<u8> {
    Seq::new(n, |i: int| 0u8)
}

/// The little-endian `u16` stored at `off`.
pub open spec fn get_u16(s: Seq<u8>, off: int) -> u16 {
    ((s[off] as u16) | ((s[off + 1] as u16) << 8u16)) as u16
}

/// The little-endian `u32` stored at `off`.
pub open spec fn get_u32(s: Seq<u8>, off: int) -> u32 {
    ((s[off] as u32) | ((s[off + 1] as u32) << 8u32) | ((s[off + 2] as u32) << 16u32)
        | ((s[off + 3] as u32) << 24u32)) as u32
}

/// Reading back two little-endian bytes gives the value they were made from.
pub proof fn lemma_u16_roundtrip(v: u16)
    ensures
        get_u16(le16(v), 0) == v,
{
    let a = (v & 0xff) as u8;
    let b = ((v >> 8u16) & 0xff) as u8;
    assert(((a as u16) | ((b as u16) << 8u16)) as u16 == v) by (bit_vector)
        requires
            a == (v & 0xff) as u8,
            b == ((v >> 8u16) & 0xff) as u8;
}

/// Reading back four little-endian bytes gives the value they were made from.
pub proof fn lemma_u32_roundtrip(v: u32)
    ensures
        get_u32(le32(v), 0) == v,
{
    let a = (v & 0xff) as u8;
    let b = ((v >> 8u32) & 0xff) as u8;
    let c = ((v >> 16u32) & 0xff) as u8;
    let d = ((v >> 24u32) & 0xff) as u8;
    assert(((a as u32) | ((b as u32) << 8u32) | ((c as u32) << 16u32) | ((d as u32) << 24u32))
        as u32 == v) by (bit_vector)
        requires
            a == (v & 0xff) as u8,
            b == ((v >> 8u32) & 0xff) as u8,
            c == ((v >> 16u32) & 0xff) as u8,
            d == ((v >> 24u32) & 0xff) as u8;
}

/// Reads the little-endian `u16` at `off`.
pub fn read_u16(vec: &[u8], off: usize) -> (r: u16)
    requires
        off + 2 <= vec@.len(),
    ensures
        r == get_u16(vec@, off as int),
{
    (vec[off] as u16) | ((vec[off + 1] as u16) << 8u16)
}

/// Reads the little-endian `u32` at `off`.
pub fn read_u32(vec: &[u8], off: usize) -> (r: u32)
    requires
        off + 4 <= vec@.len(),
    ensures
        r == get_u32(vec@, off as int),
{
    (vec[off] as u32) | ((vec[off + 1] as u32) << 8u32) | ((vec[off + 2] as u32)
        << 16u32) | ((vec[off + 3] as u32) << 24u32)
}

/// The concatenation of the views of `list`, in order.
pub open spec fn concat_views(list: Seq<&Vec<u8>>) -> Seq<u8>
    decreases list.len(),
{
    if list.len() == 0 {
        Seq::<u8>::empty()
    } else {
        concat_views(list.drop_last()) + list.last()@
    }
}

/// Concatenates byte vectors in order.
pub fn concat_list_of_vec(list: &[&Vec<u8>]) -> (out: Vec<u8>)
    ensures
        out@ == concat_views(list@),
{
    let mut out: Vec<u8> = Vec::new();
    let mut n: usize = 0;
    while n < list.len()
        invariant
            n <= list@.len(),
            out@ == concat_views(list@.subrange(0, n as int)),
        decreases list@.len() - n,
    {
        let bytes: &Vec<u8> = list[n];
        let ghost before = out@;
        let mut m: usize = 0;
        while m < bytes.len()
            invariant
                m <= bytes@.len(),
                out@ == before + bytes@.subrange(0, m as int),
            decreases bytes@.len() - m,
        {
            out.push(bytes[m]);
            m = m + 1;
            assert(out@ =~= before + bytes@.subrange(0, m as int));
        }
        assert(bytes@.subrange(0, m as int) =~= bytes@);
        assert(list@.subrange(0, n + 1).drop_last() =~= list@.subrange(0, n as int));
        n = n + 1;
    }
    assert(list@.subrange(0, n as int) =~= list@);
    out
}

/// Picks `t` when `cond` holds and `f` otherwise.
pub fn if_else<T>(cond: bool, t: T, f: T) -> (r: T)
    ensures
        r == (if cond { t } else { f }),
{
    if cond {
        t
    } else {
        f
    }
}

} // verus!
