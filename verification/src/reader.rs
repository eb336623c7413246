//! Reading the fields of a decrypted packet body.
use vstd::prelude::*;
use vstd::string::StringExecFns;
use crate::bytes::{get_u16, get_u32, read_u16, read_u32};
use crate::text::{decode_text, euc_kr_decode};

verus! {

/// Where a packet body is read from after construction: the eight header bytes are skipped.
pub const BODY_START: usize = 8;

/// Why a field could not be read.
#[derive(Debug, Clone, Copy, PartialEq, Eq, Structural)]
pub enum ReadError {
    /// No zero terminator follows the read position.
    NoTerminator,
}

/// The number of bytes of `s` before its first zero byte (all of `s` if there is none).
pub open spec fn nul_pos(s: Seq<u8>) -> nat
    decreases s.len(),
{
    if s.len() == 0 {
        0
    } else if s[0] == 0 {
        0
    } else {
        1 + nul_pos(s.drop_first())
    }
}

/// The text that a fixed-size field holds: the bytes before the first zero.
pub open spec fn field_text(s: Seq<u8>) -> Seq<char> {
    euc_kr_decode(s.subrange(0, nul_pos(s) as int))
}

proof fn lemma_nul_pos(s: Seq<u8>, i: int)
    requires
        0 <= i <= s.len(),
        forall|m: int| 0 <= m < i ==> s[m] != 0,
        i == s.len() || s[i] == 0,
    ensures
        nul_pos(s) == i,
    decreases s.len(),
{
    if s.len() > 0 && i > 0 {
        assert forall|m: int| 0 <= m < i - 1 implies s.drop_first()[m] != 0 by {
            assert(s.drop_first()[m] == s[m + 1]);
        }
        lemma_nul_pos(s.drop_first(), i - 1);
    }
}

proof fn lemma_nul_pos_bound(s: Seq<u8>)
    ensures
        nul_pos(s) <= s.len(),
        nul_pos(s) < s.len() ==> s[nul_pos(s) as int] == 0,
        forall|m: int| 0 <= m < nul_pos(s) ==> s[m] != 0,
    decreases s.len(),
{
    if s.len() > 0 && s[0] != 0 {
        lemma_nul_pos_bound(s.drop_first());
        assert forall|m: int| 0 <= m < nul_pos(s) implies s[m] != 0 by {
            if m > 0 {
                assert(s[m] == s.drop_first()[m - 1]);
            }
        }
    }
}

/// The lower-case hexadecimal digit for `d` (below 16).
pub open spec fn hex_digit(d: u8) -> char {
    if d < 10 {
        (48 + d) as char
    } else {
        (87 + d) as char
    }
}

/// A byte in lower-case hexadecimal without leading zeros.
pub open spec fn hex_byte(b: u8) -> Seq<char> {
    if b < 16 {
        seq![hex_digit(b)]
    } else {
        seq![hex_digit(b / 16), hex_digit(b % 16)]
    }
}

/// The bytes of `s` in hexadecimal, separated by a comma and a space.
pub open spec fn hex_items(s: Seq<u8>) -> Seq<char>
    decreases s.len(),
{
    if s.len() == 0 {
        Seq::<char>::empty()
    } else if s.len() == 1 {
        hex_byte(s[0])
    } else {
        hex_items(s.drop_last()) + seq![',', ' '] + hex_byte(s.last())
    }
}

/// The bracketed hexadecimal listing of `s`, as `{:x?}` prints a byte vector.
pub open spec fn hex_list(s: Seq<u8>) -> Seq<char> {
    seq!['['] + hex_items(s) + seq![']']
}

fn hex_str(d: u8) -> (r: &'static str)
    requires
        d < 16,
    ensures
        r@ == seq![hex_digit(d)],
{
    match d {
        0 => { proof { reveal_strlit("0"); } "0" },
        1 => { proof { reveal_strlit("1"); } "1" },
        2 => { proof { reveal_strlit("2"); } "2" },
        3 => { proof { reveal_strlit("3"); } "3" },
        4 => { proof { reveal_strlit("4"); } "4" },
        5 => { proof { reveal_strlit("5"); } "5" },
        6 => { proof { reveal_strlit("6"); } "6" },
        7 => { proof { reveal_strlit("7"); } "7" },
        8 => { proof { reveal_strlit("8"); } "8" },
        9 => { proof { reveal_strlit("9"); } "9" },
        10 => { proof { reveal_strlit("a"); } "a" },
        11 => { proof { reveal_strlit("b"); } "b" },
        12 => { proof { reveal_strlit("c"); } "c" },
        13 => { proof { reveal_strlit("d"); } "d" },
        14 => { proof { reveal_strlit("e"); } "e" },
        _ => { proof { reveal_strlit("f"); } "f" },
    }
}

/// A cursor over a decrypted packet body.
#[derive(Debug)]
pub struct PacketReader {
    opcode: u8,
    data: Vec<u8>,
    offset: usize,
}

impl PacketReader {
    /// The whole body.
    pub closed spec fn bytes(&self) -> Seq<u8> {
        self.data@
    }

    /// The read position.
    pub closed spec fn pos(&self) -> nat {
        self.offset as nat
    }

    /// The opcode: the first byte of the body.
    pub closed spec fn op(&self) -> u8 {
        self.opcode
    }

    /// Starts reading `body` just after its eight header bytes.
    pub fn new(body: &[u8]) -> (pr: Self)
        requires
            body@.len() > 0,
        ensures
            pr.op() == body@[0],
            pr.bytes() == body@,
            pr.pos() == BODY_START,
    {
        let opcode = body[0];
        let mut data: Vec<u8> = Vec::new();
        let mut i: usize = 0;
        while i < body.len()
            invariant
                i <= body@.len(),
                data@ == body@.subrange(0, i as int),
            decreases body@.len() - i,
        {
            data.push(body[i]);
            i = i + 1;
            assert(data@ =~= body@.subrange(0, i as int));
        }
        assert(data@ =~= body@);
        PacketReader { opcode: opcode, data: data, offset: BODY_START }
    }

    /// The number of bytes after the read position.
    pub fn left(&self) -> (n: usize)
        requires
            self.pos() <= self.bytes().len(),
        ensures
            n == self.bytes().len() - self.pos(),
    {
        self.len() - self.offset
    }

    /// The length of the whole body.
    pub fn len(&self) -> (n: usize)
        ensures
            n == self.bytes().len(),
    {
        self.data.len()
    }

    /// Whether `n` more bytes can be read.
    pub fn has(&self, n: usize) -> (b: bool)
        ensures
            b == (self.pos() + n <= self.bytes().len()),
    {
        self.offset <= self.data.len() && n <= self.data.len() - self.offset
    }

    /// The byte `k` places after the read position, without moving it.
    pub fn peek(&self, k: usize) -> (v: u8)
        requires
            self.pos() + k < self.bytes().len(),
        ensures
            v == self.bytes()[self.pos() + k],
    {
        proof { assert(self.data@.len() == self.data.len()); }
        self.data[self.offset + k]
    }

    /// The opcode.
    pub fn opcode(&self) -> (op: u8)
        ensures
            op == self.op(),
    {
        self.opcode
    }

    /// Moves the read position forward by `delta`.
    pub fn seek(&mut self, delta: usize)
        requires
            old(self).pos() + delta <= usize::MAX,
        ensures
            final(self).pos() == old(self).pos() + delta,
            final(self).bytes() == old(self).bytes(),
            final(self).op() == old(self).op(),
    {
        self.offset = self.offset + delta;
    }

    /// Reads a byte.
    pub fn u8(&mut self) -> (v: u8)
        requires
            old(self).pos() + 1 <= old(self).bytes().len(),
        ensures
            v == old(self).bytes()[old(self).pos() as int],
            final(self).pos() == old(self).pos() + 1,
            final(self).bytes() == old(self).bytes(),
            final(self).op() == old(self).op(),
    {
        proof { assert(self.data@.len() == self.data.len()); }
        let ret = self.data[self.offset];
        self.seek(1);
        ret
    }

    /// Reads a little-endian `u16`.
    pub fn u16(&mut self) -> (v: u16)
        requires
            old(self).pos() + 2 <= old(self).bytes().len(),
        ensures
            v == get_u16(old(self).bytes(), old(self).pos() as int),
            final(self).pos() == old(self).pos() + 2,
            final(self).bytes() == old(self).bytes(),
            final(self).op() == old(self).op(),
    {
        proof { assert(self.data@.len() == self.data.len()); }
        let ret = read_u16(self.data.as_slice(), self.offset);
        self.seek(2);
        ret
    }

    /// Reads a little-endian `u32`.
    pub fn u32(&mut self) -> (v: u32)
        requires
            old(self).pos() + 4 <= old(self).bytes().len(),
        ensures
            v == get_u32(old(self).bytes(), old(self).pos() as int),
            final(self).pos() == old(self).pos() + 4,
            final(self).bytes() == old(self).bytes(),
            final(self).op() == old(self).op(),
    {
        proof { assert(self.data@.len() == self.data.len()); }
        let ret = read_u32(self.data.as_slice(), self.offset);
        self.seek(4);
        ret
    }

    /// Reads a text field of `len` bytes: the text before its first zero byte.
    pub fn string(&mut self, len: usize) -> (s: String)
        requires
            old(self).pos() + len <= old(self).bytes().len(),
        ensures
            s@ == field_text(
                old(self).bytes().subrange(old(self).pos() as int, old(self).pos() + len),
            ),
            final(self).pos() == old(self).pos() + len,
            final(self).bytes() == old(self).bytes(),
            final(self).op() == old(self).op(),
    {
        let data = self.vec(len);
        let mut l = len;
        let mut i: usize = 0;
        while i < len
            invariant_except_break
                l == len,
            invariant
                data@.len() == len,
                i <= len,
                forall|m: int| 0 <= m < i ==> data@[m] != 0,
            ensures
                l <= len,
                forall|m: int| 0 <= m < l ==> data@[m] != 0,
                l == len || data@[l as int] == 0,
            decreases len - i,
        {
            if data[i] == 0 {
                l = i;
                break;
            }
            i = i + 1;
        }
        proof {
            lemma_nul_pos(data@, l as int);
        }
        let actual = data.as_slice().split_at(l).0;
        decode_text(actual)
    }

    /// Reads text up to and including its zero terminator. The read position
    /// moves on by one more than the terminator's index in the whole body.
    pub fn string_with_null(&mut self) -> (r: Result<String, ReadError>)
        requires
            terminator_in_reach(old(self).bytes(), old(self).pos()),
        ensures
            match first_nul_at(old(self).bytes(), old(self).pos()) {
                None => r == Err::<String, ReadError>(ReadError::NoTerminator) && *final(self)
                    == *old(self),
                Some(off) => r matches Ok(s) && s@ == field_text(
                    old(self).bytes().subrange(
                        old(self).pos() as int,
                        (old(self).pos() + (old(self).pos() + off + 1)) as int,
                    ),
                ) && final(self).pos() == old(self).pos() + (old(self).pos() + off + 1)
                    && final(self).bytes()
                    == old(self).bytes() && final(self).op() == old(self).op(),
            },
    {
        let mut off = self.offset;
        let data_len = self.data.len();
        assert(old(self).bytes().len() == data_len);
        loop
            invariant
                data_len == self.data@.len(),
                self.offset <= off,
                *self == *old(self),
                forall|m: int| self.offset <= m < off && m < data_len ==> self.data@[m] != 0,
            ensures
                off < data_len,
                self.data@[off as int] == 0,
                self.offset <= off,
                *self == *old(self),
                forall|m: int| self.offset <= m < off ==> self.data@[m] != 0,
            decreases data_len - off,
        {
            if off >= data_len {
                proof {
                    lemma_no_nul(self.data@, self.offset as int);
                }
                return Err(ReadError::NoTerminator);
            } else {
                if self.data[off] == 0 {
                    break;
                } else {
                    off = off + 1;
                }
            }
        }
        proof {
            let sub = self.data@.subrange(self.offset as int, self.data@.len() as int);
            assert forall|m: int| 0 <= m < off - self.offset implies sub[m] != 0 by {
                assert(sub[m] == self.data@[self.offset + m]);
            }
            lemma_nul_pos(sub, off - self.offset);
        }
        Ok(self.string(off + 1))
    }

    /// Reads `len` bytes.
    pub fn vec(&mut self, len: usize) -> (v: Vec<u8>)
        requires
            old(self).pos() + len <= old(self).bytes().len(),
        ensures
            v@ == old(self).bytes().subrange(old(self).pos() as int, old(self).pos() + len),
            final(self).pos() == old(self).pos() + len,
            final(self).bytes() == old(self).bytes(),
            final(self).op() == old(self).op(),
    {
        let mut ret: Vec<u8> = Vec::new();
        let start = self.offset;
        proof { assert(self.data@.len() == self.data.len()); }
        let mut i: usize = 0;
        while i < len
            invariant
                start == self.offset,
                start + len <= self.data@.len(),
                self.data@.len() <= usize::MAX,
                i <= len,
                ret@ == self.data@.subrange(start as int, start + i),
            decreases len - i,
        {
            ret.push(self.data[start + i]);
            i = i + 1;
            assert(ret@ =~= self.data@.subrange(start as int, start + i));
        }
        self.seek(len);
        ret
    }

    /// The whole body as a bracketed list of lower-case hexadecimal bytes.
    pub fn to_str(&self) -> (s: String)
        ensures
            s@ == hex_list(self.bytes()),
    {
        let mut s = String::new();
        proof { reveal_strlit("["); reveal_strlit("]"); reveal_strlit(", "); }
        s.append("[");
        let mut i: usize = 0;
        while i < self.data.len()
            invariant
                i <= self.data@.len(),
                s@ == seq!['['] + hex_items(self.data@.subrange(0, i as int)),
            decreases self.data@.len() - i,
        {
            let ghost before = s@;
            proof { reveal_strlit(", "); }
            if i > 0 {
                s.append(", ");
            }
            let ghost mid = s@;
            assert(mid == if i > 0 { before + seq![',', ' '] } else { before });
            let b = self.data[i];
            if b >= 16 {
                s.append(hex_str(b / 16));
            }
            s.append(hex_str(b % 16));
            assert(s@ =~= mid + hex_byte(b));
            proof {
                let sub = self.data@.subrange(0, i + 1);
                assert(sub.drop_last() =~= self.data@.subrange(0, i as int));
                assert(sub.last() == b);
                if b < 16 {
                    assert(b % 16 == b);
                    assert(hex_byte(b) == seq![hex_digit(b)]);
                } else {
                    assert(hex_byte(b) == seq![hex_digit(b / 16), hex_digit(b % 16)]);
                }
                if i == 0 {
                    assert(sub.len() == 1);
                    assert(sub[0] == b);
                    assert(hex_items(sub) == hex_byte(b));
                    assert(hex_items(self.data@.subrange(0, 0)) =~= Seq::<char>::empty());
                } else {
                    assert(hex_items(sub) == hex_items(sub.drop_last()) + seq![',', ' '] + hex_byte(b));
                }
            }
            i = i + 1;
            assert(s@ =~= seq!['['] + hex_items(self.data@.subrange(0, i as int)));
        }
        s.append("]");
        assert(self.data@.subrange(0, i as int) =~= self.data@);
        s
    }
}

/// The index of the first zero byte at or after `pos`, counted from `pos`, if any.
pub open spec fn first_nul_at(s: Seq<u8>, pos: nat) -> Option<nat> {
    if pos < s.len() && nul_pos(s.subrange(pos as int, s.len() as int)) < s.len() - pos {
        Some(nul_pos(s.subrange(pos as int, s.len() as int)))
    } else {
        None
    }
}

/// The terminator's read stays inside the body: the read length is one more
/// than the terminator's index in the whole body, counted from the read position.
pub open spec fn terminator_in_reach(s: Seq<u8>, pos: nat) -> bool {
    match first_nul_at(s, pos) {
        None => true,
        Some(off) => pos + (pos + off) + 1 <= s.len(),
    }
}

proof fn lemma_no_nul(s: Seq<u8>, pos: int)
    requires
        0 <= pos,
        forall|m: int| pos <= m < s.len() ==> s[m] != 0,
    ensures
        pos < s.len() ==> nul_pos(s.subrange(pos, s.len() as int)) == s.len() - pos,
{
    if pos < s.len() {
        let sub = s.subrange(pos, s.len() as int);
        assert forall|m: int| 0 <= m < sub.len() implies sub[m] != 0 by {
            assert(sub[m] == s[pos + m]);
        }
        lemma_nul_pos(sub, sub.len() as int);
    }
}

} // verus!
