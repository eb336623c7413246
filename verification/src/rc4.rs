//! RC4 stream cipher: key scheduling and keystream generation.
use vstd::prelude::*;

verus! {

/// Swaps the entries at `a` and `b` of a state sequence.
pub open spec fn swap_at(s: Seq<usize>, a: int, b: int) -> Seq<usize> {
    s.update(a, s[b]).update(b, s[a])
}

/// A permutation state of RC4: 256 entries, each a byte value.
pub open spec fn state_ok(s: Seq<usize>) -> bool {
    &&& s.len() == 256
    &&& forall|i: int| 0 <= i < 256 ==> #[trigger] s[i] < 256
}

/// The identity state that key scheduling starts from.
pub open spec fn initial_state() -> Seq<usize> {
    Seq::new(256, |i: int| i as usize)
}

/// The key-scheduling algorithm after `n` of its 256 rounds: the state and the index `j`.
pub open spec fn ksa(key: Seq<u8>, n: nat) -> (Seq<usize>, usize)
    decreases n,
{
    if n == 0 {
        (initial_state(), 0usize)
    } else {
        let (s, j) = ksa(key, (n - 1) as nat);
        let i = n - 1;
        let k = key[i % (key.len() as int)];
        let j2 = ((j + k + s[i]) % 256) as usize;
        (swap_at(s, i, j2 as int), j2)
    }
}

/// The state that key scheduling hands to keystream generation.
pub open spec fn scheduled_state(key: Seq<u8>) -> Seq<usize> {
    ksa(key, 256).0
}

/// Keystream generation after `n` bytes: state, the indices `i` and `j`, and the bytes so far.
pub open spec fn prga(s0: Seq<usize>, n: nat) -> (Seq<usize>, usize, usize, Seq<u8>)
    decreases n,
{
    if n == 0 {
        (s0, 0usize, 0usize, Seq::<u8>::empty())
    } else {
        let (s, i, j, ks) = prga(s0, (n - 1) as nat);
        let i2 = ((i + 1) % 256) as usize;
        let j2 = ((j + s[i2 as int]) % 256) as usize;
        let s2 = swap_at(s, i2 as int, j2 as int);
        let v = s2[((s2[i2 as int] + s2[j2 as int]) % 256) as int] as u8;
        (s2, i2, j2, ks.push(v))
    }
}

/// The first `n` bytes of the RC4 keystream for `key`.
pub open spec fn keystream(key: Seq<u8>, n: nat) -> Seq<u8> {
    prga(scheduled_state(key), n).3
}

/// The result of running RC4 over `src` with `key`: each byte xored with the keystream.
pub open spec fn rc4_apply(key: Seq<u8>, src: Seq<u8>) -> Seq<u8> {
    Seq::new(src.len(), |k: int| src[k] ^ keystream(key, src.len())[k])
}

proof fn lemma_ksa_ok(key: Seq<u8>, n: nat)
    requires
        key.len() > 0,
        n <= 256,
    ensures
        state_ok(ksa(key, n).0),
        ksa(key, n).1 < 256,
    decreases n,
{
    if n > 0 {
        lemma_ksa_ok(key, (n - 1) as nat);
    }
}

proof fn lemma_prga_ok(s0: Seq<usize>, n: nat)
    requires
        state_ok(s0),
    ensures
        state_ok(prga(s0, n).0),
        prga(s0, n).1 < 256,
        prga(s0, n).2 < 256,
        prga(s0, n).3.len() == n,
    decreases n,
{
    if n > 0 {
        lemma_prga_ok(s0, (n - 1) as nat);
    }
}

/// A prefix of the keystream does not depend on how many bytes are asked for.
proof fn lemma_keystream_prefix(s0: Seq<usize>, m: nat, n: nat)
    requires
        m <= n,
    ensures
        prga(s0, n).3.len() == n ==> prga(s0, m).3 =~= prga(s0, n).3.subrange(0, m as int),
    decreases n,
{
    if m < n {
        lemma_keystream_prefix(s0, m, (n - 1) as nat);
        if n > 0 {
            let p = prga(s0, (n - 1) as nat);
            assert(prga(s0, n).3 == p.3.push(prga(s0, n).3.last()));
        }
    }
}

/// Builds the RC4 state from `key`.
fn generate_state(key: &[u8]) -> (s: Vec<usize>)
    requires
        key@.len() > 0,
    ensures
        s@ == scheduled_state(key@),
        state_ok(s@),
{
    let mut s: Vec<usize> = Vec::new();
    let mut n: usize = 0;
    while n < 256
        invariant
            n <= 256,
            s@.len() == n,
            forall|i: int| 0 <= i < n ==> #[trigger] s@[i] == i as usize,
        decreases 256 - n,
    {
        s.push(n);
        n = n + 1;
    }
    assert(s@ =~= initial_state());
    let mut j: usize = 0;
    let mut i: usize = 0;
    while i < 256
        invariant
            key@.len() > 0,
            i <= 256,
            (s@, j) == ksa(key@, i as nat),
            state_ok(s@),
            j < 256,
        decreases 256 - i,
    {
        proof {
            lemma_ksa_ok(key@, (i + 1) as nat);
        }
        let k = key[i % key.len()] as usize;
        let j2 = (j + k + s[i]) % 256;
        let si = s[i];
        let sj = s[j2];
        s.set(i, sj);
        s.set(j2, si);
        j = j2;
        i = i + 1;
        assert(s@ =~= ksa(key@, i as nat).0);
    }
    s
}

/// Xors `src` with the keystream generated from state `s` into `dst`.
fn do_transfer(src: &[u8], dst: &mut [u8], s: &mut [usize])
    requires
        state_ok(old(s)@),
        old(dst)@.len() >= src@.len(),
    ensures
        final(dst)@.len() == old(dst)@.len(),
        forall|k: int| 0 <= k < src@.len() ==>
            #[trigger] final(dst)@[k] == src@[k] ^ prga(old(s)@, src@.len() as nat).3[k],
        forall|k: int| src@.len() <= k < old(dst)@.len() ==> #[trigger] final(dst)@[k] == old(dst)@[k],
{
    let ghost s0 = s@;
    let len = src.len();
    let mut i: usize = 0;
    let mut j: usize = 0;
    let mut k: usize = 0;
    while k < len
        invariant
            len == src@.len(),
            k <= len,
            state_ok(s0),
            dst@.len() == old(dst)@.len(),
            old(dst)@.len() >= len,
            (s@, i, j) == (prga(s0, k as nat).0, prga(s0, k as nat).1, prga(s0, k as nat).2),
            forall|m: int| 0 <= m < k ==> #[trigger] dst@[m] == src@[m] ^ prga(s0, k as nat).3[m],
            forall|m: int| len <= m < old(dst)@.len() ==> #[trigger] dst@[m] == old(dst)@[m],
        decreases len - k,
    {
        proof {
            lemma_prga_ok(s0, k as nat);
            lemma_prga_ok(s0, (k + 1) as nat);
            lemma_keystream_prefix(s0, k as nat, (k + 1) as nat);
        }
        let i2 = (i + 1) % 256;
        let j2 = (j + s[i2]) % 256;
        let si = s[i2];
        let sj = s[j2];
        s[i2] = sj;
        s[j2] = si;
        let v = s[(s[i2] + s[j2]) % 256] as u8;
        dst[k] = src[k] ^ v;
        i = i2;
        j = j2;
        k = k + 1;
        assert(s@ =~= prga(s0, k as nat).0);
    }
    proof {
        lemma_prga_ok(s0, len as nat);
    }
}

/// Runs RC4 with `key` over `src`, writing the result into the front of `dst`.
pub fn transfer(src: &[u8], dst: &mut [u8], key: &[u8])
    requires
        key@.len() > 0,
        old(dst)@.len() >= src@.len(),
    ensures
        final(dst)@.len() == old(dst)@.len(),
        final(dst)@.subrange(0, src@.len() as int) == rc4_apply(key@, src@),
        final(dst)@.subrange(src@.len() as int, old(dst)@.len() as int)
            == old(dst)@.subrange(src@.len() as int, old(dst)@.len() as int),
{
    let mut s = generate_state(key);
    do_transfer(src, dst, s.as_mut_slice());
    assert(final(dst)@.subrange(0, src@.len() as int) =~= rc4_apply(key@, src@));
    assert(final(dst)@.subrange(src@.len() as int, old(dst)@.len() as int)
            =~= old(dst)@.subrange(src@.len() as int, old(dst)@.len() as int));
}

/// Running RC4 twice with the same key gives back the input: encryption and
/// decryption are the same operation.
pub proof fn lemma_rc4_involution(key: Seq<u8>, data: Seq<u8>)
    ensures
        rc4_apply(key, rc4_apply(key, data)) == data,
{
    let once = rc4_apply(key, data);
    let twice = rc4_apply(key, once);
    let ks = keystream(key, data.len());
    assert forall|k: int| 0 <= k < data.len() implies #[trigger] twice[k] == data[k] by {
        let a = data[k];
        let b = ks[k];
        assert((a ^ b) ^ b == a) by (bit_vector);
    }
    assert(twice =~= data);
}

/// RC4 over a longer input begins as RC4 over its prefix: each byte depends
/// only on the keystream up to it.
pub proof fn lemma_rc4_prefix(key: Seq<u8>, data: Seq<u8>, m: nat)
    requires
        m <= data.len(),
    ensures
        rc4_apply(key, data).subrange(0, m as int) == rc4_apply(key, data.subrange(0, m as int)),
{
    let s0 = scheduled_state(key);
    lemma_keystream_prefix(s0, m, data.len());
    lemma_prga_len(s0, data.len());
    assert(rc4_apply(key, data).subrange(0, m as int) =~= rc4_apply(key, data.subrange(0, m as int)));
}

proof fn lemma_prga_len(s0: Seq<usize>, n: nat)
    ensures
        prga(s0, n).3.len() == n,
    decreases n,
{
    if n > 0 {
        lemma_prga_len(s0, (n - 1) as nat);
    }
}

} // verus!
