//! Big-endian integer fields and byte-buffer helpers shared by the wire formats.
use vstd::prelude::*;

verus! {

/// `256` raised to `n`.
pub open spec fn pow256(n: nat) -> nat
    decreases n,
{
    if n == 0 {
        1
    } else {
        256 * pow256((n - 1) as nat)
    }
}

/// The unsigned integer that `s` encodes in big-endian byte order.
pub open spec fn be_value(s: Seq<u8>) -> nat
    decreases s.len(),
{
    if s.len() == 0 {
        0
    } else {
        be_value(s.drop_last()) * 256 + s.last() as nat
    }
}

/// The `n` low-order bytes of `v`, most significant first.
pub open spec fn be_bytes(v: nat, n: nat) -> Seq<u8>
    decreases n,
{
    if n == 0 {
        Seq::empty()
    } else {
        be_bytes(v / 256, (n - 1) as nat).push((v % 256) as u8)
    }
}

/// `out` equals `base` with the range starting at `start` replaced by `part`.
pub open spec fn spliced(base: Seq<u8>, start: int, part: Seq<u8>) -> Seq<u8> {
    base.subrange(0, start) + part + base.subrange(start + part.len(), base.len() as int)
}

/// Powers of 256 are positive, with the values the encoders use.
pub proof fn lemma_pow256_facts(n: nat)
    ensures
        pow256(n) >= 1,
        pow256(2) == 0x1_0000,
        pow256(7) == 0x100_0000_0000_0000,
        pow256(8) == 0x1_0000_0000_0000_0000,
    decreases n,
{
    reveal_with_fuel(pow256, 9);
    if n > 0 {
        lemma_pow256_facts((n - 1) as nat);
    }
}

/// Powers of 256 grow with the exponent.
pub proof fn lemma_pow256_monotonic(a: nat, b: nat)
    requires
        a <= b,
    ensures
        pow256(a) <= pow256(b),
    decreases b,
{
    if a < b {
        lemma_pow256_monotonic(a, (b - 1) as nat);
        lemma_pow256_facts((b - 1) as nat);
    }
}

/// A big-endian value fits in its bytes.
pub proof fn lemma_be_value_bound(s: Seq<u8>)
    ensures
        be_value(s) < pow256(s.len()),
    decreases s.len(),
{
    if s.len() > 0 {
        lemma_be_value_bound(s.drop_last());
    }
}

/// A big-endian encoding has the requested length.
pub proof fn lemma_be_bytes_len(v: nat, n: nat)
    ensures
        be_bytes(v, n).len() == n,
    decreases n,
{
    if n > 0 {
        lemma_be_bytes_len(v / 256, (n - 1) as nat);
    }
}

/// Encoding `v` in `n` bytes and reading it back yields `v` modulo `256^n`.
pub proof fn lemma_be_roundtrip(v: nat, n: nat)
    ensures
        be_value(be_bytes(v, n)) == v % pow256(n),
    decreases n,
{
    if n > 0 {
        let m = (n - 1) as nat;
        lemma_be_roundtrip(v / 256, m);
        lemma_be_bytes_len(v / 256, m);
        let s = be_bytes(v, n);
        assert(s.drop_last() =~= be_bytes(v / 256, m));
        lemma_pow256_facts(m);
        let p = pow256(m);
        // v % (256 * p) == (v / 256) % p * 256 + v % 256
        vstd::arithmetic::div_mod::lemma_mod_breakdown(v as int, 256, p as int);
    }
}

/// A value below `256^n` survives the round trip unchanged.
pub proof fn lemma_be_roundtrip_small(v: nat, n: nat)
    requires
        v < pow256(n),
    ensures
        be_value(be_bytes(v, n)) == v,
{
    lemma_be_roundtrip(v, n);
    assert(v % pow256(n) == v) by (nonlinear_arith)
        requires v < pow256(n);
}

proof fn lemma_be_value_extend(s: Seq<u8>, start: int, i: int)
    requires
        0 <= start <= i < s.len(),
    ensures
        be_value(s.subrange(start, i + 1)) == be_value(s.subrange(start, i)) * 256 + s[i] as nat,
{
    assert(s.subrange(start, i + 1).drop_last() =~= s.subrange(start, i));
}

/// Reads the big-endian value of `n <= 8` bytes of `s` starting at `start`.
pub fn read_be(s: &[u8], start: usize, n: usize) -> (r: u64)
    requires
        start + n <= s@.len(),
        n <= 8,
    ensures
        r as nat == be_value(s@.subrange(start as int, start + n)),
{
    let total = s.len();
    let mut acc: u64 = 0;
    let mut i: usize = 0;
    while i < n
        invariant
            total == s@.len(),
            i <= n,
            n <= 8,
            start + n <= s@.len(),
            acc as nat == be_value(s@.subrange(start as int, start + i)),
        decreases n - i,
    {
        proof {
            lemma_be_value_bound(s@.subrange(start as int, start + i));
            lemma_pow256_monotonic(i as nat, 7);
            lemma_pow256_facts(7);
            lemma_be_value_extend(s@, start as int, start + i);
        }
        acc = acc * 256 + s[start + i] as u64;
        i = i + 1;
    }
    acc
}

/// Writes the `n <= 8` low-order bytes of `value` at `start`, most significant first.
pub fn write_be(out: &mut [u8], start: usize, value: u64, n: usize)
    requires
        start + n <= old(out)@.len(),
        n <= 8,
    ensures
        final(out)@ == spliced(old(out)@, start as int, be_bytes(value as nat, n as nat)),
{
    let ghost original = out@;
    let total = out.len();
    let mut rem: u64 = value;
    let mut k: usize = n;
    proof {
        lemma_be_bytes_len(value as nat, n as nat);
    }
    while k > 0
        invariant
            total == original.len(),
            k <= n,
            start + n <= original.len(),
            out@.len() == original.len(),
            be_bytes(rem as nat, k as nat).len() == k,
            be_bytes(value as nat, n as nat) =~= be_bytes(rem as nat, k as nat) + out@.subrange(
                start + k,
                start + n,
            ),
            out@.subrange(0, start as int) == original.subrange(0, start as int),
            out@.subrange(start + n, original.len() as int) == original.subrange(
                start + n,
                original.len() as int,
            ),
        decreases k,
    {
        let ghost before = out@;
        let byte = (rem % 256) as u8;
        out[start + k - 1] = byte;
        proof {
            lemma_be_bytes_len(rem as nat / 256, (k - 1) as nat);
            assert(be_bytes(rem as nat, k as nat) =~= be_bytes(rem as nat / 256, (k - 1) as nat).push(
                byte,
            ));
            assert(out@.subrange(start + k - 1, start + n) =~= seq![byte] + before.subrange(
                start + k,
                start + n,
            ));
            assert(out@.subrange(0, start as int) =~= before.subrange(0, start as int));
            assert(out@.subrange(start + n, original.len() as int) =~= before.subrange(
                start + n,
                original.len() as int,
            ));
        }
        rem = rem / 256;
        k = k - 1;
    }
    proof {
        assert(be_bytes(rem as nat, 0) =~= Seq::<u8>::empty());
        assert(out@ =~= spliced(original, start as int, be_bytes(value as nat, n as nat)));
    }
}

/// Copies `src` into `out` at `start`.
pub fn copy_into(out: &mut [u8], start: usize, src: &[u8])
    requires
        start + src@.len() <= old(out)@.len(),
    ensures
        final(out)@ == spliced(old(out)@, start as int, src@),
{
    let ghost original = out@;
    let total = out.len();
    let mut i: usize = 0;
    while i < src.len()
        invariant
            total == original.len(),
            i <= src@.len(),
            start + src@.len() <= original.len(),
            out@.len() == original.len(),
            forall|k: int| 0 <= k < start ==> out@[k] == original[k],
            forall|k: int| start + src@.len() <= k < original.len() ==> out@[k] == original[k],
            forall|k: int| 0 <= k < i ==> out@[start + k] == src@[k],
        decreases src@.len() - i,
    {
        out[start + i] = src[i];
        i = i + 1;
    }
    proof {
        assert forall|k: int| 0 <= k < original.len() implies out@[k] == spliced(
            original,
            start as int,
            src@,
        )[k] by {
            if start <= k < start + src@.len() {
                assert(out@[start + (k - start)] == src@[k - start]);
            }
        }
        assert(out@ =~= spliced(original, start as int, src@));
    }
}

/// Overwrites the bytes of `buffer` in `start..end` with zero.
pub fn clear_range(buffer: &mut [u8], start: usize, end: usize)
    requires
        start <= end <= old(buffer)@.len(),
    ensures
        final(buffer)@ == spliced(
            old(buffer)@,
            start as int,
            Seq::new((end - start) as nat, |_i: int| 0u8),
        ),
{
    let ghost original = buffer@;
    let mut i: usize = start;
    while i < end
        invariant
            start <= i <= end,
            end <= original.len(),
            buffer@.len() == original.len(),
            forall|k: int| 0 <= k < start ==> buffer@[k] == original[k],
            forall|k: int| end <= k < original.len() ==> buffer@[k] == original[k],
            forall|k: int| start <= k < i ==> buffer@[k] == 0,
        decreases end - i,
    {
        buffer[i] = 0;
        i = i + 1;
    }
    assert(buffer@ =~= spliced(
        original,
        start as int,
        Seq::new((end - start) as nat, |_i: int| 0u8),
    ));
}

/// Whether `a` and `b` hold the same bytes.
pub fn bytes_equal(a: &[u8], b: &[u8]) -> (r: bool)
    ensures
        r == (a@ == b@),
{
    if a.len() != b.len() {
        return false;
    }
    let mut i: usize = 0;
    while i < a.len()
        invariant
            a@.len() == b@.len(),
            i <= a@.len(),
            forall|k: int| 0 <= k < i ==> a@[k] == b@[k],
        decreases a@.len() - i,
    {
        if a[i] != b[i] {
            return false;
        }
        i = i + 1;
    }
    assert(a@ =~= b@);
    true
}

/// Appends every byte of `src` to `out`.
pub fn append_bytes(out: &mut Vec<u8>, src: &[u8])
    ensures
        final(out)@ == old(out)@ + src@,
{
    let ghost original = out@;
    let mut i: usize = 0;
    while i < src.len()
        invariant
            i <= src@.len(),
            out@ =~= original + src@.subrange(0, i as int),
        decreases src@.len() - i,
    {
        out.push(src[i]);
        i = i + 1;
    }
    assert(src@.subrange(0, src@.len() as int) =~= src@);
}

} // verus!
