//! Little-endian encoding of fixed-width integers.
use vstd::prelude::*;

verus! {

/// The number `256^n`.
pub open spec fn pow256(n: nat) -> nat
    decreases n,
{
    if n == 0 {
        1
    } else {
        256 * pow256((n - 1) as nat)
    }
}

/// The unsigned value of a little-endian byte sequence.
pub open spec fn le_value(b: Seq<u8>) -> nat
    decreases b.len(),
{
    if b.len() == 0 {
        0
    } else {
        b[0] as nat + 256 * le_value(b.drop_first())
    }
}

/// The `n` low bytes of `v`, least significant first.
pub open spec fn le_bytes(v: nat, n: nat) -> Seq<u8>
    decreases n,
{
    if n == 0 {
        Seq::empty()
    } else {
        seq![(v % 256) as u8] + le_bytes(v / 256, (n - 1) as nat)
    }
}

/// The two's-complement bit pattern of a signed 64-bit value, as a natural number.
pub open spec fn i64_bits(v: i64) -> nat {
    if v >= 0 {
        v as nat
    } else {
        (v + 0x1_0000_0000_0000_0000int) as nat
    }
}

/// The signed 64-bit value whose two's-complement bit pattern is `u`.
pub open spec fn i64_of_bits(u: nat) -> i64 {
    if u < 0x8000_0000_0000_0000 {
        u as i64
    } else {
        (u - 0x1_0000_0000_0000_0000int) as i64
    }
}

/// The encoding of a value with `n` bytes is `n` bytes long.
pub proof fn lemma_le_bytes_len(v: nat, n: nat)
    ensures
        le_bytes(v, n).len() == n,
    decreases n,
{
    if n > 0 {
        lemma_le_bytes_len(v / 256, (n - 1) as nat);
    }
}

/// Only the low `n` bytes of a value are encoded.
pub proof fn lemma_le_bytes_low(v: nat, n: nat)
    ensures
        le_bytes(v % pow256(n), n) == le_bytes(v, n),
    decreases n,
{
    if n > 0 {
        let m = pow256((n - 1) as nat);
        lemma_pow256_positive((n - 1) as nat);
        assert(pow256(n) == 256 * m);
        let w = v % (256 * m);
        vstd::arithmetic::div_mod::lemma_mod_mod(v as int, 256, m as int);
        vstd::arithmetic::div_mod::lemma_mod_breakdown(v as int, 256, m as int);
        assert(w % 256 == v % 256);
        assert(w == 256 * ((v / 256) % m) + v % 256);
        assert(w / 256 == (v / 256) % m);
        lemma_le_bytes_low(v / 256, (n - 1) as nat);
        assert(le_bytes(w, n) == seq![(w % 256) as u8] + le_bytes(w / 256, (n - 1) as nat));
    }
}

/// `256^n` is positive.
pub proof fn lemma_pow256_positive(n: nat)
    ensures
        pow256(n) > 0,
    decreases n,
{
    if n > 0 {
        lemma_pow256_positive((n - 1) as nat);
    }
}

/// The value of `n` bytes is below `256^n`.
pub proof fn lemma_le_value_bound(b: Seq<u8>)
    ensures
        le_value(b) < pow256(b.len()),
    decreases b.len(),
{
    if b.len() > 0 {
        lemma_le_value_bound(b.drop_first());
    }
}

/// Decoding the `n`-byte encoding of a value below `256^n` gives the value back.
pub proof fn lemma_le_value_of_bytes(v: nat, n: nat)
    requires
        v < pow256(n),
    ensures
        le_value(le_bytes(v, n)) == v,
    decreases n,
{
    if n > 0 {
        let rest = le_bytes(v / 256, (n - 1) as nat);
        assert(v / 256 < pow256((n - 1) as nat));
        lemma_le_value_of_bytes(v / 256, (n - 1) as nat);
        assert(le_bytes(v, n).drop_first() =~= rest);
    }
}

/// Encoding the value of a byte sequence with its own width gives the sequence back.
pub proof fn lemma_le_bytes_of_value(b: Seq<u8>)
    ensures
        le_bytes(le_value(b), b.len()) == b,
    decreases b.len(),
{
    if b.len() > 0 {
        let r = le_value(b.drop_first());
        lemma_le_bytes_of_value(b.drop_first());
        let v = le_value(b);
        assert(v % 256 == b[0] as nat);
        assert(v / 256 == r);
        assert(le_bytes(v, b.len()) =~= b);
    }
}

/// The value of a concatenation: the second part counts `256^len` times its value.
pub proof fn lemma_le_value_append(a: Seq<u8>, b: Seq<u8>)
    ensures
        le_value(a + b) == le_value(a) + pow256(a.len()) * le_value(b),
    decreases a.len(),
{
    if a.len() == 0 {
        assert(a + b =~= b);
        assert(pow256(a.len()) == 1);
        assert(le_value(a) == 0);
        assert(le_value(a + b) == le_value(a) + pow256(a.len()) * le_value(b));
    } else {
        let a1 = a.drop_first();
        lemma_le_value_append(a1, b);
        assert((a + b).drop_first() =~= a1 + b);
        assert((a + b)[0] == a[0]);
        let x = le_value(a1);
        let y = pow256(a1.len());
        let z = le_value(b);
        assert(256 * (x + y * z) == 256 * x + (256 * y) * z) by (nonlinear_arith);
        assert(pow256(a.len()) == 256 * y);
        assert(le_value(a) == a[0] as nat + 256 * x);
        assert(le_value(a + b) == a[0] as nat + 256 * le_value(a1 + b));
        assert(le_value(a + b) == le_value(a) + pow256(a.len()) * le_value(b));
    }
}

/// The bit pattern of a signed value fits in eight bytes and reads back as the value.
pub proof fn lemma_i64_bits_roundtrip(v: i64)
    ensures
        i64_bits(v) < pow256(8),
        i64_of_bits(i64_bits(v)) == v,
{
    reveal_with_fuel(pow256, 9);
}

/// Every eight-byte bit pattern is the pattern of the signed value it reads as.
pub proof fn lemma_i64_of_bits_roundtrip(u: nat)
    requires
        u < pow256(8),
    ensures
        i64_bits(i64_of_bits(u)) == u,
{
    reveal_with_fuel(pow256, 9);
}

/// The value of four bytes, written out.
pub proof fn lemma_le_value_4(b: Seq<u8>)
    requires
        b.len() == 4,
    ensures
        le_value(b) == b[0] + 256 * b[1] + 65536 * b[2] + 16777216 * b[3],
{
    reveal_with_fuel(le_value, 5);
    assert(b.drop_first().drop_first().drop_first().drop_first().len() == 0);
}

/// The value of eight bytes, written out.
pub proof fn lemma_le_value_8(b: Seq<u8>)
    requires
        b.len() == 8,
    ensures
        le_value(b) == b[0] + 256 * b[1] + 65536 * b[2] + 16777216 * b[3] + 4294967296 * (b[4] + 256
            * b[5] + 65536 * b[6] + 16777216 * b[7]),
{
    let lo = b.subrange(0, 4);
    let hi = b.subrange(4, 8);
    assert(b =~= lo + hi);
    lemma_le_value_append(lo, hi);
    lemma_le_value_4(lo);
    lemma_le_value_4(hi);
    reveal_with_fuel(pow256, 5);
    assert(pow256(4) == 4294967296);
}

/// Reads four bytes at `off` as a little-endian `u32`.
pub fn read_u32_le(data: &[u8], off: usize) -> (v: u32)
    requires
        off + 4 <= data.len(),
    ensures
        v as nat == le_value(data@.subrange(off as int, off + 4)),
{
    let b0 = data[off] as u32;
    let b1 = data[off + 1] as u32;
    let b2 = data[off + 2] as u32;
    let b3 = data[off + 3] as u32;
    proof {
        let s = data@.subrange(off as int, off + 4);
        reveal_with_fuel(le_value, 5);
        assert(s.drop_first().drop_first().drop_first().drop_first().len() == 0);
    }
    b0 + b1 * 256 + b2 * 65536 + b3 * 16777216
}

/// Reads eight bytes at `off` as a little-endian `u64`.
pub fn read_u64_le(data: &[u8], off: usize) -> (v: u64)
    requires
        off + 8 <= data.len(),
    ensures
        v as nat == le_value(data@.subrange(off as int, off + 8)),
{
    let lo = read_u32_le(data, off) as u64;
    let hi = read_u32_le(data, off + 4) as u64;
    proof {
        let s = data@.subrange(off as int, off + 8);
        reveal_with_fuel(le_value, 5);
        assert(s =~= data@.subrange(off as int, off + 4) + data@.subrange(off + 4, off + 8));
        lemma_le_value_append(data@.subrange(off as int, off + 4), data@.subrange(off + 4, off + 8));
        reveal_with_fuel(pow256, 5);
        assert(pow256(4) == 4294967296);
        let a = data@.subrange(off as int, off + 4);
        let b = data@.subrange(off + 4, off + 8);
        assert(a.len() == 4);
        assert(lo as nat == le_value(a));
        assert(hi as nat == le_value(b));
        assert(le_value(s) == le_value(a) + 4294967296 * le_value(b));
    }
    let v = lo + hi * 4294967296;
    assert(v as nat == lo as nat + 4294967296 * hi as nat);
    assert(v as nat == le_value(data@.subrange(off as int, off + 8)));
    v
}

/// Appends the `n` low bytes of `v` to `buf`, least significant first.
pub fn push_le(buf: &mut Vec<u8>, v: u64, n: usize)
    ensures
        final(buf)@ == old(buf)@ + le_bytes(v as nat, n as nat),
{
    let mut x: u64 = v;
    let mut i: usize = 0;
    while i < n
        invariant
            i <= n,
            buf@ + le_bytes(x as nat, (n - i) as nat) == old(buf)@ + le_bytes(v as nat, n as nat),
        decreases n - i,
    {
        let ghost before = buf@;
        buf.push((x % 256) as u8);
        proof {
            let k = (n - i) as nat;
            assert(le_bytes(x as nat, k) == seq![(x % 256) as u8] + le_bytes((x / 256) as nat, (k - 1) as nat));
            assert(buf@ + le_bytes((x / 256) as nat, (k - 1) as nat) =~= before + le_bytes(x as nat, k));
        }
        x = x / 256;
        i = i + 1;
    }
    assert(buf@ + le_bytes(x as nat, 0) =~= buf@);
}

/// Copies `N` bytes of `data`, starting at `off`, into an array.
pub fn array_at<const N: usize>(data: &[u8], off: usize) -> (a: [u8; N])
    requires
        off + N <= data.len(),
    ensures
        a@ == data@.subrange(off as int, off + N),
{
    let mut a = [0u8; N];
    let mut i: usize = 0;
    while i < N
        invariant
            i <= N,
            off + N <= data.len(),
            a@.len() == N,
            forall|j: int| 0 <= j < i ==> a@[j] == data@[off + j],
        decreases N - i,
    {
        a[i] = data[off + i];
        i = i + 1;
    }
    assert(a@ =~= data@.subrange(off as int, off + N));
    a
}

} // verus!
