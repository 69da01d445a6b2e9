//! Little-endian byte fields and bit packing: the primitives the save codec
//! writes and reads, with exact round-trip contracts.

use vstd::prelude::*;

verus! {

pub open spec fn pow256(n: nat) -> int
    decreases n,
{
    if n == 0 {
        1
    } else {
        256 * pow256((n - 1) as nat)
    }
}

pub open spec fn pow2i(n: nat) -> int
    decreases n,
{
    if n == 0 {
        1
    } else {
        2 * pow2i((n - 1) as nat)
    }
}

/// The `n` little-endian bytes of the non-negative value `x`.
pub open spec fn le_bytes(x: int, n: nat) -> Seq<u8>
    decreases n,
{
    if n == 0 {
        Seq::empty()
    } else {
        seq![(x % 256) as u8] + le_bytes(x / 256, (n - 1) as nat)
    }
}

/// The value of a little-endian byte string.
pub open spec fn le_val(s: Seq<u8>) -> int
    decreases s.len(),
{
    if s.len() == 0 {
        0
    } else {
        s[0] + 256 * le_val(s.skip(1))
    }
}

pub proof fn lemma_le_bytes_len(x: int, n: nat)
    ensures
        le_bytes(x, n).len() == n,
    decreases n,
{
    if n > 0 {
        lemma_le_bytes_len(x / 256, (n - 1) as nat);
    }
}

pub proof fn lemma_le_val_bound(s: Seq<u8>)
    ensures
        0 <= le_val(s) < pow256(s.len()),
    decreases s.len(),
{
    if s.len() > 0 {
        lemma_le_val_bound(s.skip(1));
    }
}

/// Writing then reading a little-endian field gives the value back.
pub proof fn lemma_le_roundtrip(x: int, n: nat)
    requires
        0 <= x < pow256(n),
    ensures
        le_val(le_bytes(x, n)) == x,
    decreases n,
{
    if n > 0 {
        assert(x / 256 < pow256((n - 1) as nat)) by {
            assert(x < 256 * pow256((n - 1) as nat));
        }
        lemma_le_roundtrip(x / 256, (n - 1) as nat);
        lemma_le_bytes_len(x / 256, (n - 1) as nat);
        let s = le_bytes(x, n);
        assert(s.skip(1) =~= le_bytes(x / 256, (n - 1) as nat));
    }
}

/// Appends the `n` little-endian bytes of `x`.
pub fn push_le(out: &mut Vec<u8>, x: u64, n: usize)
    requires
        n <= 8,
        x < pow256(n as nat),
    ensures
        final(out)@ == old(out)@ + le_bytes(x as int, n as nat),
{
    let ghost start = out@;
    let mut acc: u64 = x;
    let mut i: usize = 0;
    while i < n
        invariant
            i <= n,
            out@ == start + le_bytes(x as int, n as nat).take(i as int),
            le_bytes(acc as int, (n - i) as nat) == le_bytes(x as int, n as nat).skip(i as int),
        decreases n - i,
    {
        let b: u8 = (acc % 256) as u8;
        proof {
            lemma_le_bytes_len(x as int, n as nat);
            lemma_le_bytes_len(acc as int / 256, (n - i - 1) as nat);
            assert(le_bytes(acc as int, (n - i) as nat)[0] == b);
            assert(le_bytes(x as int, n as nat).take(i as int + 1) =~= le_bytes(
                x as int,
                n as nat,
            ).take(i as int).push(le_bytes(x as int, n as nat)[i as int]));
            assert(le_bytes(x as int, n as nat)[i as int] == le_bytes(
                acc as int,
                (n - i) as nat,
            )[0]);
            assert(le_bytes(acc as int / 256, (n - i - 1) as nat) =~= le_bytes(
                acc as int,
                (n - i) as nat,
            ).skip(1));
            assert(le_bytes(x as int, n as nat).skip(i as int).skip(1) =~= le_bytes(
                x as int,
                n as nat,
            ).skip(i as int + 1));
        }
        out.push(b);
        acc = acc / 256;
        i += 1;
    }
    proof {
        lemma_le_bytes_len(x as int, n as nat);
        assert(out@ =~= start + le_bytes(x as int, n as nat));
    }
}

/// Reads the `n`-byte little-endian field at offset `at`.
pub fn read_le(b: &Vec<u8>, at: usize, n: usize) -> (r: u64)
    requires
        n <= 8,
        at + n <= b@.len(),
    ensures
        r == le_val(b@.subrange(at as int, at as int + n as int)),
{
    let blen: usize = b.len();
    let mut acc: u64 = 0;
    let mut j: usize = n;
    while j > 0
        invariant
            j <= n <= 8,
            blen == b@.len(),
            at + n <= blen,
            acc == le_val(b@.subrange(at + j, at + n)),
            acc < pow256((n - j) as nat),
        decreases j,
    {
        j -= 1;
        let ghost pre = b@.subrange(at + j, at + n);
        proof {
            assert(pre.skip(1) =~= b@.subrange(at + j + 1, at + n));
            lemma_le_val_bound(b@.subrange(at + j + 1, at + n));
            assert(pow256((n - j) as nat) == 256 * pow256((n - j - 1) as nat));
            lemma_pow256_le((n - j) as nat, 8);
            assert(pow256(8) == 0x1_0000_0000_0000_0000) by {
                reveal_with_fuel(pow256, 9);
            }
        }
        proof {
            assert(j < n);
            assert(at + j < b@.len());
        }
        let idx: usize = at + j;
        acc = acc * 256 + b[idx] as u64;
    }
    proof {
        assert(b@.subrange(at as int, at + n) == b@.subrange(at + 0, at + n));
    }
    acc
}

pub proof fn lemma_pow256_pos(n: nat)
    ensures
        pow256(n) >= 1,
    decreases n,
{
    if n > 0 {
        lemma_pow256_pos((n - 1) as nat);
    }
}

pub proof fn lemma_pow256_le(m: nat, n: nat)
    requires
        m <= n,
    ensures
        pow256(m) <= pow256(n),
    decreases n,
{
    if m < n && n > 0 {
        lemma_pow256_le(m, (n - 1) as nat);
        lemma_pow256_pos((n - 1) as nat);
    }
}

/// The `n` bits of `x`, least significant first.
pub open spec fn bits_le(x: int, n: nat) -> Seq<bool>
    decreases n,
{
    if n == 0 {
        Seq::empty()
    } else {
        seq![x % 2 == 1] + bits_le(x / 2, (n - 1) as nat)
    }
}

/// The value of a bit string, least significant bit first.
pub open spec fn bits_val(s: Seq<bool>) -> int
    decreases s.len(),
{
    if s.len() == 0 {
        0
    } else {
        (if s[0] {
            1int
        } else {
            0int
        }) + 2 * bits_val(s.skip(1))
    }
}

pub proof fn lemma_bits_le_len(x: int, n: nat)
    ensures
        bits_le(x, n).len() == n,
    decreases n,
{
    if n > 0 {
        lemma_bits_le_len(x / 2, (n - 1) as nat);
    }
}

pub proof fn lemma_bits_val_bound(s: Seq<bool>)
    ensures
        0 <= bits_val(s) < pow2i(s.len()),
    decreases s.len(),
{
    if s.len() > 0 {
        lemma_bits_val_bound(s.skip(1));
    }
}

/// Packing a bit string into a value and unpacking it again gives the same
/// bits back.
pub proof fn lemma_bits_roundtrip(s: Seq<bool>)
    ensures
        bits_le(bits_val(s), s.len()) == s,
    decreases s.len(),
{
    if s.len() > 0 {
        lemma_bits_roundtrip(s.skip(1));
        lemma_bits_val_bound(s.skip(1));
        let v = bits_val(s);
        assert(v % 2 == (if s[0] { 1int } else { 0int }) && v / 2 == bits_val(s.skip(1)));
        lemma_bits_le_len(v / 2, (s.len() - 1) as nat);
        assert(bits_le(v, s.len()) =~= s);
    }
}

/// A bit string padded with `false` up to a multiple of eight.
pub open spec fn pad8(s: Seq<bool>) -> Seq<bool> {
    if s.len() % 8 == 0 {
        s
    } else {
        s + Seq::new((8 - s.len() % 8) as nat, |i: int| false)
    }
}

/// The bytes of a bit string, eight bits per byte, least significant bit
/// first, the last byte padded with zero bits.
pub open spec fn pack_bits_spec(s: Seq<bool>) -> Seq<u8>
    decreases s.len(),
{
    if s.len() == 0 {
        Seq::empty()
    } else if s.len() < 8 {
        seq![bits_val(pad8(s)) as u8]
    } else {
        seq![bits_val(s.take(8)) as u8] + pack_bits_spec(s.skip(8))
    }
}

pub proof fn lemma_pack_bits_len(s: Seq<bool>)
    ensures
        pack_bits_spec(s).len() == (s.len() + 7) / 8,
    decreases s.len(),
{
    if s.len() >= 8 {
        lemma_pack_bits_len(s.skip(8));
    }
}

/// The first eight bits of `s`, padded with `false` when `s` is shorter.
pub open spec fn chunk8(s: Seq<bool>) -> Seq<bool> {
    Seq::new(
        8,
        |k: int|
            if k < s.len() {
                s[k]
            } else {
                false
            },
    )
}

/// Packs a bit string into bytes, eight bits per byte, least significant
/// bit first.
pub fn pack_bits(bits: &Vec<bool>) -> (r: Vec<u8>)
    ensures
        r@ == pack_bits_spec(bits@),
{
    let len: usize = bits.len();
    let mut r: Vec<u8> = Vec::new();
    let mut i: usize = 0;
    proof {
        assert(bits@.skip(0) =~= bits@);
    }
    while i < len
        invariant
            len == bits@.len(),
            i <= len,
            pack_bits_spec(bits@) == r@ + pack_bits_spec(bits@.skip(i as int)),
        decreases len - i,
    {
        let ghost rest = bits@.skip(i as int);
        let mut acc: u8 = 0;
        let mut j: usize = 8;
        while j > 0
            invariant
                j <= 8,
                i < len == bits@.len(),
                rest == bits@.skip(i as int),
                acc == bits_val(chunk8(rest).skip(j as int)),
                acc < pow2i((8 - j) as nat),
            decreases j,
        {
            j -= 1;
            let bit: bool = if j < len - i {
                bits[i + j]
            } else {
                false
            };
            proof {
                assert(chunk8(rest).skip(j as int).skip(1) =~= chunk8(rest).skip(j as int + 1));
                assert(chunk8(rest)[j as int] == bit);
                lemma_bits_val_bound(chunk8(rest).skip(j as int + 1));
                assert(chunk8(rest).skip(j as int + 1).len() == 7 - j);
                lemma_pow2i_le((7 - j) as nat, 7);
                assert(pow2i(7) == 128 && pow2i(8) == 256) by {
                    reveal_with_fuel(pow2i, 9);
                }
            }
            acc = acc * 2 + (if bit {
                1u8
            } else {
                0u8
            });
        }
        proof {
            assert(chunk8(rest).skip(0) =~= chunk8(rest));
            lemma_bits_val_bound(chunk8(rest));
            assert(pow2i(8) == 256) by {
                reveal_with_fuel(pow2i, 9);
            }
            if len - i < 8 {
                assert(chunk8(rest) =~= pad8(rest));
                assert(pack_bits_spec(rest) =~= seq![acc]);
                assert(bits@.skip(len as int) =~= Seq::<bool>::empty());
                assert(r@.push(acc) + pack_bits_spec(bits@.skip(len as int)) =~= r@
                    + pack_bits_spec(rest));
            } else {
                assert(chunk8(rest) =~= rest.take(8));
                assert(bits@.skip(i as int).skip(8) =~= bits@.skip(i as int + 8));
                assert(r@.push(acc) + pack_bits_spec(bits@.skip(i as int + 8)) =~= r@
                    + pack_bits_spec(rest));
            }
        }
        r.push(acc);
        if len - i < 8 {
            i = len;
        } else {
            i += 8;
        }
    }
    proof {
        assert(bits@.skip(len as int) =~= Seq::<bool>::empty());
        assert(r@ =~= pack_bits_spec(bits@));
    }
    r
}

pub proof fn lemma_pow2i_pos(n: nat)
    ensures
        pow2i(n) >= 1,
    decreases n,
{
    if n > 0 {
        lemma_pow2i_pos((n - 1) as nat);
    }
}

pub proof fn lemma_pow2i_le(m: nat, n: nat)
    requires
        m <= n,
    ensures
        pow2i(m) <= pow2i(n),
    decreases n,
{
    if m < n && n > 0 {
        lemma_pow2i_le(m, (n - 1) as nat);
        lemma_pow2i_pos((n - 1) as nat);
    }
}

/// The first `n` bits behind a packed byte string, least significant bit of
/// each byte first.
pub open spec fn unpack_bits_spec(bytes: Seq<u8>, n: nat) -> Seq<bool> {
    Seq::new(n, |i: int| bits_le(bytes[i / 8] as int, 8)[i % 8])
}

/// Unpacks `n` bits out of a packed byte string.
pub fn unpack_bits(bytes: &Vec<u8>, n: usize) -> (r: Vec<bool>)
    requires
        n <= bytes@.len() * 8,
    ensures
        r@ == unpack_bits_spec(bytes@, n as nat),
{
    let mut r: Vec<bool> = Vec::new();
    let len: usize = bytes.len();
    let mut k: usize = 0;
    while r.len() < n
        invariant
            n <= len * 8,
            len == bytes@.len(),
            r@.len() <= n,
            r@.len() == 8 * k || (r@.len() == n && n <= 8 * k),
            r@ == unpack_bits_spec(bytes@, n as nat).take(r@.len() as int),
        decreases n - r@.len(),
    {
        proof {
            assert(r@.len() == 8 * k);
            assert(k < len) by {
                assert(8 * k < n <= len * 8);
            }
        }
        let b: u8 = bytes[k];
        let mut acc: u8 = b;
        let mut j: usize = 0;
        while j < 8 && r.len() < n
            invariant
                j <= 8,
                k < len == bytes@.len(),
                n <= len * 8,
                b == bytes@[k as int],
                acc == bits_val_inv(b as int, j as nat),
                r@.len() == 8 * k + j,
                r@.len() <= n,
                r@ == unpack_bits_spec(bytes@, n as nat).take(8 * (k as int) + j as int),
            decreases 8 - j,
        {
            let bit: bool = acc % 2 == 1;
            proof {
                lemma_bits_le_index(b as int, j as nat);
                assert((8 * (k as int) + j) / 8 == k as int && (8 * (k as int) + j) % 8 == j as int);
                assert(unpack_bits_spec(bytes@, n as nat).take(8 * (k as int) + j + 1)
                    =~= unpack_bits_spec(bytes@, n as nat).take(8 * (k as int) + j).push(
                    unpack_bits_spec(bytes@, n as nat)[8 * (k as int) + j],
                ));
            }
            r.push(bit);
            acc = acc / 2;
            j += 1;
        }
        k += 1;
    }
    proof {
        assert(r@.len() == n as int);
        assert(r@ =~= unpack_bits_spec(bytes@, n as nat));
    }
    r
}

/// The byte `x` shifted down by `j` bits.
pub open spec fn bits_val_inv(x: int, j: nat) -> int
    decreases j,
{
    if j == 0 {
        x
    } else {
        bits_val_inv(x, (j - 1) as nat) / 2
    }
}

/// The `j`-th bit of `x` read off the shifted-down value.
pub proof fn lemma_bits_le_index(x: int, j: nat)
    requires
        j < 8,
        0 <= x,
    ensures
        bits_le(x, 8)[j as int] == (bits_val_inv(x, j) % 2 == 1),
        bits_val_inv(x, j) / 2 == bits_val_inv(x, j + 1),
        bits_val_inv(x, j) >= 0,
{
    lemma_bits_le_shift(x, j, 8);
}

proof fn lemma_bits_le_shift(x: int, j: nat, n: nat)
    requires
        j < n,
        0 <= x,
    ensures
        bits_le(x, n)[j as int] == (bits_val_inv(x, j) % 2 == 1),
        bits_val_inv(x, j) / 2 == bits_val_inv(x, j + 1),
        bits_val_inv(x, j) >= 0,
    decreases j,
{
    lemma_bits_le_len(x / 2, (n - 1) as nat);
    if j == 0 {
    } else {
        lemma_bits_le_shift(x / 2, (j - 1) as nat, (n - 1) as nat);
        lemma_bits_val_inv_div(x, (j - 1) as nat);
        lemma_bits_val_inv_div(x, j);
        assert(bits_le(x, n)[j as int] == bits_le(x / 2, (n - 1) as nat)[j - 1]);
    }
}

/// Shifting down commutes with starting from the half.
proof fn lemma_bits_val_inv_div(x: int, j: nat)
    requires
        0 <= x,
    ensures
        bits_val_inv(x, j) / 2 == bits_val_inv(x / 2, j),
        bits_val_inv(x, j) >= 0,
    decreases j,
{
    if j > 0 {
        lemma_bits_val_inv_div(x, (j - 1) as nat);
    }
}

/// Unpacking what was packed gives the original bits back.
pub proof fn lemma_pack_unpack(s: Seq<bool>)
    ensures
        unpack_bits_spec(pack_bits_spec(s), s.len()) == s,
{
    lemma_pack_bits_len(s);
    assert forall|i: int| 0 <= i < s.len() implies unpack_bits_spec(pack_bits_spec(s), s.len())[i]
        == s[i] by {
        let k = i / 8;
        lemma_pack_bits_index(s, k);
        let c = chunk8(s.skip(8 * k));
        lemma_bits_val_bound(c);
        assert(pow2i(8) == 256) by {
            reveal_with_fuel(pow2i, 9);
        }
        lemma_bits_roundtrip(c);
        assert(bits_le(pack_bits_spec(s)[k] as int, 8) == c);
        assert(c[i % 8] == s.skip(8 * k)[i % 8]);
        assert(s.skip(8 * k)[i % 8] == s[i]) by {
            assert(8 * k + i % 8 == i);
        }
    };
    assert(unpack_bits_spec(pack_bits_spec(s), s.len()) =~= s);
}

/// Each packed byte is the value of its (padded) chunk of eight bits.
proof fn lemma_pack_bits_index(s: Seq<bool>, k: int)
    requires
        0 <= k,
        8 * k < s.len(),
    ensures
        pack_bits_spec(s)[k] == bits_val(chunk8(s.skip(8 * k))),
    decreases s.len(),
{
    lemma_pack_bits_len(s);
    lemma_bits_val_bound(chunk8(s.skip(8 * k)));
    assert(pow2i(8) == 256) by {
        reveal_with_fuel(pow2i, 9);
    }
    if k == 0 {
        assert(s.skip(0) =~= s);
        if s.len() < 8 {
            assert(chunk8(s) =~= pad8(s));
            lemma_bits_val_bound(pad8(s));
        } else {
            assert(chunk8(s) =~= s.take(8));
            lemma_bits_val_bound(s.take(8));
        }
    } else {
        lemma_pack_bits_index(s.skip(8), k - 1);
        assert(s.skip(8).skip(8 * (k - 1)) =~= s.skip(8 * k));
        lemma_pack_bits_len(s.skip(8));
    }
}

} // verus!
