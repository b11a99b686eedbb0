//! Lossless conversion between a byte sequence and an ordered bit sequence
//! (most significant bit first within each byte), and back.

use vstd::prelude::*;
use vstd::arithmetic::power2::{pow2, lemma_pow2_unfold, lemma_pow2_adds, lemma_pow2_pos, lemma2_to64};
use vstd::arithmetic::div_mod::lemma_div_denominator;

verus! {

/// Numeric weight of a single bit.
pub open spec fn bit_val(b: bool) -> nat {
    if b {
        1
    } else {
        0
    }
}

/// Unsigned value of a bit sequence read most-significant-bit first.
pub open spec fn value_of_bits(bits: Seq<bool>) -> nat
    decreases bits.len(),
{
    if bits.len() == 0 {
        0
    } else {
        2 * value_of_bits(bits.drop_last()) + bit_val(bits.last())
    }
}

/// The low `n` bits of `v`, most significant first.
pub open spec fn bits_of_value(v: nat, n: nat) -> Seq<bool>
    decreases n,
{
    if n == 0 {
        Seq::empty()
    } else {
        bits_of_value(v / 2, (n - 1) as nat).push(v % 2 == 1)
    }
}

/// The bits of a byte sequence, 8 bits per byte, MSB first.
pub open spec fn bits_of_bytes(bytes: Seq<u8>) -> Seq<bool>
    decreases bytes.len(),
{
    if bytes.len() == 0 {
        Seq::empty()
    } else {
        bits_of_value(bytes[0] as nat, 8) + bits_of_bytes(bytes.skip(1))
    }
}

/// Packs up to 8 bits into one byte, MSB first; missing low-order bits
/// become zero padding.
pub open spec fn packed_byte(chunk: Seq<bool>) -> u8
    recommends
        chunk.len() <= 8,
{
    (value_of_bits(chunk) * pow2((8 - chunk.len()) as nat)) as u8
}

/// Groups a bit sequence into bytes of 8, MSB first, zero-padding the final
/// incomplete byte.
pub open spec fn bytes_of_bits(bits: Seq<bool>) -> Seq<u8>
    decreases bits.len(),
{
    if bits.len() == 0 {
        Seq::empty()
    } else if bits.len() <= 8 {
        seq![packed_byte(bits)]
    } else {
        seq![packed_byte(bits.take(8))] + bytes_of_bits(bits.skip(8))
    }
}

pub proof fn lemma_value_of_bits_push(s: Seq<bool>, b: bool)
    ensures
        value_of_bits(s.push(b)) == 2 * value_of_bits(s) + bit_val(b),
{
    assert(s.push(b).drop_last() =~= s);
    assert(s.push(b).last() == b);
}

pub proof fn lemma_value_of_bits_bound(s: Seq<bool>)
    ensures
        value_of_bits(s) < pow2(s.len()),
    decreases s.len(),
{
    if s.len() == 0 {
        lemma2_to64();
    } else {
        lemma_value_of_bits_bound(s.drop_last());
        lemma_pow2_unfold(s.len());
    }
}

pub proof fn lemma_bits_of_value_len(v: nat, n: nat)
    ensures
        bits_of_value(v, n).len() == n,
    decreases n,
{
    if n > 0 {
        lemma_bits_of_value_len(v / 2, (n - 1) as nat);
    }
}

/// Reading the bits of a value back as a value is the identity, as long as
/// the value fits in the given number of bits.
pub proof fn lemma_value_of_bits_of_value(v: nat, n: nat)
    requires
        v < pow2(n),
    ensures
        value_of_bits(bits_of_value(v, n)) == v,
    decreases n,
{
    if n == 0 {
        lemma2_to64();
    } else {
        lemma_pow2_unfold(n);
        lemma_value_of_bits_of_value(v / 2, (n - 1) as nat);
        lemma_value_of_bits_push(bits_of_value(v / 2, (n - 1) as nat), v % 2 == 1);
    }
}

/// Rebuilding a bit sequence from its value is the identity.
pub proof fn lemma_bits_of_value_of_bits(s: Seq<bool>)
    ensures
        bits_of_value(value_of_bits(s), s.len()) == s,
    decreases s.len(),
{
    if s.len() > 0 {
        let v = value_of_bits(s);
        lemma_bits_of_value_of_bits(s.drop_last());
        assert(v == 2 * value_of_bits(s.drop_last()) + bit_val(s.last()));
        assert(v / 2 == value_of_bits(s.drop_last()));
        assert((v % 2 == 1) == s.last());
        lemma_bits_of_value_len(v / 2, (s.len() - 1) as nat);
        assert(bits_of_value(v, s.len()) =~= s);
    }
}

/// Appending `p` zero bits multiplies the value by 2^p.
pub proof fn lemma_value_append_zeros(s: Seq<bool>, p: nat)
    ensures
        value_of_bits(s + Seq::new(p, |i: int| false)) == value_of_bits(s) * pow2(p),
    decreases p,
{
    if p == 0 {
        lemma2_to64();
        assert(s + Seq::new(0, |i: int| false) =~= s);
    } else {
        lemma_value_append_zeros(s, (p - 1) as nat);
        let shorter = s + Seq::new((p - 1) as nat, |i: int| false);
        assert(s + Seq::new(p, |i: int| false) =~= shorter.push(false));
        lemma_value_of_bits_push(shorter, false);
        lemma_pow2_unfold(p);
        assert(2 * (value_of_bits(s) * pow2((p - 1) as nat)) == value_of_bits(s) * (2 * pow2(
            (p - 1) as nat,
        ))) by (nonlinear_arith);
    }
}

pub proof fn lemma_bits_of_bytes_len(bytes: Seq<u8>)
    ensures
        bits_of_bytes(bytes).len() == 8 * bytes.len(),
    decreases bytes.len(),
{
    if bytes.len() > 0 {
        lemma_bits_of_value_len(bytes[0] as nat, 8);
        lemma_bits_of_bytes_len(bytes.skip(1));
    }
}

/// Appending one byte appends its 8 bits.
pub proof fn lemma_bits_of_bytes_push(bytes: Seq<u8>, x: u8)
    ensures
        bits_of_bytes(bytes.push(x)) == bits_of_bytes(bytes) + bits_of_value(x as nat, 8),
    decreases bytes.len(),
{
    if bytes.len() == 0 {
        assert(bytes.push(x).skip(1) =~= Seq::<u8>::empty());
        assert(bytes.push(x)[0] == x);
        lemma_bits_of_value_len(x as nat, 8);
        assert(bits_of_bytes(Seq::<u8>::empty()) == Seq::<bool>::empty());
        assert(bits_of_bytes(bytes.push(x)) == bits_of_value(x as nat, 8) + bits_of_bytes(
            Seq::<u8>::empty(),
        ));
        assert(bits_of_bytes(bytes.push(x)) =~= bits_of_value(x as nat, 8));
        assert(bits_of_bytes(bytes) + bits_of_value(x as nat, 8) =~= bits_of_value(x as nat, 8));
    } else {
        assert(bytes.push(x).skip(1) =~= bytes.skip(1).push(x));
        lemma_bits_of_bytes_push(bytes.skip(1), x);
        assert(bits_of_bytes(bytes.push(x)) =~= bits_of_bytes(bytes) + bits_of_value(
            x as nat,
            8,
        ));
    }
}

pub proof fn lemma_bytes_of_bits_len(bits: Seq<bool>)
    ensures
        bytes_of_bits(bits).len() == (bits.len() + 7) / 8,
    decreases bits.len(),
{
    if bits.len() > 8 {
        lemma_bytes_of_bits_len(bits.skip(8));
    }
}

/// Splitting a bit sequence at a byte boundary splits its byte image.
pub proof fn lemma_bytes_of_bits_split(bits: Seq<bool>, k: nat)
    requires
        8 * k <= bits.len(),
    ensures
        bytes_of_bits(bits) == bytes_of_bits(bits.take(8 * k as int)) + bytes_of_bits(
            bits.skip(8 * k as int),
        ),
    decreases k,
{
    if k == 0 {
        assert(bits.take(0) =~= Seq::<bool>::empty());
        assert(bits.skip(0) =~= bits);
        assert(bytes_of_bits(bits) =~= bytes_of_bits(bits.take(0)) + bytes_of_bits(bits.skip(0)));
    } else {
        let rest = bits.skip(8);
        lemma_bytes_of_bits_split(rest, (k - 1) as nat);
        assert(rest.take(8 * (k - 1)) =~= bits.take(8 * k as int).skip(8));
        assert(rest.skip(8 * (k - 1)) =~= bits.skip(8 * k as int));
        assert(bits.take(8 * k as int).take(8) =~= bits.take(8));
        assert(bits.len() > 8 ==> bytes_of_bits(bits) == seq![packed_byte(bits.take(8))]
            + bytes_of_bits(rest));
        if bits.len() == 8 {
            assert(bits.take(8) =~= bits);
            assert(rest =~= Seq::<bool>::empty());
            assert(bits.take(8 * k as int) =~= bits);
            assert(bytes_of_bits(bits) =~= bytes_of_bits(bits.take(8 * k as int)) + bytes_of_bits(
                bits.skip(8 * k as int),
            ));
        } else {
            if bits.take(8 * k as int).len() <= 8 {
                assert(k == 1);
                assert(bits.take(8 * k as int) =~= bits.take(8));
                assert(bytes_of_bits(bits.take(8 * k as int)) =~= seq![
                    packed_byte(bits.take(8)),
                ]);
            } else {
                assert(bytes_of_bits(bits.take(8 * k as int)) == seq![packed_byte(bits.take(8))]
                    + bytes_of_bits(bits.take(8 * k as int).skip(8)));
            }
            assert(bytes_of_bits(bits) =~= bytes_of_bits(bits.take(8 * k as int)) + bytes_of_bits(
                bits.skip(8 * k as int),
            ));
        }
    }
}

/// Packing the bits of a byte sequence back into bytes is the identity:
/// the byte packer and the bit unpacker are inverses.
pub proof fn lemma_bytes_bits_roundtrip(bytes: Seq<u8>)
    ensures
        bytes_of_bits(bits_of_bytes(bytes)) == bytes,
    decreases bytes.len(),
{
    if bytes.len() > 0 {
        let hd = bits_of_value(bytes[0] as nat, 8);
        let bits = bits_of_bytes(bytes);
        lemma_bits_of_value_len(bytes[0] as nat, 8);
        lemma_bits_of_bytes_len(bytes.skip(1));
        lemma2_to64();
        lemma_value_of_bits_of_value(bytes[0] as nat, 8);
        assert(bits.take(8) =~= hd);
        assert(bits.skip(8) =~= bits_of_bytes(bytes.skip(1)));
        assert(packed_byte(hd) == (value_of_bits(hd) * pow2(0)) as u8);
        assert(packed_byte(hd) == bytes[0]);
        lemma_bytes_bits_roundtrip(bytes.skip(1));
        if bytes.len() == 1 {
            assert(bits.len() == 8);
            assert(bits =~= hd);
            assert(bytes_of_bits(bits) =~= seq![packed_byte(bits)]);
            assert(bytes_of_bits(bits) =~= bytes);
        } else {
            assert(bits.len() > 8);
            assert(bytes_of_bits(bits) =~= bytes);
        }
    }
}

/// Appends the low `n` bits of `v` to `bits`, MSB first.
pub fn push_value_bits(bits: &mut Vec<bool>, v: u32, n: u8) -> (r: ())
    requires
        n <= 16,
    ensures
        final(bits)@ == old(bits)@ + bits_of_value(v as nat, n as nat),
{
    let ghost prev = bits@;
    // d runs down through 2^n, 2^(n-1), ..., 2: bit i of the window
    // (MSB first) is (v / 2^(n - 1 - i)) % 2.
    let mut d: u32 = 1;
    let mut t: u8 = 0;
    proof {
        lemma2_to64();
    }
    while t < n
        invariant
            t <= n,
            n <= 16,
            d as nat == pow2(t as nat),
        decreases n - t,
    {
        proof {
            lemma_pow2_unfold(t as nat + 1);
            vstd::arithmetic::power2::lemma_pow2_strictly_increases(t as nat + 1, 32);
            lemma2_to64();
            vstd::arithmetic::power2::lemma2_to64_rest();
        }
        d = 2 * d;
        t = t + 1;
    }
    let mut i: u8 = 0;
    proof {
        assert(bits_of_value(v as nat / pow2(n as nat), 0) =~= Seq::<bool>::empty());
        assert(prev + Seq::<bool>::empty() =~= prev);
    }
    while i < n
        invariant
            i <= n,
            n <= 16,
            d as nat == pow2((n - i) as nat),
            bits@ == prev + bits_of_value(v as nat / pow2((n - i) as nat), i as nat),
        decreases n - i,
    {
        proof {
            lemma_pow2_pos((n - i - 1) as nat);
            lemma_pow2_unfold((n - i) as nat);
        }
        let d2 = d / 2;
        let bit = (v / d2) % 2 == 1;
        proof {
            let w = v as nat / pow2((n - i - 1) as nat);
            assert(d2 as nat == pow2((n - i - 1) as nat));
            assert((v / d2) as nat == w);
            lemma_div_denominator(v as int, pow2((n - i - 1) as nat) as int, 2);
            assert(w / 2 == v as nat / pow2((n - i) as nat));
            assert(bits_of_value(w, i as nat + 1) == bits_of_value(w / 2, i as nat).push(
                w % 2 == 1,
            ));
            assert((prev + bits_of_value(w / 2, i as nat)).push(bit) =~= prev + bits_of_value(
                w,
                i as nat + 1,
            ));
        }
        bits.push(bit);
        d = d2;
        i = i + 1;
    }
    proof {
        lemma2_to64();
        assert(v as nat / pow2(0) == v as nat);
    }
}

/// Emits the 8 bits of each byte, MSB first.
pub fn bytes_to_bitstream(bytes: &Vec<u8>) -> (bits: Vec<bool>)
    ensures
        bits@ == bits_of_bytes(bytes@),
        bits@.len() == 8 * bytes@.len(),
{
    let mut bits: Vec<bool> = Vec::new();
    let mut j: usize = 0;
    proof {
        assert(bytes@.take(0) =~= Seq::<u8>::empty());
        lemma_bits_of_bytes_len(bytes@);
    }
    while j < bytes.len()
        invariant
            j <= bytes@.len(),
            bits@ == bits_of_bytes(bytes@.take(j as int)),
            bits@.len() == 8 * j,
        decreases bytes@.len() - j,
    {
        let x = bytes[j];
        let ghost prev = bits@;
        let mut i: usize = 0;
        // The divisor runs down through 256, 128, ..., 2: bit i of the byte
        // (MSB first) is (x / 2^(7 - i)) % 2.
        let mut d: u32 = 256;
        proof {
            lemma2_to64();
            assert(bits_of_value(x as nat / pow2(8), 0) =~= Seq::<bool>::empty());
        }
        while i < 8
            invariant
                i <= 8,
                d as nat == pow2((8 - i) as nat),
                bits@ == prev + bits_of_value(x as nat / pow2((8 - i) as nat), i as nat),
                bits@.len() == prev.len() + i,
            decreases 8 - i,
        {
            proof {
                lemma_pow2_pos((7 - i) as nat);
                lemma_pow2_unfold((8 - i) as nat);
                assert(d as nat == 2 * pow2((7 - i) as nat));
            }
            let d2 = d / 2;
            let bit = ((x as u32) / d2) % 2 == 1;
            proof {
                let v = x as nat / pow2((7 - i) as nat);
                assert(d2 as nat == pow2((7 - i) as nat));
                assert((x as u32 / d2) as nat == v);
                lemma_div_denominator(x as int, pow2((7 - i) as nat) as int, 2);
                assert(v / 2 == x as nat / pow2((8 - i) as nat));
                assert(bits_of_value(v, i as nat + 1) == bits_of_value(v / 2, i as nat).push(
                    v % 2 == 1,
                ));
                assert((prev + bits_of_value(v / 2, i as nat)).push(bit) =~= prev + bits_of_value(
                    v,
                    i as nat + 1,
                ));
            }
            bits.push(bit);
            d = d2;
            i = i + 1;
        }
        proof {
            lemma2_to64();
            assert(x as nat / pow2(0) == x as nat);
            assert(bytes@.take(j as int + 1) =~= bytes@.take(j as int).push(x));
            lemma_bits_of_bytes_push(bytes@.take(j as int), x);
        }
        j = j + 1;
    }
    proof {
        assert(bytes@.take(bytes@.len() as int) =~= bytes@);
    }
    bits
}

/// Groups bits into bytes of 8, MSB first, zero-padding the final incomplete
/// byte with low-order zeros.
pub fn bitstream_to_bytes(bits: Vec<bool>) -> (bytes: Vec<u8>)
    ensures
        bytes@ == bytes_of_bits(bits@),
        bytes@.len() == (bits@.len() + 7) / 8,
{
    let mut bytes: Vec<u8> = Vec::new();
    let n = bits.len();
    let mut j: usize = 0;
    proof {
        assert(bits@.take(0) =~= Seq::<bool>::empty());
    }
    while n - j >= 8
        invariant
            j <= n,
            j % 8 == 0,
            n == bits@.len(),
            bytes@ == bytes_of_bits(bits@.take(j as int)),
            bytes@.len() * 8 == j,
        decreases n - j,
    {
        let ghost chunk = bits@.subrange(j as int, j as int + 8);
        let mut byte: u8 = 0;
        let mut i: usize = 0;
        proof {
            assert(chunk.take(0) =~= Seq::<bool>::empty());
        }
        while i < 8
            invariant
                i <= 8,
                j + 8 <= n,
                n == bits@.len(),
                chunk == bits@.subrange(j as int, j as int + 8),
                byte as nat == value_of_bits(chunk.take(i as int)),
            decreases 8 - i,
        {
            proof {
                lemma_value_of_bits_bound(chunk.take(i as int));
                lemma2_to64();
                vstd::arithmetic::power2::lemma_pow2_strictly_increases(i as nat, 8);
            }
            let b = bits[j + i];
            proof {
                assert(chunk.take(i as int + 1) =~= chunk.take(i as int).push(chunk[i as int]));
                lemma_value_of_bits_push(chunk.take(i as int), chunk[i as int]);
                assert(chunk[i as int] == bits@[j as int + i]);
            }
            byte = 2 * byte + if b {
                1
            } else {
                0
            };
            i = i + 1;
        }
        proof {
            assert(i == 8);
            assert(byte as nat == value_of_bits(chunk.take(8)));
            assert(chunk.take(8) =~= chunk);
            assert(byte as nat == value_of_bits(chunk));
            lemma2_to64();
            assert(pow2(0) == 1);
            lemma_value_of_bits_bound(chunk);
            assert(value_of_bits(chunk) * pow2(0) == byte as nat);
            assert(packed_byte(chunk) == (value_of_bits(chunk) * pow2(0)) as u8);
            assert(packed_byte(chunk) == byte);
            lemma_bytes_of_bits_split(bits@.take(j as int + 8), (j / 8) as nat);
            assert(bits@.take(j as int + 8).take(j as int) =~= bits@.take(j as int));
            assert(bits@.take(j as int + 8).skip(j as int) =~= chunk);
            assert(bytes_of_bits(chunk) =~= seq![byte]);
            assert(bytes@.push(byte) =~= bytes_of_bits(bits@.take(j as int + 8)));
        }
        bytes.push(byte);
        j = j + 8;
    }
    if j < n {
        // Final incomplete chunk: fewer than 8 bits, padded with low zeros.
        let ghost chunk = bits@.skip(j as int);
        let p = n - j;
        let mut byte: u8 = 0;
        let mut i: usize = 0;
        proof {
            assert(chunk.take(0) =~= Seq::<bool>::empty());
        }
        while i < p
            invariant
                i <= p,
                p < 8,
                j + p == n,
                n == bits@.len(),
                chunk == bits@.skip(j as int),
                byte as nat == value_of_bits(chunk.take(i as int)),
            decreases p - i,
        {
            proof {
                lemma_value_of_bits_bound(chunk.take(i as int));
                lemma2_to64();
                vstd::arithmetic::power2::lemma_pow2_strictly_increases(i as nat, 7);
            }
            let b = bits[j + i];
            proof {
                assert(chunk.take(i as int + 1) =~= chunk.take(i as int).push(chunk[i as int]));
                lemma_value_of_bits_push(chunk.take(i as int), chunk[i as int]);
                assert(chunk[i as int] == bits@[j as int + i]);
            }
            byte = 2 * byte + if b {
                1
            } else {
                0
            };
            i = i + 1;
        }
        // Shift the value into the high bits of the byte.
        let mut t: usize = p;
        proof {
            assert(chunk.take(p as int) =~= chunk);
            lemma2_to64();
            assert(byte as nat * pow2((p - p) as nat) == byte as nat);
        }
        while t < 8
            invariant
                p <= t <= 8,
                p < 8,
                chunk == bits@.skip(j as int),
                chunk.len() == p,
                byte as nat == value_of_bits(chunk) * pow2((t - p) as nat),
            decreases 8 - t,
        {
            proof {
                lemma_value_of_bits_bound(chunk);
                lemma_pow2_adds(p as nat, (t - p) as nat + 1);
                lemma_pow2_adds((t - p) as nat, 1);
                lemma2_to64();
                vstd::arithmetic::power2::lemma_pow2_strictly_increases(p as nat, 8);
                assert(value_of_bits(chunk) * pow2((t + 1 - p) as nat) < pow2(p as nat) * pow2(
                    (t + 1 - p) as nat,
                )) by (nonlinear_arith)
                    requires
                        value_of_bits(chunk) < pow2(p as nat),
                        pow2((t + 1 - p) as nat) > 0,
                ;
                vstd::arithmetic::power2::lemma_pow2_adds(p as nat, (t + 1 - p) as nat);
                assert(t + 1 <= 8);
                if t + 1 < 8 {
                    vstd::arithmetic::power2::lemma_pow2_strictly_increases(
                        (p + (t + 1 - p)) as nat,
                        8,
                    );
                }
                assert(pow2((p + (t + 1 - p)) as nat) <= 256);
                assert(2 * (byte as nat) == value_of_bits(chunk) * pow2((t + 1 - p) as nat))
                    by (nonlinear_arith)
                    requires
                        byte as nat == value_of_bits(chunk) * pow2((t - p) as nat),
                        pow2((t + 1 - p) as nat) == pow2((t - p) as nat) * 2,
                ;
            }
            byte = 2 * byte;
            t = t + 1;
        }
        proof {
            assert(packed_byte(chunk) == byte);
            lemma_bytes_of_bits_split(bits@, (j / 8) as nat);
            assert(bits@.take(j as int) =~= bits@.take(j as int));
            assert(bytes_of_bits(chunk) =~= seq![byte]);
            assert(bytes@.push(byte) =~= bytes_of_bits(bits@));
        }
        bytes.push(byte);
    } else {
        proof {
            assert(bits@.take(j as int) =~= bits@);
        }
    }
    proof {
        lemma_bytes_of_bits_len(bits@);
    }
    bytes
}

} // verus!
