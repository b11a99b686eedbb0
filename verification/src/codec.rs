//! Walk encoder and decoder.
//!
//! The encoder hides payload bits as small deviations from each visited
//! cell's baseline: the data channel carries a chunk of payload bits, the
//! two step channels carry the signed offsets to the next cell, so the walk
//! is self-describing. A cell whose step-channel diffs are both zero is the
//! terminal sentinel. The decoder replays the walk from the image alone.

use vstd::prelude::*;
use vstd::arithmetic::power2::pow2;
use crate::bits::{
    bits_of_bytes, bits_of_value, bytes_of_bits, value_of_bits, bytes_to_bitstream,
    bitstream_to_bytes, push_value_bits, lemma_bytes_of_bits_len, lemma_value_append_zeros,
    lemma_bits_of_value_of_bits, lemma_value_of_bits_bound,
};
use crate::grid::{
    grid_wf, valid_coord, valid_dims, baseline_at, diff_at, with_channels, step_coord,
    lemma_pixels_match, lemma_baseline_bounds, lemma_byte_index_bounds, ImageBytes, get_baseline,
    difference, wrapping_coords,
};
use crate::occupancy::{
    occupancy_wf, footprint_free, claim_footprint, claims_monotone, check_diff_validity,
};
use crate::rand::{advanced_state, mixed_output, RandU64};

verus! {

/// Errors an encode pass can report.
#[derive(Clone, Copy, Debug, PartialEq, Eq, Structural)]
pub enum EncodeError {
    /// The carrier is not a well-formed 3-channel grid of at least 2 by 2
    /// cells, or the starting coordinate lies outside it.
    ImageTooSmall,
    /// The occupancy search exhausted its retry bound before every payload
    /// bit was placed: the payload is too large for this carrier.
    CapacityExceeded,
}

/// Errors a decode pass can report.
#[derive(Clone, Copy, Debug, PartialEq, Eq, Structural)]
pub enum DecodeError {
    /// The carrier is not a well-formed 3-channel grid of at least 2 by 2
    /// cells, or the starting coordinate lies outside it.
    ImageTooSmall,
    /// No sentinel cell was reached within one full grid of steps.
    NoTerminator,
}

/// The data value of one cell: the packed chunk, aligned to the high end of
/// the `b`-bit window (a short final chunk is padded with low zero bits).
pub open spec fn chunk_value(chunk: Seq<bool>, b: u8) -> nat {
    value_of_bits(chunk) * pow2((b - chunk.len()) as nat)
}

/// The data channel after embedding `v`: baseline plus `v`, or baseline
/// minus `v` where plus would overflow the channel.
pub open spec fn embedded_channel(base: int, v: nat) -> int {
    if base + v > 255 {
        base - v
    } else {
        base + v
    }
}

/// A step channel after applying offset `off`: baseline plus the offset,
/// or baseline minus it (with the sign of the recorded offset flipped)
/// where plus would overflow. Returns the channel value and the signed
/// offset actually recorded.
pub open spec fn offset_channel(base: int, off: nat) -> (int, int) {
    if base + off > 255 {
        (base - off, -(off as int))
    } else {
        (base + off, off as int)
    }
}

/// The step offset drawn from one random word: the word masked to `b`
/// bits, floored at 1 so the sentinel value 0 cannot occur on a live cell.
pub open spec fn offset_of_word(r: u64, b: u8) -> nat {
    let m = (r as u8) as nat % pow2(b as nat);
    if m == 0 {
        1
    } else {
        m
    }
}

/// The outcome of one accepted occupancy probe.
pub struct StepPick {
    /// The PRNG counter after the draws made.
    pub rng: u64,
    /// The two step-channel values to write.
    pub px_g: int,
    pub px_b: int,
    /// The signed offsets actually recorded.
    pub off_g: int,
    pub off_b: int,
    /// The next coordinate of the walk.
    pub next: (usize, usize),
    /// The occupancy grid with the next cell's footprint claimed.
    pub claimed: Seq<bool>,
}

/// The first accepted step within `tries` probes, drawing two PRNG words
/// per probe; None when every probe hits a claimed footprint.
pub open spec fn find_step(
    rng: u64,
    base_g: int,
    base_b: int,
    blocked: Seq<bool>,
    pos: (usize, usize),
    dims: (usize, usize),
    b: u8,
    tries: nat,
) -> Option<StepPick>
    decreases tries,
{
    if tries == 0 {
        Option::None
    } else {
        let s1 = advanced_state(rng);
        let s2 = advanced_state(s1);
        let og = offset_of_word(mixed_output(s1), b);
        let ob = offset_of_word(mixed_output(s2), b);
        let cg = offset_channel(base_g, og);
        let cb = offset_channel(base_b, ob);
        let nxt = step_coord(pos, dims, (cg.1, cb.1));
        if footprint_free(blocked, dims, nxt) {
            Option::Some(
                StepPick {
                    rng: s2,
                    px_g: cg.0,
                    px_b: cb.0,
                    off_g: cg.1,
                    off_b: cb.1,
                    next: nxt,
                    claimed: claim_footprint(blocked, dims, nxt),
                },
            )
        } else {
            find_step(s2, base_g, base_b, blocked, pos, dims, b, (tries - 1) as nat)
        }
    }
}

/// The carrier and final walk position after embedding all of `bits`, or
/// None when the occupancy search fails for some cell.
pub open spec fn encode_walk(
    s: Seq<u8>,
    blocked: Seq<bool>,
    rng: u64,
    pos: (usize, usize),
    bits: Seq<bool>,
    dims: (usize, usize),
    b: u8,
    tries: nat,
) -> Option<(Seq<u8>, (usize, usize))>
    decreases bits.len(),
{
    if bits.len() == 0 {
        Option::Some((s, pos))
    } else {
        let k = if 1 <= b as int && b as int <= bits.len() {
            b as int
        } else {
            bits.len() as int
        };
        let chunk = bits.take(k);
        let v = chunk_value(chunk, b);
        let d0 = embedded_channel(baseline_at(s, dims, pos, 0), v);
        match find_step(
            rng,
            baseline_at(s, dims, pos, 1),
            baseline_at(s, dims, pos, 2),
            blocked,
            pos,
            dims,
            b,
            tries,
        ) {
            Option::None => Option::None,
            Option::Some(pick) => {
                let s2 = with_channels(
                    s,
                    dims.0,
                    pos,
                    d0 as u8,
                    pick.px_g as u8,
                    pick.px_b as u8,
                );
                encode_walk(s2, pick.claimed, pick.rng, pick.next, bits.skip(k), dims, b, tries)
            },
        }
    }
}

/// The carrier after writing the terminal cell: all three channels equal to
/// the cell's own baseline, so its diff is (0, 0, 0).
pub open spec fn with_terminal(s: Seq<u8>, dims: (usize, usize), pos: (usize, usize)) -> Seq<u8> {
    with_channels(
        s,
        dims.0,
        pos,
        baseline_at(s, dims, pos, 0) as u8,
        baseline_at(s, dims, pos, 1) as u8,
        baseline_at(s, dims, pos, 2) as u8,
    )
}

/// Wraps a finished walk with its terminal cell.
pub open spec fn walk_finish(w: Option<(Seq<u8>, (usize, usize))>, dims: (usize, usize)) -> Option<
    Seq<u8>,
> {
    match w {
        Option::None => Option::None,
        Option::Some((s2, end)) => Option::Some(with_terminal(s2, dims, end)),
    }
}

/// The whole encode pass over an initial carrier: the carrier with the
/// payload bits embedded along the walk and the sentinel written at its
/// end, or None when the carrier's capacity is exceeded.
pub open spec fn encode_spec(
    s: Seq<u8>,
    dims: (usize, usize),
    start: (usize, usize),
    b: u8,
    tries: nat,
    payload: Seq<u8>,
    seed: u64,
) -> Option<Seq<u8>> {
    walk_finish(
        encode_walk(
            s,
            Seq::new((dims.0 * dims.1) as nat, |i: int| false),
            seed,
            start,
            bits_of_bytes(payload),
            dims,
            b,
            tries,
        ),
        dims,
    )
}

/// One decode walk from `pos`: collects `b` bits per cell from the data
/// channel's diff magnitude and follows the step-channel diffs, until a
/// cell with both step diffs zero (the sentinel) is reached; None when the
/// sentinel is not reached within `fuel` steps.
pub open spec fn decode_walk(
    s: Seq<u8>,
    dims: (usize, usize),
    pos: (usize, usize),
    b: u8,
    fuel: nat,
) -> Option<Seq<bool>>
    decreases fuel,
{
    let d1 = diff_at(s, dims, pos, 1);
    let d2 = diff_at(s, dims, pos, 2);
    if d1 == 0 && d2 == 0 {
        Option::Some(Seq::empty())
    } else if fuel == 0 {
        Option::None
    } else {
        let d0 = diff_at(s, dims, pos, 0);
        let mag = if d0 < 0 {
            -d0
        } else {
            d0
        };
        let nxt = step_coord(pos, dims, (d1, d2));
        match decode_walk(s, dims, nxt, b, (fuel - 1) as nat) {
            Option::None => Option::None,
            Option::Some(rest) => Option::Some(bits_of_value(mag as nat, b as nat) + rest),
        }
    }
}

/// A finished prefix of bits prepended to the rest of a walk.
pub open spec fn walk_extend(acc: Seq<bool>, w: Option<Seq<bool>>) -> Option<Seq<bool>> {
    match w {
        Option::None => Option::None,
        Option::Some(rest) => Option::Some(acc + rest),
    }
}

/// The payload bytes recovered from a decoded bit sequence: only whole
/// bytes count; trailing bits that stem from chunk padding are dropped.
pub open spec fn decoded_bytes(bits: Seq<bool>) -> Seq<u8> {
    bytes_of_bits(bits).take((bits.len() / 8) as int)
}

/// The carrier, its dimensions, and a starting coordinate form a valid
/// decode or encode target.
pub open spec fn carrier_ok(s: Seq<u8>, dims: (usize, usize), start: (usize, usize)) -> bool {
    grid_wf(s, dims) && valid_coord(start, dims)
}

/// Checks the carrier's shape; shared by the encoder and the decoder.
fn check_carrier(n: usize, dims: (usize, usize), start: (usize, usize)) -> (ok: bool)
    ensures
        ok <==> (valid_dims(dims) && n == 3 * dims.0 * dims.1 && valid_coord(start, dims)),
        ok ==> n / 3 == dims.0 * dims.1,
{
    if dims.0 < 2 || dims.1 < 2 || dims.0 > 0xFFFF_FFFF || dims.1 > 0xFFFF_FFFF || start.0
        >= dims.0 || start.1 >= dims.1 {
        return false;
    }
    if n % 3 != 0 {
        proof {
            if n == 3 * dims.0 * dims.1 {
                assert(3 * dims.0 * dims.1 == 3 * (dims.0 * dims.1)) by (nonlinear_arith);
                vstd::arithmetic::div_mod::lemma_mod_multiples_basic(
                    (dims.0 * dims.1) as int,
                    3,
                );
            }
        }
        return false;
    }
    let q = n / 3;
    let ok = q % dims.0 == 0 && q / dims.0 == dims.1;
    proof {
        vstd::arithmetic::div_mod::lemma_fundamental_div_mod(n as int, 3);
        assert(n == 3 * q);
        if ok {
            vstd::arithmetic::div_mod::lemma_fundamental_div_mod(q as int, dims.0 as int);
            assert(q == dims.0 * dims.1) by (nonlinear_arith)
                requires
                    q == dims.0 * (q as int / dims.0 as int) + q as int % dims.0 as int,
                    q as int % dims.0 as int == 0,
                    q as int / dims.0 as int == dims.1 as int,
            ;
            assert(n == 3 * dims.0 * dims.1) by (nonlinear_arith)
                requires
                    n == 3 * q,
                    q == dims.0 * dims.1,
            ;
        } else {
            if n == 3 * dims.0 * dims.1 {
                assert(3 * dims.0 * dims.1 == 3 * (dims.0 * dims.1)) by (nonlinear_arith);
                assert(q == dims.0 * dims.1) by {
                    vstd::arithmetic::div_mod::lemma_div_multiples_vanish(
                        (dims.0 * dims.1) as int,
                        3,
                    );
                }
                assert(dims.0 * dims.1 == dims.1 * dims.0) by (nonlinear_arith);
                vstd::arithmetic::div_mod::lemma_mod_multiples_basic(
                    dims.1 as int,
                    dims.0 as int,
                );
                assert(q % dims.0 == 0);
                vstd::arithmetic::div_mod::lemma_div_multiples_vanish(
                    dims.1 as int,
                    dims.0 as int,
                );
                assert(q / dims.0 == dims.1);
            }
        }
    }
    ok
}

/// Draws masked step offsets from the PRNG until the occupancy tracker
/// accepts the step target's footprint (claiming it), giving up after
/// `max_tries` probes. Mirrors `find_step` exactly.
fn find_valid_step(
    base_g: u8,
    base_b: u8,
    pos: (usize, usize),
    dims: (usize, usize),
    bits_per_px: u8,
    max_tries: u32,
    xs: usize,
    rng: &mut RandU64,
    blocked: &mut Vec<bool>,
) -> (r: Option<(u8, u8, i32, i32, (usize, usize))>)
    requires
        valid_dims(dims),
        valid_coord(pos, dims),
        xs == dims.0,
        occupancy_wf(old(blocked)@, dims),
        1 <= bits_per_px <= 7,
    ensures
        ({
            let w = find_step(
                old(rng).state(),
                base_g as int,
                base_b as int,
                old(blocked)@,
                pos,
                dims,
                bits_per_px,
                max_tries as nat,
            );
            match w {
                Option::None => r is None && final(blocked)@ == old(blocked)@,
                Option::Some(pick) => {
                    &&& r matches Option::Some((pg, pb, og, ob, nxt))
                    &&& pg as int == pick.px_g
                    &&& pb as int == pick.px_b
                    &&& og as int == pick.off_g
                    &&& ob as int == pick.off_b
                    &&& nxt == pick.next
                    &&& final(rng).state() == pick.rng
                    &&& final(blocked)@ == pick.claimed
                    &&& valid_coord(nxt, dims)
                },
            }
        }),
        occupancy_wf(final(blocked)@, dims),
        claims_monotone(old(blocked)@, final(blocked)@),
{
    let mut pw: u8 = 1;
    let mut t: u8 = 0;
    proof {
        vstd::arithmetic::power2::lemma2_to64();
    }
    while t < bits_per_px
        invariant
            t <= bits_per_px,
            bits_per_px <= 7,
            pw as nat == pow2(t as nat),
        decreases bits_per_px - t,
    {
        proof {
            vstd::arithmetic::power2::lemma_pow2_unfold(t as nat + 1);
            vstd::arithmetic::power2::lemma_pow2_strictly_increases(t as nat + 1, 8);
            vstd::arithmetic::power2::lemma2_to64();
        }
        pw = 2 * pw;
        t = t + 1;
    }
    proof {
        if (bits_per_px as nat) < 7 {
            vstd::arithmetic::power2::lemma_pow2_strictly_increases(bits_per_px as nat, 7);
        }
        vstd::arithmetic::power2::lemma2_to64();
        vstd::arithmetic::power2::lemma_pow2_pos(bits_per_px as nat);
        assert(1 <= pw <= 128);
    }
    let ghost rng0 = rng.state();
    let ghost blocked0 = blocked@;
    let mut c: u32 = 0;
    while c < max_tries
        invariant
            valid_dims(dims),
            valid_coord(pos, dims),
            xs == dims.0,
            occupancy_wf(blocked@, dims),
            blocked@ == blocked0,
            blocked0 == old(blocked)@,
            rng0 == old(rng).state(),
            1 <= bits_per_px <= 7,
            pw as nat == pow2(bits_per_px as nat),
            1 <= pw <= 128,
            c <= max_tries,
            find_step(
                rng0,
                base_g as int,
                base_b as int,
                blocked0,
                pos,
                dims,
                bits_per_px,
                max_tries as nat,
            ) == find_step(
                rng.state(),
                base_g as int,
                base_b as int,
                blocked@,
                pos,
                dims,
                bits_per_px,
                (max_tries - c) as nat,
            ),
        decreases max_tries - c,
    {
        let ghost pre = rng.state();
        let r1 = rng.next();
        let ghost s1 = rng.state();
        let r2 = rng.next();
        let ghost s2 = rng.state();
        let m1 = (#[verifier::truncate] (r1 as u8)) % pw;
        let m2 = (#[verifier::truncate] (r2 as u8)) % pw;
        let og: u8 = if m1 == 0 {
            1
        } else {
            m1
        };
        let ob: u8 = if m2 == 0 {
            1
        } else {
            m2
        };
        proof {
            assert(og as nat == offset_of_word(mixed_output(s1), bits_per_px));
            assert(ob as nat == offset_of_word(mixed_output(s2), bits_per_px));
            assert(1 <= og <= 127);
            assert(1 <= ob <= 127);
        }
        let pg: u8;
        let sg: i32;
        if base_g as u32 + og as u32 > 255 {
            pg = base_g - og;
            sg = -(og as i32);
        } else {
            pg = base_g + og;
            sg = og as i32;
        }
        let pb: u8;
        let sb: i32;
        if base_b as u32 + ob as u32 > 255 {
            pb = base_b - ob;
            sb = -(ob as i32);
        } else {
            pb = base_b + ob;
            sb = ob as i32;
        }
        proof {
            assert(pg as int == offset_channel(base_g as int, og as nat).0);
            assert(sg as int == offset_channel(base_g as int, og as nat).1);
            assert(pb as int == offset_channel(base_b as int, ob as nat).0);
            assert(sb as int == offset_channel(base_b as int, ob as nat).1);
        }
        let ok = check_diff_validity(pos, dims, (sg, sb), xs, blocked);
        if ok {
            let nxt = wrapping_coords(pos, dims, (sg, sb));
            proof {
                let w = find_step(
                    pre,
                    base_g as int,
                    base_b as int,
                    blocked0,
                    pos,
                    dims,
                    bits_per_px,
                    (max_tries - c) as nat,
                );
                assert(w matches Option::Some(pick) && pick.rng == s2 && pick.px_g == pg as int
                    && pick.px_b == pb as int && pick.off_g == sg as int && pick.off_b
                    == sb as int && pick.next == nxt && pick.claimed == claim_footprint(
                    blocked0,
                    dims,
                    nxt,
                ));
            }
            return Option::Some((pg, pb, sg, sb, nxt));
        }
        proof {
            assert(find_step(
                pre,
                base_g as int,
                base_b as int,
                blocked0,
                pos,
                dims,
                bits_per_px,
                (max_tries - c) as nat,
            ) == find_step(
                s2,
                base_g as int,
                base_b as int,
                blocked0,
                pos,
                dims,
                bits_per_px,
                (max_tries - c - 1) as nat,
            ));
        }
        c = c + 1;
    }
    proof {
        assert(claims_monotone(old(blocked)@, blocked@));
    }
    Option::None
}

/// Packs the chunk of `k` payload bits starting at `i` into the high end
/// of the `bits_per_px`-bit data window, MSB first.
fn pack_chunk(bitstream: &Vec<bool>, i: usize, k: usize, bits_per_px: u8) -> (pv: u8)
    requires
        1 <= k,
        k <= bits_per_px as usize,
        bits_per_px <= 7,
        i + k <= bitstream@.len(),
    ensures
        pv as nat == chunk_value(bitstream@.subrange(i as int, (i + k) as int), bits_per_px),
        pv <= 127,
{
    let nlen = bitstream.len();
    let ghost chunk = bitstream@.subrange(i as int, (i + k) as int);
    let mut pv: u8 = 0;
    let mut j: usize = 0;
    proof {
        assert(chunk.take(0) =~= Seq::<bool>::empty());
        vstd::arithmetic::power2::lemma2_to64();
    }
    while j < k
        invariant
            j <= k,
            1 <= k <= 7,
            i + k <= bitstream@.len(),
            bitstream@.len() == nlen,
            chunk == bitstream@.subrange(i as int, (i + k) as int),
            pv as nat == value_of_bits(chunk.take(j as int)),
        decreases k - j,
    {
        proof {
            lemma_value_of_bits_bound(chunk.take(j as int));
            vstd::arithmetic::power2::lemma2_to64();
            vstd::arithmetic::power2::lemma_pow2_strictly_increases(j as nat, 7);
            assert(chunk.take(j as int + 1) =~= chunk.take(j as int).push(chunk[j as int]));
            crate::bits::lemma_value_of_bits_push(chunk.take(j as int), chunk[j as int]);
            assert(chunk[j as int] == bitstream@[i as int + j]);
        }
        let bit = bitstream[i + j];
        pv = 2 * pv + if bit {
            1
        } else {
            0
        };
        j = j + 1;
    }
    proof {
        assert(chunk.take(k as int) =~= chunk);
    }
    let mut t: usize = k;
    proof {
        vstd::arithmetic::power2::lemma2_to64();
        assert((k - k) as nat == 0);
        assert(pow2((k - k) as nat) == 1);
        assert(pv as nat == value_of_bits(chunk));
        assert(pv as nat * pow2((k - k) as nat) == pv as nat) by (nonlinear_arith)
            requires
                pow2((k - k) as nat) == 1,
        ;
    }
    while t < bits_per_px as usize
        invariant
            k <= t,
            t <= bits_per_px as usize,
            1 <= k <= 7,
            bits_per_px <= 7,
            chunk.len() == k,
            pv as nat == value_of_bits(chunk) * pow2((t - k) as nat),
        decreases bits_per_px as usize - t,
    {
        proof {
            lemma_value_of_bits_bound(chunk);
            vstd::arithmetic::power2::lemma2_to64();
            vstd::arithmetic::power2::lemma_pow2_adds(k as nat, (t + 1 - k) as nat);
            vstd::arithmetic::power2::lemma_pow2_adds((t - k) as nat, 1);
            vstd::arithmetic::power2::lemma_pow2_strictly_increases((t + 1) as nat, 8);
            vstd::arithmetic::power2::lemma_pow2_pos((t + 1 - k) as nat);
            assert(value_of_bits(chunk) * pow2((t + 1 - k) as nat) < pow2(k as nat) * pow2(
                (t + 1 - k) as nat,
            )) by (nonlinear_arith)
                requires
                    value_of_bits(chunk) < pow2(k as nat),
                    pow2((t + 1 - k) as nat) > 0,
            ;
            assert(2 * (pv as nat) == value_of_bits(chunk) * pow2((t + 1 - k) as nat))
                by (nonlinear_arith)
                requires
                    pv as nat == value_of_bits(chunk) * pow2((t - k) as nat),
                    pow2((t + 1 - k) as nat) == pow2((t - k) as nat) * 2,
            ;
        }
        pv = 2 * pv;
        t = t + 1;
    }
    proof {
        assert(pv as nat == chunk_value(chunk, bits_per_px));
        lemma_value_of_bits_bound(chunk);
        vstd::arithmetic::power2::lemma_pow2_adds(
            k as nat,
            (bits_per_px as nat - k as nat) as nat,
        );
        vstd::arithmetic::power2::lemma_pow2_pos((bits_per_px as nat - k as nat) as nat);
        assert((pv as nat) < pow2(k as nat) * pow2((bits_per_px as nat - k as nat) as nat))
            by (nonlinear_arith)
            requires
                pv as nat == value_of_bits(chunk) * pow2((bits_per_px as nat - k as nat) as nat),
                value_of_bits(chunk) < pow2(k as nat),
                pow2((bits_per_px as nat - k as nat) as nat) > 0,
        ;
        if (bits_per_px as nat) < 7 {
            vstd::arithmetic::power2::lemma_pow2_strictly_increases(bits_per_px as nat, 7);
        }
        vstd::arithmetic::power2::lemma2_to64();
        assert(pv <= 127);
    }
    pv
}

/// Embeds `payload` into the carrier image.
///
/// Walks the grid from `start`: each visited cell's data channel carries
/// the next `bits_per_px` payload bits as a deviation from the cell's
/// baseline, and its two step channels carry the signed offsets (drawn from
/// the stream seeded with `seed`, never zero) to the next cell. Claimed
/// footprints are never revisited; when no free footprint is found within
/// `max_tries` probes the pass fails with a capacity error (the carrier
/// may then hold a partial walk and should be discarded). After the last
/// payload bit a terminal cell is written whose channels equal its own
/// baseline.
///
/// Known risks of the walk design, kept as they are: the starting cell's
/// footprint is never claimed, so a long walk may later write into the
/// start's surroundings and corrupt the first cell's baseline; the cells a
/// jump of twice the offset passes over are not claimed either; and at one
/// bit per cell every offset is 1, so the purely diagonal walk can box
/// itself in after a few dozen cells however large the carrier is.
pub fn encode(
    img: &mut Vec<u8>,
    dims: (usize, usize),
    start: (usize, usize),
    bits_per_px: u8,
    max_tries: u32,
    payload: &Vec<u8>,
    seed: u64,
) -> (r: Result<(), EncodeError>)
    requires
        1 <= bits_per_px <= 7,
    ensures
        match r {
            Result::Ok(()) => carrier_ok(old(img)@, dims, start) && encode_spec(
                old(img)@,
                dims,
                start,
                bits_per_px,
                max_tries as nat,
                payload@,
                seed,
            ) == Option::Some(final(img)@),
            Result::Err(EncodeError::ImageTooSmall) => final(img)@ == old(img)@ && !carrier_ok(
                old(img)@,
                dims,
                start,
            ),
            Result::Err(EncodeError::CapacityExceeded) => carrier_ok(old(img)@, dims, start)
                && encode_spec(
                old(img)@,
                dims,
                start,
                bits_per_px,
                max_tries as nat,
                payload@,
                seed,
            ) is None && final(img)@.len() == old(img)@.len(),
        },
{
    let n = img.len();
    if !check_carrier(n, dims, start) {
        return Result::Err(EncodeError::ImageTooSmall);
    }
    let cells = n / 3;
    let xs = dims.0;
    let bitstream = bytes_to_bitstream(payload);
    let total = bitstream.len();
    let mut blocked: Vec<bool> = vec![false; cells];
    let mut rng = RandU64::new(Option::Some(seed));
    let mut cur = start;
    let mut i: usize = 0;
    let ghost bits0 = bitstream@;
    proof {
        assert(blocked@ =~= Seq::new((dims.0 * dims.1) as nat, |q: int| false));
        assert(bits0.skip(0) =~= bits0);
    }
    while i < total
        invariant
            grid_wf(img@, dims),
            img@.len() == old(img)@.len(),
            img@.len() <= usize::MAX,
            carrier_ok(old(img)@, dims, start),
            occupancy_wf(blocked@, dims),
            valid_coord(cur, dims),
            1 <= bits_per_px <= 7,
            xs == dims.0,
            cells == dims.0 * dims.1,
            total == bits0.len(),
            bits0 == bitstream@,
            i <= total,
            walk_finish(
                encode_walk(
                    img@,
                    blocked@,
                    rng.state(),
                    cur,
                    bits0.skip(i as int),
                    dims,
                    bits_per_px,
                    max_tries as nat,
                ),
                dims,
            ) == encode_spec(
                old(img)@,
                dims,
                start,
                bits_per_px,
                max_tries as nat,
                payload@,
                seed,
            ),
        decreases total - i,
    {
        let k: usize = if (bits_per_px as usize) <= total - i {
            bits_per_px as usize
        } else {
            total - i
        };
        let ghost chunk = bits0.subrange(i as int, (i + k) as int);
        let pv = pack_chunk(&bitstream, i, k, bits_per_px);
        let pxs = img.get_pixels(dims, cur, xs);
        let baseline = get_baseline(pxs);
        proof {
            lemma_pixels_match(img@, dims, cur, pxs);
            lemma_baseline_bounds(img@, dims, cur, 0);
            lemma_baseline_bounds(img@, dims, cur, 1);
            lemma_baseline_bounds(img@, dims, cur, 2);
        }
        let px_r: u8 = if baseline[0] as u32 + pv as u32 > 255 {
            baseline[0] - pv
        } else {
            baseline[0] + pv
        };
        proof {
            assert(px_r as int == embedded_channel(baseline_at(img@, dims, cur, 0), pv as nat));
        }
        let ghost img_pre = img@;
        let ghost blocked_pre = blocked@;
        let ghost rng_pre = rng.state();
        let picked = find_valid_step(
            baseline[1],
            baseline[2],
            cur,
            dims,
            bits_per_px,
            max_tries,
            xs,
            &mut rng,
            &mut blocked,
        );
        proof {
            let sbits = bits0.skip(i as int);
            assert(sbits.len() == total - i);
            assert(sbits.take(k as int) =~= chunk);
            assert(sbits.skip(k as int) =~= bits0.skip((i + k) as int));
        }
        match picked {
            Option::None => {
                proof {
                    let sbits = bits0.skip(i as int);
                    assert(encode_walk(
                        img_pre,
                        blocked_pre,
                        rng_pre,
                        cur,
                        sbits,
                        dims,
                        bits_per_px,
                        max_tries as nat,
                    ) is None);
                }
                return Result::Err(EncodeError::CapacityExceeded);
            },
            Option::Some((pg, pb, sg, sb, nxt)) => {
                proof {
                    lemma_byte_index_bounds(img@, dims, cur);
                }
                img.set_pixel([px_r, pg, pb], cur, xs);
                proof {
                    let sbits = bits0.skip(i as int);
                    let w = find_step(
                        rng_pre,
                        baseline_at(img_pre, dims, cur, 1),
                        baseline_at(img_pre, dims, cur, 2),
                        blocked_pre,
                        cur,
                        dims,
                        bits_per_px,
                        max_tries as nat,
                    );
                    assert(w matches Option::Some(pick) && pick.px_g == pg as int && pick.px_b
                        == pb as int && pick.next == nxt && pick.rng == rng.state()
                        && pick.claimed == blocked@);
                    assert(img@ == with_channels(img_pre, dims.0, cur, px_r, pg, pb));
                    assert(encode_walk(
                        img_pre,
                        blocked_pre,
                        rng_pre,
                        cur,
                        sbits,
                        dims,
                        bits_per_px,
                        max_tries as nat,
                    ) == encode_walk(
                        img@,
                        blocked@,
                        rng.state(),
                        nxt,
                        bits0.skip((i + k) as int),
                        dims,
                        bits_per_px,
                        max_tries as nat,
                    ));
                }
                cur = nxt;
                i = i + k;
            },
        }
    }
    proof {
        assert(bits0.skip(total as int) =~= Seq::<bool>::empty());
    }
    let pxs = img.get_pixels(dims, cur, xs);
    let baseline = get_baseline(pxs);
    proof {
        lemma_pixels_match(img@, dims, cur, pxs);
        lemma_baseline_bounds(img@, dims, cur, 0);
        lemma_baseline_bounds(img@, dims, cur, 1);
        lemma_baseline_bounds(img@, dims, cur, 2);
        lemma_byte_index_bounds(img@, dims, cur);
    }
    let ghost img_fin = img@;
    let ghost end = cur;
    img.set_pixel(baseline, cur, xs);
    proof {
        assert(img@ == with_terminal(img_fin, dims, end));
    }
    Result::Ok(())
}

/// Recovers the embedded payload from a carrier image.
///
/// Replays the walk from `start`, reading `bits_per_px` payload bits from
/// each cell's data-channel diff and following the step-channel diffs,
/// until the sentinel cell (both step diffs zero) is reached; then packs
/// the collected bits into bytes, dropping the trailing padding byte, if
/// any. Reports a framing failure when no sentinel is reached within one
/// full grid of steps.
pub fn decode(img: &Vec<u8>, dims: (usize, usize), start: (usize, usize), bits_per_px: u8) -> (r:
    Result<Vec<u8>, DecodeError>)
    requires
        1 <= bits_per_px <= 7,
    ensures
        match r {
            Result::Ok(bytes) => carrier_ok(img@, dims, start) && (decode_walk(
                img@,
                dims,
                start,
                bits_per_px,
                (dims.0 * dims.1) as nat,
            ) matches Option::Some(bits) && bytes@ == decoded_bytes(bits)),
            Result::Err(DecodeError::ImageTooSmall) => !carrier_ok(img@, dims, start),
            Result::Err(DecodeError::NoTerminator) => carrier_ok(img@, dims, start)
                && decode_walk(img@, dims, start, bits_per_px, (dims.0 * dims.1) as nat)
                is None,
        },
{
    let n = img.len();
    if !check_carrier(n, dims, start) {
        return Result::Err(DecodeError::ImageTooSmall);
    }
    let cells = n / 3;
    let xs = dims.0;
    let ghost fuel0 = cells as nat;
    let mut bitstream: Vec<bool> = Vec::new();
    let mut cur = start;
    let mut steps: usize = 0;
    proof {
        let w = decode_walk(img@, dims, start, bits_per_px, fuel0);
        if w is Some {
            assert(Seq::<bool>::empty() + w.unwrap() =~= w.unwrap());
        }
    }
    loop
        invariant
            grid_wf(img@, dims),
            valid_coord(cur, dims),
            valid_coord(start, dims),
            1 <= bits_per_px <= 7,
            steps <= cells,
            cells == dims.0 * dims.1,
            n == img@.len(),
            xs == dims.0,
            fuel0 == cells as nat,
            decode_walk(img@, dims, start, bits_per_px, fuel0) == walk_extend(
                bitstream@,
                decode_walk(img@, dims, cur, bits_per_px, (cells - steps) as nat),
            ),
        ensures
            decode_walk(img@, dims, start, bits_per_px, fuel0) == Option::Some(bitstream@),
        decreases cells - steps,
    {
        let pxs = img.get_pixels(dims, cur, xs);
        let rgb_d = difference(pxs);
        proof {
            lemma_pixels_match(img@, dims, cur, pxs);
            assert(rgb_d[0] as int == diff_at(img@, dims, cur, 0));
            assert(rgb_d[1] as int == diff_at(img@, dims, cur, 1));
            assert(rgb_d[2] as int == diff_at(img@, dims, cur, 2));
        }
        if rgb_d[1] == 0 && rgb_d[2] == 0 {
            proof {
                let rem = (cells - steps) as nat;
                assert(decode_walk(img@, dims, cur, bits_per_px, rem) == Option::Some(
                    Seq::<bool>::empty(),
                ));
                assert(bitstream@ + Seq::<bool>::empty() =~= bitstream@);
            }
            break;
        }
        if steps == cells {
            proof {
                assert(decode_walk(img@, dims, cur, bits_per_px, 0) is None);
            }
            return Result::Err(DecodeError::NoTerminator);
        }
        proof {
            lemma_baseline_bounds(img@, dims, cur, 0);
            lemma_baseline_bounds(img@, dims, cur, 1);
            lemma_baseline_bounds(img@, dims, cur, 2);
        }
        let mag: u32 = if rgb_d[0] < 0 {
            (-rgb_d[0]) as u32
        } else {
            rgb_d[0] as u32
        };
        let ghost prev = bitstream@;
        push_value_bits(&mut bitstream, mag, bits_per_px);
        let nxt = wrapping_coords(cur, dims, (rgb_d[1], rgb_d[2]));
        proof {
            let rem = (cells - steps) as nat;
            let d0 = diff_at(img@, dims, cur, 0);
            let smag = if d0 < 0 {
                -d0
            } else {
                d0
            };
            assert(mag as nat == smag as nat);
            assert(nxt == step_coord(
                cur,
                dims,
                (diff_at(img@, dims, cur, 1), diff_at(img@, dims, cur, 2)),
            ));
            assert(decode_walk(img@, dims, cur, bits_per_px, rem) == (match decode_walk(
                img@,
                dims,
                nxt,
                bits_per_px,
                (rem - 1) as nat,
            ) {
                Option::None => Option::None,
                Option::Some(rest) => Option::Some(
                    bits_of_value(smag as nat, bits_per_px as nat) + rest,
                ),
            }));
            let w2 = decode_walk(img@, dims, nxt, bits_per_px, (rem - 1) as nat);
            if w2 is Some {
                assert((prev + bits_of_value(mag as nat, bits_per_px as nat)) + w2.unwrap()
                    =~= prev + (bits_of_value(mag as nat, bits_per_px as nat) + w2.unwrap()));
            }
        }
        cur = nxt;
        steps = steps + 1;
    }
    let ghost allbits = bitstream@;
    let nbits = bitstream.len();
    let mut bytes = bitstream_to_bytes(bitstream);
    if nbits % 8 != 0 {
        proof {
            lemma_bytes_of_bits_len(allbits);
        }
        bytes.pop();
    }
    proof {
        lemma_bytes_of_bits_len(allbits);
        assert(bytes@ =~= decoded_bytes(allbits));
    }
    Result::Ok(bytes)
}

/// Sentinel uniqueness: every step the occupancy search accepts applies a
/// nonzero offset to each step channel (offsets are floored at 1), so a
/// live cell's step-channel values both differ from their baselines and
/// only the terminal cell can read as the sentinel.
pub proof fn lemma_sentinel_unique(
    rng: u64,
    base_g: int,
    base_b: int,
    blocked: Seq<bool>,
    pos: (usize, usize),
    dims: (usize, usize),
    b: u8,
    tries: nat,
)
    requires
        1 <= b <= 7,
        0 <= base_g <= 255,
        0 <= base_b <= 255,
    ensures
        find_step(rng, base_g, base_b, blocked, pos, dims, b, tries) matches Option::Some(pick)
            ==> pick.px_g != base_g && pick.px_b != base_b && pick.off_g != 0 && pick.off_b != 0,
    decreases tries,
{
    if tries > 0 {
        let s1 = advanced_state(rng);
        let s2 = advanced_state(s1);
        let og = offset_of_word(mixed_output(s1), b);
        let ob = offset_of_word(mixed_output(s2), b);
        vstd::arithmetic::power2::lemma_pow2_pos(b as nat);
        if (b as nat) < 7 {
            vstd::arithmetic::power2::lemma_pow2_strictly_increases(b as nat, 7);
        }
        vstd::arithmetic::power2::lemma2_to64();
        assert(1 <= og <= 128);
        assert(1 <= ob <= 128);
        lemma_sentinel_unique(s2, base_g, base_b, blocked, pos, dims, b, (tries - 1) as nat);
    }
}

/// One-cell round trip: reading `b` bits back from the magnitude of the
/// data channel's deviation returns exactly the chunk the encoder
/// embedded, padded with low zero bits when the final chunk was short.
pub proof fn lemma_cell_roundtrip(chunk: Seq<bool>, b: u8, base: int)
    requires
        1 <= b <= 7,
        1 <= chunk.len() <= b,
        0 <= base <= 255,
    ensures
        ({
            let d = embedded_channel(base, chunk_value(chunk, b));
            let mag = if d - base < 0 {
                -(d - base)
            } else {
                d - base
            };
            bits_of_value(mag as nat, b as nat) == chunk + Seq::new(
                (b - chunk.len()) as nat,
                |i: int| false,
            )
        }),
{
    let v = chunk_value(chunk, b);
    let padded = chunk + Seq::new((b - chunk.len()) as nat, |i: int| false);
    lemma_value_append_zeros(chunk, (b - chunk.len()) as nat);
    assert(value_of_bits(padded) == v);
    lemma_value_of_bits_bound(padded);
    lemma_bits_of_value_of_bits(padded);
    assert(padded.len() == b as nat);
    let d = embedded_channel(base, v);
    if base + v > 255 {
        assert(d - base == -(v as int));
    } else {
        assert(d - base == v as int);
    }
}

} // verus!
