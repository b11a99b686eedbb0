//! Toroidal 2D pixel grid over a flat byte buffer.
//!
//! A carrier image is a row-major, channel-interleaved buffer of 3-channel
//! 8-bit pixels. All coordinate arithmetic wraps modulo the grid dimensions.
//! The baseline of a cell is the per-channel floor-mean of its four toroidal
//! neighbors, never of the cell itself, so it survives writes to the cell.

use vstd::prelude::*;

verus! {

/// Coordinates that lie inside the grid.
pub open spec fn valid_coord(crd: (usize, usize), dims: (usize, usize)) -> bool {
    crd.0 < dims.0 && crd.1 < dims.1
}

/// Dimensions on which the grid operations are defined: at least 2 along
/// each axis (so a cell is never its own neighbor) and small enough for the
/// wrap arithmetic to stay inside machine integers.
pub open spec fn valid_dims(dims: (usize, usize)) -> bool {
    2 <= dims.0 && dims.0 <= 0xFFFF_FFFF && 2 <= dims.1 && dims.1 <= 0xFFFF_FFFF
}

/// A well-formed carrier buffer: exactly 3 bytes per pixel.
pub open spec fn grid_wf(s: Seq<u8>, dims: (usize, usize)) -> bool {
    valid_dims(dims) && s.len() == 3 * dims.0 * dims.1
}

/// Flat cell index of a coordinate in row-major order.
pub open spec fn cell_index(crd: (usize, usize), xs: usize) -> int {
    crd.1 * xs + crd.0
}

/// Flat byte index of the first channel of a cell.
pub open spec fn byte_index(crd: (usize, usize), xs: usize) -> int {
    3 * cell_index(crd, xs)
}

/// The value of channel `c` of the cell at `crd`.
pub open spec fn channel_at(s: Seq<u8>, xs: usize, crd: (usize, usize), c: int) -> u8 {
    s[byte_index(crd, xs) + c]
}

/// The eastern toroidal neighbor (x + 1, wrapped).
pub open spec fn coord_east(crd: (usize, usize), dims: (usize, usize)) -> (usize, usize) {
    (if crd.0 == dims.0 - 1 {
        0usize
    } else {
        (crd.0 + 1) as usize
    }, crd.1)
}

/// The western toroidal neighbor (x - 1, wrapped).
pub open spec fn coord_west(crd: (usize, usize), dims: (usize, usize)) -> (usize, usize) {
    (if crd.0 == 0 {
        (dims.0 - 1) as usize
    } else {
        (crd.0 - 1) as usize
    }, crd.1)
}

/// The southern toroidal neighbor (y + 1, wrapped).
pub open spec fn coord_south(crd: (usize, usize), dims: (usize, usize)) -> (usize, usize) {
    (crd.0, if crd.1 == dims.1 - 1 {
        0usize
    } else {
        (crd.1 + 1) as usize
    })
}

/// The northern toroidal neighbor (y - 1, wrapped).
pub open spec fn coord_north(crd: (usize, usize), dims: (usize, usize)) -> (usize, usize) {
    (crd.0, if crd.1 == 0 {
        (dims.1 - 1) as usize
    } else {
        (crd.1 - 1) as usize
    })
}

/// A cell's footprint: itself and its four toroidal neighbors, in the order
/// self, east, west, south, north.
pub open spec fn footprint(crd: (usize, usize), dims: (usize, usize)) -> Seq<(usize, usize)> {
    seq![
        crd,
        coord_east(crd, dims),
        coord_west(crd, dims),
        coord_south(crd, dims),
        coord_north(crd, dims),
    ]
}

/// Per-channel mean (floor) of the four toroidal neighbors of `crd`,
/// excluding `crd` itself.
pub open spec fn baseline_at(s: Seq<u8>, dims: (usize, usize), crd: (usize, usize), c: int) -> int {
    (channel_at(s, dims.0, coord_east(crd, dims), c) as int + channel_at(
        s,
        dims.0,
        coord_west(crd, dims),
        c,
    ) as int + channel_at(s, dims.0, coord_south(crd, dims), c) as int + channel_at(
        s,
        dims.0,
        coord_north(crd, dims),
        c,
    ) as int) / 4
}

/// Difference of a cell's channel from its baseline.
pub open spec fn diff_at(s: Seq<u8>, dims: (usize, usize), crd: (usize, usize), c: int) -> int {
    channel_at(s, dims.0, crd, c) as int - baseline_at(s, dims, crd, c)
}

/// The buffer after writing the three given channel values to the cell at
/// `crd`.
pub open spec fn with_channels(
    s: Seq<u8>,
    xs: usize,
    crd: (usize, usize),
    c0: u8,
    c1: u8,
    c2: u8,
) -> Seq<u8> {
    s.update(byte_index(crd, xs), c0).update(byte_index(crd, xs) + 1, c1).update(
        byte_index(crd, xs) + 2,
        c2,
    )
}

/// The buffer after writing the three channels of the cell at `crd`.
pub open spec fn with_pixel(s: Seq<u8>, xs: usize, crd: (usize, usize), px: [u8; 3]) -> Seq<u8> {
    with_channels(s, xs, crd, px[0], px[1], px[2])
}

/// Toroidal advance along one axis: the position plus twice the signed
/// offset, wrapped into [0, m).
pub open spec fn wrap_axis(p: int, d: int, m: int) -> int {
    (p + 2 * d) % m
}

/// The coordinate reached from `pos` by twice the signed per-axis offsets,
/// wrapped toroidally.
pub open spec fn step_coord(pos: (usize, usize), dims: (usize, usize), diff: (int, int)) -> (
    usize,
    usize,
) {
    (
        wrap_axis(pos.0 as int, diff.0, dims.0 as int) as usize,
        wrap_axis(pos.1 as int, diff.1, dims.1 as int) as usize,
    )
}

/// Every footprint member of a valid coordinate is itself valid.
pub proof fn lemma_footprint_valid(crd: (usize, usize), dims: (usize, usize))
    requires
        valid_coord(crd, dims),
        1 <= dims.0,
        1 <= dims.1,
    ensures
        forall|i: int| 0 <= i < 5 ==> valid_coord(#[trigger] footprint(crd, dims)[i], dims),
{
}

/// A cell's flat index lies inside the grid.
pub proof fn lemma_cell_index_bound(crd: (usize, usize), dims: (usize, usize))
    requires
        valid_coord(crd, dims),
    ensures
        0 <= cell_index(crd, dims.0),
        cell_index(crd, dims.0) < dims.0 * dims.1,
{
    assert(crd.1 * dims.0 + crd.0 < dims.0 * dims.1) by (nonlinear_arith)
        requires
            crd.0 < dims.0,
            crd.1 < dims.1,
    ;
}

/// A baseline is an average of channel values, so it fits a channel.
pub proof fn lemma_baseline_bounds(s: Seq<u8>, dims: (usize, usize), crd: (usize, usize), c: int)
    ensures
        0 <= baseline_at(s, dims, crd, c) <= 255,
{
    let sum = channel_at(s, dims.0, coord_east(crd, dims), c) as int + channel_at(
        s,
        dims.0,
        coord_west(crd, dims),
        c,
    ) as int + channel_at(s, dims.0, coord_south(crd, dims), c) as int + channel_at(
        s,
        dims.0,
        coord_north(crd, dims),
        c,
    ) as int;
    assert(0 <= sum <= 1020);
    vstd::arithmetic::div_mod::lemma_div_pos_is_pos(sum, 4);
    vstd::arithmetic::div_mod::lemma_div_is_ordered(sum, 1020, 4);
}

/// The byte range of a valid cell lies inside a well-formed buffer, and its
/// row bound fits the machine when the buffer does.
pub proof fn lemma_byte_index_bounds(s: Seq<u8>, dims: (usize, usize), crd: (usize, usize))
    requires
        grid_wf(s, dims),
        valid_coord(crd, dims),
    ensures
        0 <= byte_index(crd, dims.0),
        byte_index(crd, dims.0) + 3 <= s.len(),
        3 * ((crd.1 + 1) * dims.0) <= s.len(),
{
    lemma_cell_index_bound(crd, dims);
    assert(3 * dims.0 * dims.1 == 3 * (dims.0 * dims.1)) by (nonlinear_arith);
    assert(3 * ((crd.1 + 1) * dims.0) <= 3 * (dims.0 * dims.1)) by (nonlinear_arith)
        requires
            crd.1 < dims.1,
            dims.0 >= 1,
    ;
}

/// Distinct coordinates have distinct flat indices.
pub proof fn lemma_cell_index_injective(
    a: (usize, usize),
    b: (usize, usize),
    dims: (usize, usize),
)
    requires
        valid_coord(a, dims),
        valid_coord(b, dims),
        a != b,
    ensures
        cell_index(a, dims.0) != cell_index(b, dims.0),
{
    if a.1 != b.1 {
        assert(a.1 * dims.0 + a.0 != b.1 * dims.0 + b.0) by (nonlinear_arith)
            requires
                a.0 < dims.0,
                b.0 < dims.0,
                a.1 != b.1,
        ;
    }
}

/// Converts a coordinate to the flat cell index.
pub fn crd_to_ind1(x: usize, y: usize, xs: usize) -> (r: usize)
    requires
        x < xs,
        (y + 1) * xs <= usize::MAX,
    ensures
        r == cell_index((x, y), xs),
{
    proof {
        assert(y * xs + x < (y + 1) * xs) by (nonlinear_arith)
            requires
                x < xs,
        ;
    }
    y * xs + x
}

/// Converts a coordinate to the flat byte index of its first channel.
pub fn crd_to_ind3(x: usize, y: usize, xs: usize) -> (r: usize)
    requires
        x < xs,
        3 * ((y + 1) * xs) <= usize::MAX,
    ensures
        r == byte_index((x, y), xs),
{
    proof {
        assert(y * xs + x < (y + 1) * xs) by (nonlinear_arith)
            requires
                x < xs,
        ;
    }
    (y * xs + x) * 3
}

/// Toroidal advance along one axis by twice a signed offset.
fn wrap_one(p: usize, m: usize, d: i32) -> (r: usize)
    requires
        1 <= m <= 0xFFFF_FFFF,
        p < m,
    ensures
        r as int == wrap_axis(p as int, d as int, m as int),
        r < m,
{
    let m64 = m as u64;
    let p64 = p as u64;
    let mag: u64 = if d >= 0 {
        d as u64
    } else {
        -(d as i64) as u64
    };
    let off = (2 * mag) % m64;
    let r64 = if d >= 0 {
        proof {
            vstd::arithmetic::div_mod::lemma_add_mod_noop_right(
                p as int,
                2 * (d as int),
                m as int,
            );
        }
        (p64 + off) % m64
    } else {
        proof {
            vstd::arithmetic::div_mod::lemma_mod_add_multiples_vanish(
                p as int - off as int,
                m as int,
            );
            vstd::arithmetic::div_mod::lemma_sub_mod_noop_right(
                p as int,
                2 * (mag as int),
                m as int,
            );
        }
        (p64 + m64 - off) % m64
    };
    r64 as usize
}

/// Advances a coordinate by twice the signed per-axis offsets, with
/// toroidal wrap-around on both axes. The result always lies inside the
/// grid, including at the grid boundaries.
pub fn wrapping_coords(pos: (usize, usize), dims: (usize, usize), diff: (i32, i32)) -> (r: (
    usize,
    usize,
))
    requires
        valid_dims(dims),
        valid_coord(pos, dims),
    ensures
        r.0 as int == wrap_axis(pos.0 as int, diff.0 as int, dims.0 as int),
        r.1 as int == wrap_axis(pos.1 as int, diff.1 as int, dims.1 as int),
        r == step_coord(pos, dims, (diff.0 as int, diff.1 as int)),
        valid_coord(r, dims),
{
    (wrap_one(pos.0, dims.0, diff.0), wrap_one(pos.1, dims.1, diff.1))
}

/// The footprint of a coordinate: itself and its four toroidal neighbors.
pub fn surrounding_coords(dims: (usize, usize), crd: (usize, usize)) -> (r: [(usize, usize); 5])
    requires
        1 <= dims.0,
        1 <= dims.1,
        valid_coord(crd, dims),
    ensures
        r@ == footprint(crd, dims),
{
    let x0 = crd.0 == 0;
    let y0 = crd.1 == 0;
    let xm = crd.0 == dims.0 - 1;
    let ym = crd.1 == dims.1 - 1;
    let r = [
        (crd.0, crd.1),
        (
            if xm {
                0
            } else {
                crd.0 + 1
            },
            crd.1,
        ),
        (
            if x0 {
                dims.0 - 1
            } else {
                crd.0 - 1
            },
            crd.1,
        ),
        (
            crd.0,
            if ym {
                0
            } else {
                crd.1 + 1
            },
        ),
        (
            crd.0,
            if y0 {
                dims.1 - 1
            } else {
                crd.1 - 1
            },
        ),
    ];
    proof {
        assert(r@ =~= footprint(crd, dims));
    }
    r
}

/// Mean (floor) of the four neighbor pixels of a footprint reading,
/// excluding the center pixel itself.
pub open spec fn pixels_baseline(pxs: [[u8; 3]; 5], c: int) -> int {
    (pxs[1][c] as int + pxs[2][c] as int + pxs[3][c] as int + pxs[4][c] as int) / 4
}

/// Per-channel mean of the four neighbor pixels in a footprint reading.
pub fn get_baseline(pxs: [[u8; 3]; 5]) -> (r: [u8; 3])
    ensures
        forall|c: int| 0 <= c < 3 ==> #[trigger] r[c] as int == pixels_baseline(pxs, c),
{
    let r0 = (pxs[1][0] as u32 + pxs[2][0] as u32 + pxs[3][0] as u32 + pxs[4][0] as u32) / 4;
    let r1 = (pxs[1][1] as u32 + pxs[2][1] as u32 + pxs[3][1] as u32 + pxs[4][1] as u32) / 4;
    let r2 = (pxs[1][2] as u32 + pxs[2][2] as u32 + pxs[3][2] as u32 + pxs[4][2] as u32) / 4;
    let r = [r0 as u8, r1 as u8, r2 as u8];
    proof {
        assert(r[0] as int == pixels_baseline(pxs, 0));
        assert(r[1] as int == pixels_baseline(pxs, 1));
        assert(r[2] as int == pixels_baseline(pxs, 2));
    }
    r
}

/// Per-channel difference of the center pixel of a footprint reading from
/// the baseline of that footprint.
pub fn difference(pxs: [[u8; 3]; 5]) -> (r: [i32; 3])
    ensures
        forall|c: int| 0 <= c < 3 ==> #[trigger] r[c] as int == pxs[0][c] as int - pixels_baseline(
            pxs,
            c,
        ),
{
    let baseline = get_baseline(pxs);
    let r = [
        pxs[0][0] as i32 - baseline[0] as i32,
        pxs[0][1] as i32 - baseline[1] as i32,
        pxs[0][2] as i32 - baseline[2] as i32,
    ];
    proof {
        assert(r[0] as int == pxs[0][0] as int - pixels_baseline(pxs, 0));
        assert(r[1] as int == pxs[0][1] as int - pixels_baseline(pxs, 1));
        assert(r[2] as int == pxs[0][2] as int - pixels_baseline(pxs, 2));
    }
    r
}

/// Widens the three channels of a pixel to signed integers.
pub fn u8_3_to_i8_3(x: [u8; 3]) -> (r: [i32; 3])
    ensures
        forall|c: int| 0 <= c < 3 ==> #[trigger] r[c] == x[c] as i32,
{
    let r = [x[0] as i32, x[1] as i32, x[2] as i32];
    proof {
        assert(r[0] == x[0] as i32);
        assert(r[1] == x[1] as i32);
        assert(r[2] == x[2] as i32);
    }
    r
}

/// Byte-buffer access to a row-major, 3-channel pixel grid.
pub trait ImageBytes: View<V = Seq<u8>> {
    /// Reads the pixel at `crd` and its four toroidal neighbors, in the
    /// order self, east, west, south, north.
    fn get_pixels(&self, dims: (usize, usize), crd: (usize, usize), xs: usize) -> (r: [[u8; 3]; 5])
        requires
            grid_wf(self@, dims),
            valid_coord(crd, dims),
            xs == dims.0,
        ensures
            forall|i: int, c: int|
                0 <= i < 5 && 0 <= c < 3 ==> #[trigger] r[i][c] == channel_at(
                    self@,
                    dims.0,
                    footprint(crd, dims)[i],
                    c,
                ),
    ;

    /// Writes the three channels of the pixel at `crd`.
    fn set_pixel(&mut self, px: [u8; 3], crd: (usize, usize), xs: usize)
        requires
            crd.0 < xs,
            byte_index(crd, xs) + 3 <= old(self)@.len(),
            3 * ((crd.1 + 1) * xs) <= usize::MAX,
        ensures
            final(self)@ == with_pixel(old(self)@, xs, crd, px),
    ;
}

impl ImageBytes for Vec<u8> {
    fn get_pixels(&self, dims: (usize, usize), crd: (usize, usize), xs: usize) -> (r: [[u8; 3]; 5])
    {
        let n = self.len();
        proof {
            lemma_footprint_valid(crd, dims);
            assert(3 * dims.0 * dims.1 == 3 * (dims.0 * dims.1)) by (nonlinear_arith);
            assert forall|i: int| 0 <= i < 5 implies 3 * ((#[trigger] footprint(crd, dims)[i].1
                + 1) * dims.0) <= usize::MAX && byte_index(footprint(crd, dims)[i], dims.0) + 3
                <= self@.len() by {
                lemma_cell_index_bound(footprint(crd, dims)[i], dims);
                assert(3 * ((footprint(crd, dims)[i].1 + 1) * dims.0) <= 3 * (dims.0 * dims.1))
                    by (nonlinear_arith)
                    requires
                        footprint(crd, dims)[i].1 < dims.1,
                        dims.0 >= 1,
                ;
            }
        }
        let scrds = surrounding_coords(dims, crd);
        let x0y0 = crd_to_ind3(scrds[0].0, scrds[0].1, xs);
        let x1y0 = crd_to_ind3(scrds[1].0, scrds[1].1, xs);
        let x2y0 = crd_to_ind3(scrds[2].0, scrds[2].1, xs);
        let x0y1 = crd_to_ind3(scrds[3].0, scrds[3].1, xs);
        let x0y2 = crd_to_ind3(scrds[4].0, scrds[4].1, xs);
        let r = [
            [self[x0y0], self[x0y0 + 1], self[x0y0 + 2]],
            [self[x1y0], self[x1y0 + 1], self[x1y0 + 2]],
            [self[x2y0], self[x2y0 + 1], self[x2y0 + 2]],
            [self[x0y1], self[x0y1 + 1], self[x0y1 + 2]],
            [self[x0y2], self[x0y2 + 1], self[x0y2 + 2]],
        ];
        proof {
            let fp = footprint(crd, dims);
            assert forall|i: int, c: int| 0 <= i < 5 && 0 <= c < 3 implies #[trigger] r[i][c]
                == channel_at(self@, dims.0, fp[i], c) by {
                if i == 0 {
                    assert(x0y0 == byte_index(fp[0], dims.0));
                    assert(r[0][0] == self@[x0y0 as int]);
                    assert(r[0][1] == self@[x0y0 + 1]);
                    assert(r[0][2] == self@[x0y0 + 2]);
                } else if i == 1 {
                    assert(x1y0 == byte_index(fp[1], dims.0));
                    assert(r[1][0] == self@[x1y0 as int]);
                    assert(r[1][1] == self@[x1y0 + 1]);
                    assert(r[1][2] == self@[x1y0 + 2]);
                } else if i == 2 {
                    assert(x2y0 == byte_index(fp[2], dims.0));
                    assert(r[2][0] == self@[x2y0 as int]);
                    assert(r[2][1] == self@[x2y0 + 1]);
                    assert(r[2][2] == self@[x2y0 + 2]);
                } else if i == 3 {
                    assert(x0y1 == byte_index(fp[3], dims.0));
                    assert(r[3][0] == self@[x0y1 as int]);
                    assert(r[3][1] == self@[x0y1 + 1]);
                    assert(r[3][2] == self@[x0y1 + 2]);
                } else {
                    assert(x0y2 == byte_index(fp[4], dims.0));
                    assert(r[4][0] == self@[x0y2 as int]);
                    assert(r[4][1] == self@[x0y2 + 1]);
                    assert(r[4][2] == self@[x0y2 + 2]);
                }
            }
        }
        r
    }

    fn set_pixel(&mut self, px: [u8; 3], crd: (usize, usize), xs: usize) {
        let n = self.len();
        let ind = crd_to_ind3(crd.0, crd.1, xs);
        self[ind] = px[0];
        self[ind + 1] = px[1];
        self[ind + 2] = px[2];
        proof {
            assert(self@ =~= with_pixel(old(self)@, xs, crd, px));
        }
    }
}

/// A footprint reading that matches the buffer pointwise yields the
/// buffer's baseline and center channels.
pub proof fn lemma_pixels_match(
    s: Seq<u8>,
    dims: (usize, usize),
    crd: (usize, usize),
    pxs: [[u8; 3]; 5],
)
    requires
        forall|i: int, c: int|
            0 <= i < 5 && 0 <= c < 3 ==> #[trigger] pxs[i][c] == channel_at(
                s,
                dims.0,
                footprint(crd, dims)[i],
                c,
            ),
    ensures
        forall|c: int|
            0 <= c < 3 ==> #[trigger] pixels_baseline(pxs, c) == baseline_at(s, dims, crd, c),
        forall|c: int| 0 <= c < 3 ==> #[trigger] pxs[0][c] == channel_at(s, dims.0, crd, c),
{
    assert forall|c: int| 0 <= c < 3 implies #[trigger] pixels_baseline(pxs, c) == baseline_at(
        s,
        dims,
        crd,
        c,
    ) by {
        assert(pxs[1][c] == channel_at(s, dims.0, footprint(crd, dims)[1], c));
        assert(pxs[2][c] == channel_at(s, dims.0, footprint(crd, dims)[2], c));
        assert(pxs[3][c] == channel_at(s, dims.0, footprint(crd, dims)[3], c));
        assert(pxs[4][c] == channel_at(s, dims.0, footprint(crd, dims)[4], c));
        assert(footprint(crd, dims)[1] == coord_east(crd, dims));
        assert(footprint(crd, dims)[2] == coord_west(crd, dims));
        assert(footprint(crd, dims)[3] == coord_south(crd, dims));
        assert(footprint(crd, dims)[4] == coord_north(crd, dims));
    }
    assert forall|c: int| 0 <= c < 3 implies #[trigger] pxs[0][c] == channel_at(
        s,
        dims.0,
        crd,
        c,
    ) by {
        assert(pxs[0][c] == channel_at(s, dims.0, footprint(crd, dims)[0], c));
        assert(footprint(crd, dims)[0] == crd);
    }
}

/// Writing to a cell never changes that cell's own baseline: the baseline
/// reads only the four neighbors, and on a grid at least 2 cells wide and
/// high no cell is its own neighbor.
pub proof fn lemma_baseline_independent(
    s: Seq<u8>,
    dims: (usize, usize),
    crd: (usize, usize),
    px: [u8; 3],
    c: int,
)
    requires
        grid_wf(s, dims),
        valid_coord(crd, dims),
        0 <= c < 3,
    ensures
        baseline_at(with_pixel(s, dims.0, crd, px), dims, crd, c) == baseline_at(s, dims, crd, c),
{
    lemma_footprint_valid(crd, dims);
    lemma_cell_index_bound(crd, dims);
    assert(3 * dims.0 * dims.1 == 3 * (dims.0 * dims.1)) by (nonlinear_arith);
    assert forall|i: int| 1 <= i < 5 implies channel_at(
        with_pixel(s, dims.0, crd, px),
        dims.0,
        #[trigger] footprint(crd, dims)[i],
        c,
    ) == channel_at(s, dims.0, footprint(crd, dims)[i], c) by {
        let nb = footprint(crd, dims)[i];
        if i == 1 {
            assert(nb == coord_east(crd, dims));
            assert(nb != crd);
        } else if i == 2 {
            assert(nb == coord_west(crd, dims));
            assert(nb != crd);
        } else if i == 3 {
            assert(nb == coord_south(crd, dims));
            assert(nb != crd);
        } else {
            assert(nb == coord_north(crd, dims));
            assert(nb != crd);
        }
        lemma_cell_index_injective(nb, crd, dims);
        lemma_cell_index_bound(nb, dims);
        let bi = byte_index(crd, dims.0);
        let bn = byte_index(nb, dims.0);
        assert(0 <= bi && bi + 3 <= s.len());
        assert(0 <= bn && bn + c < s.len());
        assert(bn + c != bi && bn + c != bi + 1 && bn + c != bi + 2);
        assert(with_pixel(s, dims.0, crd, px)[bn + c] == s[bn + c]);
    }
    let s2 = with_pixel(s, dims.0, crd, px);
    assert(footprint(crd, dims)[1] == coord_east(crd, dims));
    assert(footprint(crd, dims)[2] == coord_west(crd, dims));
    assert(footprint(crd, dims)[3] == coord_south(crd, dims));
    assert(footprint(crd, dims)[4] == coord_north(crd, dims));
    assert(channel_at(s2, dims.0, footprint(crd, dims)[1], c) == channel_at(
        s,
        dims.0,
        footprint(crd, dims)[1],
        c,
    ));
    assert(channel_at(s2, dims.0, footprint(crd, dims)[2], c) == channel_at(
        s,
        dims.0,
        footprint(crd, dims)[2],
        c,
    ));
    assert(channel_at(s2, dims.0, footprint(crd, dims)[3], c) == channel_at(
        s,
        dims.0,
        footprint(crd, dims)[3],
        c,
    ));
    assert(channel_at(s2, dims.0, footprint(crd, dims)[4], c) == channel_at(
        s,
        dims.0,
        footprint(crd, dims)[4],
        c,
    ));
}

} // verus!
