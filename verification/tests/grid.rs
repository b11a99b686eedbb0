use stegwalk::grid::{
    crd_to_ind1, crd_to_ind3, difference, get_baseline, surrounding_coords, u8_3_to_i8_3,
    wrapping_coords, ImageBytes,
};

#[test]
fn indices_row_major() {
    assert_eq!(crd_to_ind1(2, 3, 4), 14);
    assert_eq!(crd_to_ind3(2, 3, 4), 42);
    assert_eq!(crd_to_ind1(0, 0, 64), 0);
    assert_eq!(crd_to_ind3(63, 0, 64), 189);
}

#[test]
fn wrap_inside_grid() {
    assert_eq!(wrapping_coords((10, 10), (64, 64), (3, -2)), (16, 6));
}

#[test]
fn wrap_at_high_boundary() {
    // x = W-1, y = H-1: steps of +2 wrap around to the low edge.
    assert_eq!(wrapping_coords((63, 63), (64, 64), (1, 1)), (1, 1));
    assert_eq!(wrapping_coords((63, 0), (64, 64), (2, 0)), (3, 0));
}

#[test]
fn wrap_at_low_boundary() {
    // x = 0, y = 0: negative steps wrap to the high edge.
    assert_eq!(wrapping_coords((0, 0), (64, 64), (-1, -1)), (62, 62));
    assert_eq!(wrapping_coords((0, 5), (64, 64), (-40, 0)), (48, 5));
}

#[test]
fn wrap_large_offsets() {
    // Offsets larger than the grid still land inside it.
    let r = wrapping_coords((3, 3), (8, 8), (127, -127));
    assert!(r.0 < 8 && r.1 < 8);
    // 3 + 254 = 257; 257 mod 8 = 1.  3 - 254 = -251; -251 mod 8 = 5.
    assert_eq!(r, (1, 5));
}

#[test]
fn neighbors_interior() {
    let s = surrounding_coords((4, 4), (1, 1));
    assert_eq!(s, [(1, 1), (2, 1), (0, 1), (1, 2), (1, 0)]);
}

#[test]
fn neighbors_wrap_at_origin() {
    let s = surrounding_coords((4, 4), (0, 0));
    assert_eq!(s, [(0, 0), (1, 0), (3, 0), (0, 1), (0, 3)]);
}

#[test]
fn neighbors_wrap_at_far_corner() {
    let s = surrounding_coords((4, 4), (3, 3));
    assert_eq!(s, [(3, 3), (0, 3), (2, 3), (3, 0), (3, 2)]);
}

#[test]
fn baseline_is_floor_mean_of_neighbors() {
    let pxs = [
        [0, 0, 0],
        [10, 20, 30],
        [20, 30, 40],
        [30, 40, 50],
        [40, 50, 61],
    ];
    // Sums 100, 140, 181; floor division by 4 gives 25, 35, 45.
    assert_eq!(get_baseline(pxs), [25, 35, 45]);
}

#[test]
fn difference_is_signed_deviation_from_baseline() {
    let pxs = [
        [30, 30, 30],
        [10, 20, 30],
        [20, 30, 40],
        [30, 40, 50],
        [40, 50, 60],
    ];
    assert_eq!(difference(pxs), [5, -5, -15]);
}

#[test]
fn widening_keeps_channel_values() {
    assert_eq!(u8_3_to_i8_3([1, 128, 255]), [1, 128, 255]);
}

fn counting_buffer() -> Vec<u8> {
    (0u8..48).collect()
}

#[test]
fn get_pixels_reads_footprint() {
    let buf = counting_buffer();
    let pxs = buf.get_pixels((4, 4), (1, 1), 4);
    assert_eq!(pxs[0], [15, 16, 17]); // self
    assert_eq!(pxs[1], [18, 19, 20]); // east
    assert_eq!(pxs[2], [12, 13, 14]); // west
    assert_eq!(pxs[3], [27, 28, 29]); // south
    assert_eq!(pxs[4], [3, 4, 5]); // north
}

#[test]
fn set_pixel_writes_three_channels() {
    let mut buf = counting_buffer();
    buf.set_pixel([9, 8, 7], (2, 3), 4);
    assert_eq!(&buf[42..45], &[9, 8, 7]);
    // Other cells untouched.
    assert_eq!(buf[41], 41);
    assert_eq!(buf[45], 45);
}

#[test]
fn baseline_survives_write_to_own_cell() {
    let mut buf = counting_buffer();
    let before = get_baseline(buf.get_pixels((4, 4), (1, 1), 4));
    buf.set_pixel([200, 201, 202], (1, 1), 4);
    let after = get_baseline(buf.get_pixels((4, 4), (1, 1), 4));
    assert_eq!(before, after);
    assert_eq!(after, [15, 16, 17]);
}
