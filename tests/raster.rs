use pathtracer::config::{BILATERAL_FILTER_DIAMETER, SUPERSAMPLING};
use pathtracer::filter::{bilateral_neighbors, index_to_xy, neighbor_coord, squared_distance, xy_to_index};
use pathtracer::math::clamp_u32;
use pathtracer::renderer::{frag_coord, samples_per_pixel};
use pathtracer::texture::{clamp, nearest_texel};

#[test]
fn clamp_u32_limits() {
    assert_eq!(clamp_u32(5, 1, 9), 5);
    assert_eq!(clamp_u32(0, 1, 9), 1);
    assert_eq!(clamp_u32(10, 1, 9), 9);
    assert_eq!(clamp_u32(7, 7, 7), 7);
}

#[test]
fn texel_clamp() {
    assert_eq!(clamp(3, 0, 2), 2);
    assert_eq!(clamp(1, 0, 2), 1);
    assert_eq!(nearest_texel(640, 5, 512, 256), (511, 5));
    assert_eq!(nearest_texel(0, 999, 1, 1), (0, 0));
}

#[test]
fn index_round_trip() {
    assert_eq!(xy_to_index(3, 2, 10), 23);
    assert_eq!(index_to_xy(23, 10), (3, 2));
    for i in 0..50usize {
        let (x, y) = index_to_xy(i, 7);
        assert_eq!(xy_to_index(x, y, 7), i);
    }
}

#[test]
fn neighbor_coords_clamp_at_edges() {
    assert_eq!(neighbor_coord(0, 0, 1, 10), 0);
    assert_eq!(neighbor_coord(0, 2, 1, 10), 1);
    assert_eq!(neighbor_coord(9, 2, 1, 10), 9);
    assert_eq!(neighbor_coord(5, 0, 1, 10), 4);
}

#[test]
fn kernel_window_at_corner() {
    let w = bilateral_neighbors(0, 0, 4, 3, BILATERAL_FILTER_DIAMETER);
    assert_eq!(
        w,
        vec![(0, 0), (0, 0), (0, 1), (0, 0), (0, 0), (0, 1), (1, 0), (1, 0), (1, 1)]
    );
    let inner = bilateral_neighbors(2, 1, 4, 3, 3);
    assert_eq!(
        inner,
        vec![(1, 0), (1, 1), (1, 2), (2, 0), (2, 1), (2, 2), (3, 0), (3, 1), (3, 2)]
    );
    assert_eq!(bilateral_neighbors(1, 1, 3, 3, 1), vec![(1, 1)]);
}

#[test]
fn squared_distances() {
    assert_eq!(squared_distance(3, 4, 0, 0), 25);
    assert_eq!(squared_distance(0, 0, 3, 4), 25);
    assert_eq!(squared_distance(u32::MAX, u32::MAX, 0, 0), 2 * (u32::MAX as u128) * (u32::MAX as u128));
}

#[test]
fn frag_coords_count_rows_from_the_bottom() {
    assert_eq!(frag_coord(0, 4, 3), (0, 3));
    assert_eq!(frag_coord(5, 4, 3), (1, 2));
    assert_eq!(frag_coord(11, 4, 3), (3, 1));
}

#[test]
fn samples_per_pixel_counts_the_grid() {
    assert_eq!(SUPERSAMPLING, 2);
    assert_eq!(samples_per_pixel(1), 4);
    assert_eq!(samples_per_pixel(250), 1000);
    assert_eq!(samples_per_pixel(u32::MAX), 4 * u32::MAX as u64);
}
