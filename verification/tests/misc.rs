use pbrt_rust::sampler::raster::next_pixel;
use pbrt_rust::sampler::utils::{sub_window_tiles, sub_window_tiles_fit};
use pbrt_rust::sampler::utils::{ld_pixel_sample_floats_needed, sobol2_bits, van_der_corput_bits};
use pbrt_rust::shape::loopsubdiv::{next, prev};
use pbrt_rust::spectrum::SpectrumType;
use pbrt_rust::texture::ConstantTexture;
use pbrt_rust::utils::{get_num_subwindows_2d, subwindows_fit_in_usize};
use pbrt_rust::whitted::WhittedIntegrator;

#[test]
fn next_and_prev_go_round_a_triangle() {
    assert_eq!(next(0), 1);
    assert_eq!(next(1), 2);
    assert_eq!(next(2), 0);
    assert_eq!(prev(0), 2);
    assert_eq!(prev(1), 0);
    assert_eq!(prev(2), 1);
    for i in 0..3 {
        assert_eq!(prev(next(i)), i);
        assert_eq!(next(prev(i)), i);
    }
}

#[test]
fn subwindows_split_the_count() {
    assert_eq!(get_num_subwindows_2d(2, 2), (1, 2));
    assert_eq!(get_num_subwindows_2d(2, 0), (2, 1));
    assert_eq!(get_num_subwindows_2d(4, 1), (2, 2));
    assert_eq!(get_num_subwindows_2d(64, 1), (8, 8));
    assert_eq!(get_num_subwindows_2d(12, 0), (4, 3));
    assert_eq!(get_num_subwindows_2d(7, 0), (1, 7));
    assert_eq!(get_num_subwindows_2d(0, 3), (1, 0));
    for count in 1..200 {
        for aspect in 0..5 {
            let (nx, ny) = get_num_subwindows_2d(count, aspect);
            assert_eq!(nx * ny, count);
        }
    }
}

#[test]
fn subwindow_overflow_is_detected() {
    assert!(subwindows_fit_in_usize(4, 1));
    assert!(subwindows_fit_in_usize(7, usize::MAX));
    assert!(!subwindows_fit_in_usize(4, usize::MAX));
    assert!(!subwindows_fit_in_usize(0, usize::MAX / 2 + 1));
    assert!(subwindows_fit_in_usize(0, usize::MAX / 2));
}

#[test]
fn constant_textures_hold_their_value() {
    assert_eq!(ConstantTexture::new(32u32), ConstantTexture::new(32u32));
    assert!(ConstantTexture::new(1u8) != ConstantTexture::new(2u8));
}

#[test]
fn spectrum_types_are_ordered() {
    assert!(SpectrumType::Reflectance < SpectrumType::Illumination);
    assert_eq!(SpectrumType::Reflectance, SpectrumType::Reflectance);
}

#[test]
fn whitted_integrators_can_be_made() {
    let _default = WhittedIntegrator::new();
    let _deep = WhittedIntegrator::with_depth(12);
}

#[test]
fn van_der_corput_bits_reverse_and_scramble() {
    assert_eq!(van_der_corput_bits(0, 0), 0);
    // the bits of n reversed: 1 -> 1/2, 2 -> 1/4, 3 -> 3/4
    assert_eq!(van_der_corput_bits(1, 0), 0x80_0000);
    assert_eq!(van_der_corput_bits(2, 0), 0x40_0000);
    assert_eq!(van_der_corput_bits(3, 0), 0xC0_0000);
    assert_eq!(van_der_corput_bits(0x100, 0), 0x8000);
    // the scramble flips bits 8 to 31 of the word
    assert_eq!(van_der_corput_bits(0, 0xffff_ffff), 0xff_ffff);
    assert_eq!(van_der_corput_bits(0, 0x0000_01ff), 1);
    for n in 0..2000u32 {
        assert!(van_der_corput_bits(n, n.wrapping_mul(2654435761)) < (1 << 24));
    }
}

#[test]
fn sobol2_bits_xor_the_directions_of_clear_bits() {
    assert_eq!(sobol2_bits(0, 0), 0);
    // n = 1: its one bit is set, nothing is XOR-ed in
    assert_eq!(sobol2_bits(1, 0), 0);
    // n = 2: bit 0 is clear, direction 0 (1 << 31) is XOR-ed in
    assert_eq!(sobol2_bits(2, 0), 0x80_0000);
    // n = 4: directions 0 and 1 (0x8000_0000 ^ 0xC000_0000 = 0x4000_0000)
    assert_eq!(sobol2_bits(4, 0), 0x40_0000);
    assert_eq!(sobol2_bits(0, 0xABCD_EF12), 0xAB_CDEF);
}

#[test]
fn sub_windows_split_wide_and_tall_windows() {
    // a square window keeps splitting until tiles are no more than twice as high as wide
    assert_eq!(sub_window_tiles(4, 100, 100), (2, 2));
    // a wide window keeps all the columns
    assert_eq!(sub_window_tiles(8, 800, 100), (8, 1));
    // a tall window moves columns into rows
    assert_eq!(sub_window_tiles(8, 100, 800), (1, 8));
    assert_eq!(sub_window_tiles(6, 10, 10), (3, 2));
    assert_eq!(sub_window_tiles(0, 10, 10), (0, 1));
    for count in 0..100 {
        let (nx, ny) = sub_window_tiles(count, 64, 48);
        assert_eq!(nx * ny, count);
    }
    assert!(sub_window_tiles_fit(4, 100, 100));
    assert!(!sub_window_tiles_fit(4, usize::MAX, 1));
    assert!(!sub_window_tiles_fit(4, 1, usize::MAX));
    assert!(sub_window_tiles_fit(3, usize::MAX, usize::MAX));
}

#[test]
fn next_pixel_moves_along_a_row_then_wraps() {
    assert_eq!(next_pixel(0, 0, 0, 2), (1, 0));
    assert_eq!(next_pixel(1, 0, 0, 2), (0, 1));
    assert_eq!(next_pixel(-3, 4, -3, 5), (-2, 4));
}

#[test]
fn stepping_visits_the_window_in_raster_order() {
    let (x_start, x_end, y_start, y_end) = (5, 8, 7, 9);
    let mut visited = Vec::new();
    let (mut x, mut y) = (x_start, y_start);
    while y != y_end {
        visited.push((x, y));
        let (nx, ny) = next_pixel(x, y, x_start, x_end);
        x = nx;
        y = ny;
    }
    assert_eq!(visited, vec![(5, 7), (6, 7), (7, 7), (5, 8), (6, 8), (7, 8)]);
    assert_eq!((x, y), (x_start, y_end));
}

#[test]
fn const_texture_works() {
    let tex = ConstantTexture::new(32u32);
    assert_eq!(tex.evaluate(&()), 32u32);
}

#[test]
fn ld_pixel_samples_need_five_floats_each_plus_integrator_values() {
    assert_eq!(ld_pixel_sample_floats_needed(&[], &[], 1), 5);
    assert_eq!(ld_pixel_sample_floats_needed(&[], &[], 0), 0);
    assert_eq!(ld_pixel_sample_floats_needed(&[1, 2], &[3], 4), (5 + 3 + 2 * 3) * 4);
}
