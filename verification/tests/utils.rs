use pbrt_rust::utils::{modulo, Clamp};

#[test]
fn utils_it_can_clamp_numbers() {
    assert_eq!(Clamp::clamp(0i8, 1i8, 2i8), 1i8);
    assert_eq!(Clamp::clamp(1i8, 1i8, 2i8), 1i8);
    assert_eq!(Clamp::clamp(2i8, 1i8, 3i8), 2i8);
    assert_eq!(Clamp::clamp(2i8, 1i8, 2i8), 2i8);
    assert_eq!(Clamp::clamp(3i8, 1i8, 2i8), 2i8);

    assert_eq!(Clamp::clamp(0i16, 1i16, 2i16), 1i16);
    assert_eq!(Clamp::clamp(1i16, 1i16, 2i16), 1i16);
    assert_eq!(Clamp::clamp(2i16, 1i16, 3i16), 2i16);
    assert_eq!(Clamp::clamp(2i16, 1i16, 2i16), 2i16);
    assert_eq!(Clamp::clamp(3i16, 1i16, 2i16), 2i16);

    assert_eq!(Clamp::clamp(0i32, 1i32, 2i32), 1i32);
    assert_eq!(Clamp::clamp(1i32, 1i32, 2i32), 1i32);
    assert_eq!(Clamp::clamp(2i32, 1i32, 3i32), 2i32);
    assert_eq!(Clamp::clamp(2i32, 1i32, 2i32), 2i32);
    assert_eq!(Clamp::clamp(3i32, 1i32, 2i32), 2i32);

    assert_eq!(Clamp::clamp(0i64, 1i64, 2i64), 1i64);
    assert_eq!(Clamp::clamp(1i64, 1i64, 2i64), 1i64);
    assert_eq!(Clamp::clamp(2i64, 1i64, 3i64), 2i64);
    assert_eq!(Clamp::clamp(2i64, 1i64, 2i64), 2i64);
    assert_eq!(Clamp::clamp(3i64, 1i64, 2i64), 2i64);

    assert_eq!(Clamp::clamp(0u8, 1u8, 2u8), 1u8);
    assert_eq!(Clamp::clamp(1u8, 1u8, 2u8), 1u8);
    assert_eq!(Clamp::clamp(2u8, 1u8, 3u8), 2u8);
    assert_eq!(Clamp::clamp(2u8, 1u8, 2u8), 2u8);
    assert_eq!(Clamp::clamp(3u8, 1u8, 2u8), 2u8);

    assert_eq!(Clamp::clamp(0u16, 1u16, 2u16), 1u16);
    assert_eq!(Clamp::clamp(1u16, 1u16, 2u16), 1u16);
    assert_eq!(Clamp::clamp(2u16, 1u16, 3u16), 2u16);
    assert_eq!(Clamp::clamp(2u16, 1u16, 2u16), 2u16);
    assert_eq!(Clamp::clamp(3u16, 1u16, 2u16), 2u16);

    assert_eq!(Clamp::clamp(0u32, 1u32, 2u32), 1u32);
    assert_eq!(Clamp::clamp(1u32, 1u32, 2u32), 1u32);
    assert_eq!(Clamp::clamp(2u32, 1u32, 3u32), 2u32);
    assert_eq!(Clamp::clamp(2u32, 1u32, 2u32), 2u32);
    assert_eq!(Clamp::clamp(3u32, 1u32, 2u32), 2u32);

    assert_eq!(Clamp::clamp(0u64, 1u64, 2u64), 1u64);
    assert_eq!(Clamp::clamp(1u64, 1u64, 2u64), 1u64);
    assert_eq!(Clamp::clamp(2u64, 1u64, 3u64), 2u64);
    assert_eq!(Clamp::clamp(2u64, 1u64, 2u64), 2u64);
    assert_eq!(Clamp::clamp(3u64, 1u64, 2u64), 2u64);
}

#[test]
fn mod_it_can_clamp_numbers() {
    assert_eq!(Clamp::clamp(0i8, 1i8, 2i8), 1i8);
    assert_eq!(Clamp::clamp(1i8, 1i8, 2i8), 1i8);
    assert_eq!(Clamp::clamp(2i8, 1i8, 3i8), 2i8);
    assert_eq!(Clamp::clamp(2i8, 1i8, 2i8), 2i8);
    assert_eq!(Clamp::clamp(3i8, 1i8, 2i8), 2i8);

    assert_eq!(Clamp::clamp(0i16, 1i16, 2i16), 1i16);
    assert_eq!(Clamp::clamp(1i16, 1i16, 2i16), 1i16);
    assert_eq!(Clamp::clamp(2i16, 1i16, 3i16), 2i16);
    assert_eq!(Clamp::clamp(2i16, 1i16, 2i16), 2i16);
    assert_eq!(Clamp::clamp(3i16, 1i16, 2i16), 2i16);

    assert_eq!(Clamp::clamp(0i32, 1i32, 2i32), 1i32);
    assert_eq!(Clamp::clamp(1i32, 1i32, 2i32), 1i32);
    assert_eq!(Clamp::clamp(2i32, 1i32, 3i32), 2i32);
    assert_eq!(Clamp::clamp(2i32, 1i32, 2i32), 2i32);
    assert_eq!(Clamp::clamp(3i32, 1i32, 2i32), 2i32);

    assert_eq!(Clamp::clamp(0i64, 1i64, 2i64), 1i64);
    assert_eq!(Clamp::clamp(1i64, 1i64, 2i64), 1i64);
    assert_eq!(Clamp::clamp(2i64, 1i64, 3i64), 2i64);
    assert_eq!(Clamp::clamp(2i64, 1i64, 2i64), 2i64);
    assert_eq!(Clamp::clamp(3i64, 1i64, 2i64), 2i64);

    assert_eq!(Clamp::clamp(0u8, 1u8, 2u8), 1u8);
    assert_eq!(Clamp::clamp(1u8, 1u8, 2u8), 1u8);
    assert_eq!(Clamp::clamp(2u8, 1u8, 3u8), 2u8);
    assert_eq!(Clamp::clamp(2u8, 1u8, 2u8), 2u8);
    assert_eq!(Clamp::clamp(3u8, 1u8, 2u8), 2u8);

    assert_eq!(Clamp::clamp(0u16, 1u16, 2u16), 1u16);
    assert_eq!(Clamp::clamp(1u16, 1u16, 2u16), 1u16);
    assert_eq!(Clamp::clamp(2u16, 1u16, 3u16), 2u16);
    assert_eq!(Clamp::clamp(2u16, 1u16, 2u16), 2u16);
    assert_eq!(Clamp::clamp(3u16, 1u16, 2u16), 2u16);

    assert_eq!(Clamp::clamp(0u32, 1u32, 2u32), 1u32);
    assert_eq!(Clamp::clamp(1u32, 1u32, 2u32), 1u32);
    assert_eq!(Clamp::clamp(2u32, 1u32, 3u32), 2u32);
    assert_eq!(Clamp::clamp(2u32, 1u32, 2u32), 2u32);
    assert_eq!(Clamp::clamp(3u32, 1u32, 2u32), 2u32);

    assert_eq!(Clamp::clamp(0u64, 1u64, 2u64), 1u64);
    assert_eq!(Clamp::clamp(1u64, 1u64, 2u64), 1u64);
    assert_eq!(Clamp::clamp(2u64, 1u64, 3u64), 2u64);
    assert_eq!(Clamp::clamp(2u64, 1u64, 2u64), 2u64);
    assert_eq!(Clamp::clamp(3u64, 1u64, 2u64), 2u64);
}

#[test]
fn it_can_do_modulo() {
    assert_eq!(modulo(1, 2), 1);
    assert_eq!(modulo(0, 2), 0);
    assert_eq!(modulo(2, 2), 0);
    assert_eq!(modulo(4, 3), 1);
    assert_eq!(modulo(-1, 2), 1);
    assert_eq!(modulo(-1, 3), 2);
    assert_eq!(modulo(-4, 3), 2);
    assert_eq!(modulo(-5, 3), 1);
}

#[test]
fn modulo_with_positive_divisor_lands_in_range() {
    for a in -50..50 {
        for b in 1..12 {
            let r = modulo(a, b);
            assert!(0 <= r && r < b);
            assert_eq!((a - r) % b, 0);
        }
    }
    assert_eq!(modulo(i32::MIN, 1), 0);
    assert_eq!(modulo(i32::MIN, 3), 1);
    assert_eq!(modulo(i32::MAX, 10), 7);
}

#[test]
fn modulo_with_negative_divisor_follows_truncation() {
    // remainder 2 keeps its sign; -2 comes out negative and is moved by b
    assert_eq!(modulo(5, -3), 2);
    assert_eq!(modulo(-5, -3), -5);
    assert_eq!(modulo(-6, -3), 0);
    assert_eq!(modulo(7, -7), 0);
}

#[test]
fn clamp_keeps_values_inside_the_range() {
    assert_eq!(Clamp::clamp(7usize, 3usize, 9usize), 7usize);
    assert_eq!(Clamp::clamp(0usize, 3usize, 9usize), 3usize);
    assert_eq!(Clamp::clamp(10usize, 3usize, 9usize), 9usize);
    assert_eq!(Clamp::clamp(-100i64, -5i64, 5i64), -5i64);
    assert_eq!(Clamp::clamp(100i64, -5i64, 5i64), 5i64);
    // an empty range: below `a` gives `a`, above `b` gives `b`
    assert_eq!(Clamp::clamp(0i32, 5i32, 1i32), 5i32);
    assert_eq!(Clamp::clamp(9i32, 5i32, 1i32), 1i32);
}
