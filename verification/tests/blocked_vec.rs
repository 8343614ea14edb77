use pbrt_rust::utils::blocked_vec::BlockedVec;

#[test]
fn blocked_vec_it_can_be_created() {
    let bvec: BlockedVec<f32> = BlockedVec::new(57, 92);

    assert_eq!(bvec.width(), 57);
    assert_eq!(bvec.height(), 92);
}

#[test]
fn it_can_hold_a_two_dimensional_array() {
    let width = 132;
    let height = 256;
    let mut bvec: BlockedVec<u8> = BlockedVec::new(width, height);

    for y in 0..height {
        for x in 0..width {
            *(bvec.get_mut(x, y).unwrap()) = y as u8;
        }
    }

    for y in 0..height {
        for x in 0..width {
            assert_eq!(*(bvec.get(x, y).unwrap()), y as u8);
        }
    }
}

#[test]
fn it_can_be_initialized_with_existing_memory() {
    let width = 23;
    let height = 14;
    let mut vec: Vec<u8> = Vec::new();

    for y in 0..height {
        for x in 0..width {
            vec.push((x & y) as u8);
        }
    }

    let bvec = BlockedVec::new_with(width, height, vec);
    for y in 0..height {
        for x in 0..width {
            assert_eq!(*(bvec.get(x, y).unwrap()), (x & y) as u8);
        }
    }
}

#[test]
fn it_recognized_out_of_bounds() {
    let width = 54;
    let height = 29;
    let bvec: BlockedVec<u8> = BlockedVec::new(width, height);

    assert_eq!(bvec.get(55, 28), None);
    assert_eq!(bvec.get(54, 28), None);
    assert_eq!(bvec.get(53, 29), None);
    assert_eq!(bvec.get(200, 300), None);
    assert!(bvec.get(0, 0).is_some());
    assert!(bvec.get(53, 28).is_some());
}

#[test]
fn a_write_changes_only_its_own_cell() {
    let width = 70;
    let height = 40;
    let mut bvec: BlockedVec<u32> = BlockedVec::new(width, height);
    for y in 0..height {
        for x in 0..width {
            *(bvec.get_mut(x, y).unwrap()) = (y * width + x) as u32;
        }
    }
    *(bvec.get_mut(33, 35).unwrap()) = 999_999;
    for y in 0..height {
        for x in 0..width {
            let expected = if x == 33 && y == 35 { 999_999 } else { (y * width + x) as u32 };
            assert_eq!(*(bvec.get(x, y).unwrap()), expected);
        }
    }
}

#[test]
fn new_cells_hold_the_default_value() {
    let bvec: BlockedVec<u64> = BlockedVec::new(33, 1);
    for x in 0..33 {
        assert_eq!(*(bvec.get(x, 0).unwrap()), 0);
    }
    assert!(bvec.get(33, 0).is_none());
}

#[test]
fn writes_out_of_bounds_are_refused() {
    let mut bvec: BlockedVec<u8> = BlockedVec::new(3, 3);
    assert!(bvec.get_mut(3, 0).is_none());
    assert!(bvec.get_mut(0, 3).is_none());
    let empty: BlockedVec<u8> = BlockedVec::new(0, 0);
    assert_eq!(empty.width(), 0);
    assert!(empty.get(0, 0).is_none());
}
