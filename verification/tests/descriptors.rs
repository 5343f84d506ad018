use rs_custom_bit_width_packer::{BitInfo, BitPack, Construct};

#[test]
fn insert_data_one_data() {
    let mut bit_pack: BitPack = BitPack::new();
    bit_pack.set_new("Hello", 4, 7).unwrap();

    assert_eq!(
        bit_pack.get_bit_info(0),
        &BitInfo {
            starting_bit_mask: 0b0000_1111,
            ending_bit_mask: 0b0000_1111,
            starting_array_index_inc: 0,
            ending_array_index_exc: 1
        }
    );
}

#[test]
fn insert_data_two_datas() {
    let mut bit_pack: BitPack = BitPack::new();
    bit_pack.set_new("Hello", 4, 7).unwrap();

    assert_eq!(
        bit_pack.get_bit_info(0),
        &BitInfo {
            starting_bit_mask: 0b0000_1111,
            ending_bit_mask: 0b0000_1111,
            starting_array_index_inc: 0,
            ending_array_index_exc: 1
        }
    );

    bit_pack.set_new("World", 4, 6).unwrap();

    assert_eq!(
        bit_pack.get_bit_info(1),
        &BitInfo {
            starting_bit_mask: 0b1111_0000,
            ending_bit_mask: 0b1111_0000,
            starting_array_index_inc: 0,
            ending_array_index_exc: 1
        }
    );
}

#[test]
fn insert_data_two_datas_with_overflow() {
    let mut bit_pack: BitPack = BitPack::new();
    bit_pack.set_new("Hello", 4, 7).unwrap();

    assert_eq!(
        bit_pack.get_bit_info(0),
        &BitInfo {
            starting_bit_mask: 0b0000_1111,
            ending_bit_mask: 0b0000_1111,
            starting_array_index_inc: 0,
            ending_array_index_exc: 1
        }
    );

    bit_pack.set_new("World", 5, 30).unwrap();

    assert_eq!(
        bit_pack.get_bit_info(1),
        &BitInfo {
            starting_bit_mask: 0b1111_0000,
            ending_bit_mask: 0b0000_0001,
            starting_array_index_inc: 0,
            ending_array_index_exc: 2
        }
    );
}

#[test]
fn insert_data_three_datas() {
    let mut bit_pack: BitPack = BitPack::new();
    bit_pack.set_new("Hello", 4, 7).unwrap();

    assert_eq!(
        bit_pack.get_bit_info(0),
        &BitInfo {
            starting_bit_mask: 0b0000_1111,
            ending_bit_mask: 0b0000_1111,
            starting_array_index_inc: 0,
            ending_array_index_exc: 1
        }
    );

    bit_pack.set_new("World", 4, 6).unwrap();

    assert_eq!(
        bit_pack.get_bit_info(1),
        &BitInfo {
            starting_bit_mask: 0b1111_0000,
            ending_bit_mask: 0b1111_0000,
            starting_array_index_inc: 0,
            ending_array_index_exc: 1
        }
    );

    bit_pack.set_new("Zack", 4, 3).unwrap();

    assert_eq!(
        bit_pack.get_bit_info(2),
        &BitInfo {
            starting_bit_mask: 0b0000_1111,
            ending_bit_mask: 0b0000_1111,
            starting_array_index_inc: 1,
            ending_array_index_exc: 2
        }
    );
}

#[test]
fn insert_data_four_datas() {
    let mut bit_pack: BitPack = BitPack::new();
    bit_pack.set_new("Hello", 4, 7).unwrap();

    assert_eq!(
        bit_pack.get_bit_info(0),
        &BitInfo {
            starting_bit_mask: 0b0000_1111,
            ending_bit_mask: 0b0000_1111,
            starting_array_index_inc: 0,
            ending_array_index_exc: 1
        }
    );

    bit_pack.set_new("World", 4, 6).unwrap();

    assert_eq!(
        bit_pack.get_bit_info(1),
        &BitInfo {
            starting_bit_mask: 0b1111_0000,
            ending_bit_mask: 0b1111_0000,
            starting_array_index_inc: 0,
            ending_array_index_exc: 1
        }
    );

    bit_pack.set_new("Zack", 4, 3).unwrap();

    assert_eq!(
        bit_pack.get_bit_info(2),
        &BitInfo {
            starting_bit_mask: 0b0000_1111,
            ending_bit_mask: 0b0000_1111,
            starting_array_index_inc: 1,
            ending_array_index_exc: 2
        }
    );

    bit_pack.set_new("World", 5, 30).unwrap();

    assert_eq!(
        bit_pack.get_bit_info(3),
        &BitInfo {
            starting_bit_mask: 0b1111_0000,
            ending_bit_mask: 0b0000_0001,
            starting_array_index_inc: 1,
            ending_array_index_exc: 3
        }
    );
}

#[test]
fn insert_two_data_with_overflow_get_correct_data() {
    let mut bit_pack: BitPack = BitPack::new();
    bit_pack.set_new("Hello", 4, 7).unwrap();

    assert_eq!(
        bit_pack.get_bit_info(0),
        &BitInfo {
            starting_bit_mask: 0b0000_1111,
            ending_bit_mask: 0b0000_1111,
            starting_array_index_inc: 0,
            ending_array_index_exc: 1
        }
    );

    bit_pack.set_new("World", 5, 30).unwrap();

    assert_eq!(
        bit_pack.get_bit_info(1),
        &BitInfo {
            starting_bit_mask: 0b1111_0000,
            ending_bit_mask: 0b0000_0001,
            starting_array_index_inc: 0,
            ending_array_index_exc: 2
        }
    );

    assert_eq!(bit_pack.get::<u8>("World").unwrap(), 30);
    assert_eq!(bit_pack.get::<u8>("World").unwrap().leading_zeros(), 3);

    assert_eq!(bit_pack.get::<u16>("World").unwrap(), 30);
    assert_eq!(bit_pack.get::<u16>("World").unwrap().leading_zeros(), 11);

    assert_eq!(bit_pack.get::<u32>("World").unwrap(), 30);
    assert_eq!(bit_pack.get::<u32>("World").unwrap().leading_zeros(), 27);

    assert_eq!(bit_pack.get::<u64>("World").unwrap(), 30);
    assert_eq!(bit_pack.get::<u64>("World").unwrap().leading_zeros(), 59);

    assert_eq!(bit_pack.get::<u128>("World").unwrap(), 30);
    assert_eq!(bit_pack.get::<u128>("World").unwrap().leading_zeros(), 123);
}
