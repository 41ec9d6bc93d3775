use pagetree::bits::{pack_bits, unpack_bits};
use pagetree::page::{Page, PageType, NO_PAGE, PAGE_SIZE};
use pagetree::values::{DateTime, Serializable, SerializeError, Type, Value, VarChar};

#[test]
fn test_serialize_page() {
    let page: Page<i32, i32> = Page {
        id: 1310,
        ptype: PageType::Leaf,
        keys: vec![44, 45, 49, 50, 55, 60],
        vals: vec![45, 46, 50, 51, 56, 61],
        deleted: vec![false, false, false, true, false, false],
        sibling: None,
        children: vec![],
    };
    let bytes = page.to_bytes();
    let res: Result<(usize, Page<i32, i32>), SerializeError> = Page::from_bytes(&bytes);
    assert!(res.is_ok());
    let (_, got_page) = res.unwrap();
    assert_eq!(page.id, got_page.id);
    assert_eq!(page.ptype, got_page.ptype);
    assert_eq!(page.keys, got_page.keys);
    assert_eq!(page.vals, got_page.vals);
    assert_eq!(page.deleted, got_page.deleted);
}

#[test]
fn test_pack_bits() {
    // 01101001 11000001 10110100 0011
    let bits = vec![
        false, true, true, false, true, false, false, true, true, true, false, false, false,
        false, false, true, true, false, true, true, false, true, false, false, false, false,
        true, true,
    ];
    let len = bits.len();
    let bytes = pack_bits(&bits);

    let unpacked = unpack_bits(len, &bytes[..]);
    for i in 0..bits.len() {
        assert_eq!(bits[i], unpacked[i]);
    }
}

#[test]
fn test_serialize_row() {
    let row = vec![
        Value::Int(163),
        Value::VarChar(VarChar::new("季文子三思而後行。子聞之、曰。再、斯可矣。")),
        Value::DateTime(DateTime {
            year: 2024,
            month: 8,
            day: 13,
            hour: 21,
            minute: 6,
            second: 0,
        }),
    ];
    let bytes = row.to_bytes();
    let deser = Vec::from_bytes(&bytes);
    assert!(deser.is_ok());
    let (_, got_row) = deser.unwrap();
    assert_eq!(got_row.len(), 3);
    assert_eq!(row[0], got_row[0]);
    assert_eq!(row[1], got_row[1]);
    assert_eq!(row[2], got_row[2]);
}

#[test]
fn pack_bits_puts_the_first_flag_highest() {
    let bits = vec![
        false, true, true, false, true, false, false, true, true, true, false, false, false,
        false, false, true, true, false, true, true, false, true, false, false, false, false,
        true, true,
    ];
    assert_eq!(pack_bits(&bits), vec![0b0110_1001, 0b1100_0001, 0b1011_0100, 0b0011_0000]);
    assert_eq!(pack_bits(&vec![]), Vec::<u8>::new());
    assert_eq!(pack_bits(&vec![true]), vec![0x80]);
    assert_eq!(pack_bits(&vec![false; 8]), vec![0]);
    assert_eq!(pack_bits(&vec![true; 9]), vec![0xff, 0x80]);
}

#[test]
fn unpack_bits_truncates_to_the_length() {
    assert_eq!(unpack_bits(3, &[0b1010_0000]), vec![true, false, true]);
    assert_eq!(unpack_bits(0, &[0xff]), Vec::<bool>::new());
    assert_eq!(unpack_bits(20, &[0xff]), vec![true; 8]);
    assert_eq!(
        unpack_bits(10, &[0x01, 0x80]),
        vec![false, false, false, false, false, false, false, true, true, false]
    );
}

#[test]
fn int_is_four_bytes_little_endian() {
    assert_eq!(1i32.to_bytes(), vec![1, 0, 0, 0]);
    assert_eq!(0x0102_0304i32.to_bytes(), vec![4, 3, 2, 1]);
    assert_eq!((-1i32).to_bytes(), vec![0xff, 0xff, 0xff, 0xff]);
    assert_eq!((-2i32).to_bytes(), vec![0xfe, 0xff, 0xff, 0xff]);
    assert_eq!(i32::MIN.to_bytes(), vec![0, 0, 0, 0x80]);
    assert_eq!(i32::MAX.to_bytes(), vec![0xff, 0xff, 0xff, 0x7f]);
    for n in [0, 1, -1, 163, -70, i32::MIN, i32::MAX, 2345087] {
        assert_eq!(n.to_bytes(), n.to_le_bytes().to_vec());
        assert_eq!(i32::from_bytes(&n.to_bytes()), Ok((4, n)));
        assert_eq!(n.size(), 4);
    }
    assert_eq!(i32::from_bytes(&[1, 2, 3]), Err(SerializeError::InvalidByteLen));
    assert_eq!(i32::from_bytes(&[1, 0, 0, 0, 9, 9]), Ok((4, 1)));
}

#[test]
fn varchar_is_length_then_utf8() {
    let vc = VarChar::new("héllo");
    assert_eq!(vc.val, "héllo");
    assert_eq!(vc.max_len, 8192);
    let bytes = vc.to_bytes();
    assert_eq!(bytes, vec![6, 0, 0, 0, b'h', 0xc3, 0xa9, b'l', b'l', b'o']);
    assert_eq!(vc.size(), 10);
    let (n, back) = VarChar::from_bytes(&bytes).unwrap();
    assert_eq!(n, 10);
    assert_eq!(back, vc);
    let empty = VarChar::new("");
    assert_eq!(empty.to_bytes(), vec![0, 0, 0, 0]);
    assert_eq!(VarChar::from_bytes(&[0, 0, 0, 0, 7]).unwrap(), (4, empty));
    let (used, read) = VarChar::from_bytes(&[2, 0, 0, 0, 0x61, 0x62, 0x63]).unwrap();
    assert_eq!((used, read.val.as_str(), read.max_len), (6, "ab", 8192));
}

#[test]
fn varchar_rejects_bad_input() {
    assert_eq!(VarChar::from_bytes(&[1, 0, 0]), Err(SerializeError::InvalidByteLen));
    assert_eq!(VarChar::from_bytes(&[3, 0, 0, 0, b'a', b'b']), Err(SerializeError::InvalidByteLen));
    assert_eq!(VarChar::from_bytes(&[2, 0, 0, 0, 0xc3, 0x28]), Err(SerializeError::InvalidUtf8));
    assert_eq!(VarChar::from_bytes(&[1, 0, 0, 0, 0xff]), Err(SerializeError::InvalidUtf8));
}

#[test]
fn datetime_packs_two_decimal_numbers() {
    let dt = DateTime { year: 2024, month: 8, day: 13, hour: 21, minute: 6, second: 0 };
    let bytes = dt.to_bytes();
    let mut expected = 20240813u32.to_le_bytes().to_vec();
    expected.extend(210600u32.to_le_bytes());
    assert_eq!(bytes, expected);
    assert_eq!(dt.size(), 8);
    assert_eq!(DateTime::from_bytes(&bytes), Ok((8, dt)));
    assert_eq!(DateTime::from_bytes(&bytes[..7]), Err(SerializeError::InvalidByteLen));
}

#[test]
fn datetime_with_a_wide_part_decodes_to_its_normal_form() {
    let dt = DateTime { year: 1, month: 100, day: 0, hour: 0, minute: 0, second: 100 };
    let (_, back) = DateTime::from_bytes(&dt.to_bytes()).unwrap();
    assert_eq!(back, DateTime { year: 2, month: 0, day: 0, hour: 0, minute: 1, second: 0 });
}

#[test]
fn value_carries_its_kind() {
    assert_eq!(Value::Int(163).to_bytes(), vec![0, 163, 0, 0, 0]);
    assert_eq!(Value::VarChar(VarChar::new("a")).to_bytes(), vec![1, 1, 0, 0, 0, b'a']);
    let dt = DateTime { year: 0, month: 0, day: 1, hour: 0, minute: 0, second: 2 };
    assert_eq!(Value::DateTime(dt).to_bytes(), vec![2, 1, 0, 0, 0, 2, 0, 0, 0]);
    assert_eq!(Value::Int(163).vtype(), Type::Int);
    assert_eq!(Value::VarChar(VarChar::new("a")).vtype(), Type::VarChar);
    assert_eq!(Value::DateTime(dt).vtype(), Type::DateTime);
    assert_eq!(Value::Int(163).size(), 4);
    assert_eq!(Value::DateTime(dt).size(), 8);
    assert_eq!(Value::from_bytes(&[0, 163, 0, 0, 0]), Ok((5, Value::Int(163))));
    assert_eq!(Value::from_bytes(&[2, 1, 0, 0, 0, 2, 0, 0, 0]), Ok((9, Value::DateTime(dt))));
    assert_eq!(Value::from_bytes(&[]), Err(SerializeError::InvalidByteLen));
    assert_eq!(Value::from_bytes(&[0, 1, 2]), Err(SerializeError::InvalidByteLen));
    assert_eq!(Value::from_bytes(&[3, 0, 0, 0, 0]), Err(SerializeError::InvalidType));
    assert_eq!(Value::from_bytes(&[1, 1, 0, 0, 0, 0xff]), Err(SerializeError::InvalidUtf8));
}

#[test]
fn type_tags() {
    assert_eq!(Type::Int.tag(), 0);
    assert_eq!(Type::VarChar.tag(), 1);
    assert_eq!(Type::DateTime.tag(), 2);
    assert_eq!(Type::from_tag(0), Some(Type::Int));
    assert_eq!(Type::from_tag(1), Some(Type::VarChar));
    assert_eq!(Type::from_tag(2), Some(Type::DateTime));
    assert_eq!(Type::from_tag(3), None);
}

#[test]
fn row_is_count_then_values() {
    let row = vec![Value::Int(1), Value::Int(-1)];
    let bytes = row.to_bytes();
    assert_eq!(bytes, vec![2, 0, 0, 0, 0, 1, 0, 0, 0, 0, 0xff, 0xff, 0xff, 0xff]);
    assert_eq!(row.size(), 14);
    assert_eq!(Vec::<Value>::from_bytes(&bytes), Ok((14, row)));
    let none: Vec<Value> = vec![];
    assert_eq!(none.to_bytes(), vec![0, 0, 0, 0]);
    assert_eq!(Vec::<Value>::from_bytes(&[0, 0, 0, 0]), Ok((4, none)));
    assert_eq!(Vec::<Value>::from_bytes(&[1, 0, 0]), Err(SerializeError::InvalidByteLen));
    assert_eq!(Vec::<Value>::from_bytes(&[2, 0, 0, 0, 0, 1, 0, 0, 0]), Err(SerializeError::InvalidByteLen));
    assert_eq!(Vec::<Value>::from_bytes(&[1, 0, 0, 0, 9]), Err(SerializeError::InvalidType));
}

#[test]
fn leaf_layout_is_header_keys_sibling_flags_values() {
    let page: Page<i32, i32> = Page {
        id: 1310,
        ptype: PageType::Leaf,
        keys: vec![44, 45, 49, 50, 55, 60],
        vals: vec![45, 46, 50, 51, 56, 61],
        deleted: vec![false, false, false, true, false, false],
        sibling: None,
        children: vec![],
    };
    let bytes = page.to_bytes();
    assert_eq!(bytes.len(), PAGE_SIZE);
    assert_eq!(bytes.len(), 65536);
    let mut expected: Vec<u8> = vec![];
    expected.extend(1310u32.to_le_bytes());
    expected.push(0);
    expected.extend(4u32.to_le_bytes());
    expected.extend(6u32.to_le_bytes());
    for k in [44i32, 45, 49, 50, 55, 60] {
        expected.extend(k.to_le_bytes());
    }
    expected.extend(0xFFFF_FFFFu32.to_le_bytes());
    expected.push(0b0001_0000);
    for v in [45i32, 46, 50, 51, 56, 61] {
        expected.extend(v.to_le_bytes());
    }
    assert_eq!(&bytes[..expected.len()], &expected[..]);
    assert!(bytes[expected.len()..].iter().all(|&b| b == 0));
    let (n, got) = Page::<i32, i32>::from_bytes(&bytes).ok().unwrap();
    assert_eq!(n, expected.len());
    assert_eq!(got.sibling, None);
    assert!(got.children.is_empty());
}

#[test]
fn leaf_keeps_its_sibling() {
    let page: Page<i32, i32> = Page {
        id: 7,
        ptype: PageType::Leaf,
        keys: vec![1],
        vals: vec![2],
        deleted: vec![true],
        sibling: Some(9),
        children: vec![],
    };
    let (_, got) = Page::<i32, i32>::from_bytes(&page.to_bytes()).ok().unwrap();
    assert_eq!(got.sibling, Some(9));
    assert_eq!(got.deleted, vec![true]);
}

#[test]
fn interior_page_stores_one_slot_more_than_keys() {
    let full: Page<i32, i32> = Page {
        id: 3,
        ptype: PageType::Interior,
        keys: vec![10, 20],
        vals: vec![],
        deleted: vec![],
        sibling: None,
        children: vec![5, 6, 7],
    };
    let bytes = full.to_bytes();
    let mut expected: Vec<u8> = vec![];
    expected.extend(3u32.to_le_bytes());
    expected.push(1);
    expected.extend(4u32.to_le_bytes());
    expected.extend(2u32.to_le_bytes());
    expected.extend(10i32.to_le_bytes());
    expected.extend(20i32.to_le_bytes());
    for c in [5u32, 6, 7] {
        expected.extend(c.to_le_bytes());
    }
    assert_eq!(&bytes[..expected.len()], &expected[..]);
    let (n, got) = Page::<i32, i32>::from_bytes(&bytes).ok().unwrap();
    assert_eq!(n, expected.len());
    assert_eq!(got.ptype, PageType::Interior);
    assert_eq!(got.keys, vec![10, 20]);
    assert_eq!(got.children, vec![5, 6, 7]);

    let bounded: Page<i32, i32> = Page {
        id: 4,
        ptype: PageType::Interior,
        keys: vec![10, 20],
        vals: vec![],
        deleted: vec![],
        sibling: None,
        children: vec![5, 6],
    };
    let bytes = bounded.to_bytes();
    assert_eq!(&bytes[21..33], &[5, 0, 0, 0, 6, 0, 0, 0, 0xff, 0xff, 0xff, 0xff]);
    assert_eq!(NO_PAGE, 0xFFFF_FFFF);
    let (_, got) = Page::<i32, i32>::from_bytes(&bytes).ok().unwrap();
    assert_eq!(got.children, vec![5, 6]);
}

#[test]
fn page_decoder_rejects_short_input() {
    let short: Result<(usize, Page<i32, i32>), SerializeError> = Page::from_bytes(&[0u8; 12]);
    assert_eq!(short.err(), Some(SerializeError::InvalidByteLen));
    let mut bytes: Vec<u8> = vec![];
    bytes.extend(1u32.to_le_bytes());
    bytes.push(0);
    bytes.extend(4u32.to_le_bytes());
    bytes.extend(2u32.to_le_bytes());
    bytes.extend(7i32.to_le_bytes());
    let cut: Result<(usize, Page<i32, i32>), SerializeError> = Page::from_bytes(&bytes);
    assert_eq!(cut.err(), Some(SerializeError::InvalidByteLen));
    let empty: Result<(usize, Page<i32, i32>), SerializeError> = Page::from_bytes(&[0u8; 13]);
    assert_eq!(empty.err(), Some(SerializeError::InvalidByteLen));
    let (n, page) = Page::<i32, i32>::from_bytes(&[0u8; 17]).ok().unwrap();
    assert_eq!(n, 17);
    assert_eq!(page.id, 0);
    assert_eq!(page.ptype, PageType::Leaf);
    assert!(page.keys.is_empty());
    assert_eq!(page.sibling, Some(0));
}

#[test]
fn page_find_gives_the_first_place_not_before_the_key() {
    let page: Page<i32, i32> = Page {
        id: 0,
        ptype: PageType::Leaf,
        keys: vec![10, 20, 20, 30],
        vals: vec![1, 2, 3, 4],
        deleted: vec![false; 4],
        sibling: None,
        children: vec![],
    };
    assert_eq!(page.find(&5), 0);
    assert_eq!(page.find(&10), 0);
    assert_eq!(page.find(&11), 1);
    assert_eq!(page.find(&20), 1);
    assert_eq!(page.find(&21), 3);
    assert_eq!(page.find(&30), 3);
    assert_eq!(page.find(&31), 4);
}

#[test]
fn page_search_finds_the_last_entry_of_a_key() {
    let page: Page<i32, i32> = Page {
        id: 0,
        ptype: PageType::Leaf,
        keys: vec![10, 20, 20, 20, 30],
        vals: vec![1, 2, 3, 4, 5],
        deleted: vec![false; 5],
        sibling: None,
        children: vec![],
    };
    assert_eq!(page.search(&5), Err(0));
    assert_eq!(page.search(&10), Ok(0));
    assert_eq!(page.search(&15), Err(1));
    assert_eq!(page.search(&20), Ok(3));
    assert_eq!(page.search(&25), Err(4));
    assert_eq!(page.search(&30), Ok(4));
    assert_eq!(page.search(&31), Err(5));
    assert_eq!(page.lower_bound(&20), 1);
    assert_eq!(page.upper_bound(&20), 4);
    assert_eq!(page.upper_bound(&5), 0);
    assert_eq!(page.upper_bound(&30), 5);
    for k in 0..40 {
        assert_eq!(page.lower_bound(&k), page.find(&k));
        let after = page.keys.iter().filter(|&&x| x <= k).count();
        assert_eq!(page.upper_bound(&k), after);
    }
}

#[test]
fn a_page_that_does_not_fit_has_no_slot() {
    let n = 8200;
    let big: Page<i32, i32> = Page {
        id: 1,
        ptype: PageType::Leaf,
        keys: (0..n).collect(),
        vals: (0..n).collect(),
        deleted: vec![false; n as usize],
        sibling: None,
        children: vec![],
    };
    assert!(big.try_to_bytes().is_none());
    let n = 8000;
    let fits: Page<i32, i32> = Page {
        id: 1,
        ptype: PageType::Leaf,
        keys: (0..n).collect(),
        vals: (0..n).collect(),
        deleted: vec![false; n as usize],
        sibling: None,
        children: vec![],
    };
    let bytes = fits.try_to_bytes().unwrap();
    assert_eq!(bytes.to_vec(), fits.to_bytes().to_vec());
    let (used, back) = Page::<i32, i32>::from_bytes(&bytes).ok().unwrap();
    assert_eq!(used, 13 + 4 * 8000 + 4 + 1000 + 4 * 8000);
    assert_eq!(back.keys, fits.keys);
    assert_eq!(back.vals, fits.vals);
    let ragged: Page<i32, i32> = Page {
        id: 1,
        ptype: PageType::Leaf,
        keys: vec![1, 2],
        vals: vec![1],
        deleted: vec![false, false],
        sibling: None,
        children: vec![],
    };
    assert!(ragged.try_to_bytes().is_none());
    let childless: Page<i32, i32> = Page {
        id: 1,
        ptype: PageType::Interior,
        keys: vec![1, 2],
        vals: vec![],
        deleted: vec![],
        sibling: None,
        children: vec![7],
    };
    assert!(childless.try_to_bytes().is_none());
}

#[test]
fn values_say_whether_they_have_a_byte_form() {
    assert!(7i32.can_encode());
    assert!(VarChar::new("abc").can_encode());
    let fine = DateTime { year: 429496, month: 72, day: 95, hour: 23, minute: 59, second: 59 };
    assert!(fine.can_encode());
    assert_eq!(fine.to_bytes()[..4], u32::MAX.to_le_bytes());
    let wide = DateTime { year: 429496, month: 72, day: 96, hour: 0, minute: 0, second: 0 };
    assert!(!wide.can_encode());
    assert!(!Value::DateTime(wide).can_encode());
    assert!(!vec![Value::Int(1), Value::DateTime(wide)].can_encode());
    assert!(vec![Value::Int(1), Value::DateTime(fine)].can_encode());
}
