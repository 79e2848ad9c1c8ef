use flexihash::{hash, Hasher};

#[test]
fn lib_test_md5() {
    assert_eq!(
        hash(&Hasher::Md5, "test"),
        u128::from_str_radix("098f6bcd4621d373cade4e832627b4f6", 16).unwrap()
    );
    assert_eq!(
        hash(&Hasher::Md5, "test"),
        u128::from_str_radix("098f6bcd4621d373cade4e832627b4f6", 16).unwrap()
    );
    assert_eq!(
        hash(&Hasher::Md5, "different"),
        u128::from_str_radix("29e4b66fa8076de4d7a26c727b8dbdfa", 16).unwrap()
    );
}

#[test]
fn lib_test_crc32() {
    assert_eq!(hash(&Hasher::Crc32, &String::from("test")), 3632233996);
    assert_eq!(hash(&Hasher::Crc32, &String::from("test")), 3632233996);
    assert_eq!(hash(&Hasher::Crc32, &String::from("different")), 1812431075);
}

#[test]
fn mock_hasher_reports_its_position() {
    assert_eq!(hash(&Hasher::Mock("35".to_string()), "anything"), 35);
    assert_eq!(hash(&Hasher::Mock("0".to_string()), ""), 0);
    assert_eq!(hash(&Hasher::Mock("007".to_string()), "x"), 7);
}

#[test]
fn mock_hasher_reads_the_largest_position() {
    let text = u128::MAX.to_string();
    assert_eq!(hash(&Hasher::Mock(text), "x"), u128::MAX);
}

#[test]
fn hashers_of_the_empty_string() {
    assert_eq!(hash(&Hasher::Crc32, ""), 0);
    assert_eq!(
        hash(&Hasher::Md5, ""),
        u128::from_str_radix("d41d8cd98f00b204e9800998ecf8427e", 16).unwrap()
    );
}

#[test]
fn hashers_read_multibyte_characters() {
    // "é" is the two bytes c3 a9 in UTF-8.
    assert_eq!(hash(&Hasher::Crc32, "é"), crc_of_bytes(&[0xc3, 0xa9]));
}

fn crc_of_bytes(bytes: &[u8]) -> u128 {
    let mut crc: u32 = 0xffff_ffff;
    for b in bytes {
        crc ^= *b as u32;
        for _ in 0..8 {
            crc = if crc & 1 == 1 { (crc >> 1) ^ 0xedb8_8320 } else { crc >> 1 };
        }
    }
    (!crc) as u128
}
