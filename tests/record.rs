use calvinite::record::Record;

#[test]
fn storage_key_is_little_endian() {
    let r = Record { id: 0x0102 };
    assert_eq!(r.storage_key(), vec![2, 1, 0, 0, 0, 0, 0, 0]);
}

#[test]
fn storage_key_round_trips() {
    for id in [0u64, 1, 999, u64::MAX] {
        let r = Record { id };
        assert_eq!(Record::from_storage_key(&r.storage_key()), Some(r));
    }
    assert_eq!(Record::from_storage_key(&vec![1, 2, 3]), None);
}

#[test]
fn virtual_node_is_first_two_md5_bytes() {
    let r = Record { id: 1 };
    let digest: [u8; 16] = md5::compute(1u64.to_le_bytes()).into();
    assert_eq!(r.virtual_node(), u16::from_le_bytes([digest[0], digest[1]]));
}

#[test]
fn fully_qualified_key_prefixes_virtual_node() {
    let r = Record { id: 7 };
    let key = r.fully_qualified_id_as_bytes();
    assert_eq!(key.len(), 10);
    assert_eq!(u16::from_le_bytes([key[0], key[1]]), r.virtual_node());
    assert_eq!(key[2..].to_vec(), r.storage_key());
}
