use oof::blob::Blob;
use oof::Oof;
use std::collections::BTreeSet;

fn build_value(n: u8) -> [u8; 32] {
    let mut tmp = [0u8; 32];
    tmp[0] = n;
    tmp
}

fn blob_of(keys: &[u128], values: &[[u8; 32]]) -> Vec<u8> {
    let mut blob = (keys.len() as u32).to_le_bytes().to_vec();
    for key in keys {
        blob.extend_from_slice(&key.to_le_bytes());
    }
    for value in values {
        blob.extend_from_slice(value);
    }
    blob
}

#[test]
fn to_bytes_of_the_empty_tree() {
    let oof = Oof::new(&[], &[]);
    assert_eq!(oof.to_bytes(), vec![0u8, 0, 0, 0]);
}

#[test]
fn to_bytes_lays_out_count_keys_values() {
    let oof = Oof::new(&[0x0102, 1], &[build_value(7), build_value(9)]);
    let bytes = oof.to_bytes();
    assert_eq!(bytes.len(), 4 + 2 * 16 + 2 * 32);
    assert_eq!(&bytes[0..4], &[2u8, 0, 0, 0]);
    let mut first = [0u8; 16];
    first[0] = 1;
    let mut second = [0u8; 16];
    second[0] = 2;
    second[1] = 1;
    assert_eq!(&bytes[4..20], &first);
    assert_eq!(&bytes[20..36], &second);
    assert_eq!(&bytes[36..68], &build_value(9));
    assert_eq!(&bytes[68..100], &build_value(7));
}

#[test]
fn to_bytes_writes_all_sixteen_bytes_of_a_key() {
    let key: u128 = 0x0f0e0d0c0b0a09080706050403020100;
    let oof = Oof::new(&[key], &[build_value(1)]);
    let bytes = oof.to_bytes();
    let expected: Vec<u8> = (0u8..16).collect();
    assert_eq!(&bytes[4..20], &expected[..]);
}

#[test]
fn decode_of_encode_is_the_tree() {
    let oof = Oof::new(
        &[7, 2, u128::MAX, 6, 0],
        &[
            build_value(7),
            build_value(2),
            build_value(255),
            build_value(6),
            build_value(0),
        ],
    );
    let bytes = oof.to_bytes();
    assert_eq!(Oof::from_raw(&bytes), oof);
    assert_eq!(Oof::from_bytes(&bytes), Some(oof));
}

#[test]
fn decode_of_encode_of_one_entry() {
    let oof = Oof::new(&[1], &[[0xabu8; 32]]);
    assert_eq!(Oof::from_raw(&oof.to_bytes()), oof);
}

#[test]
fn encode_of_decode_of_an_ordered_blob_is_the_blob() {
    let blob = blob_of(&[2, 6, 7], &[build_value(2), build_value(6), build_value(7)]);
    assert_eq!(Oof::from_raw(&blob).to_bytes(), blob);
}

#[test]
fn from_raw_takes_entries_in_any_order() {
    let blob = blob_of(&[7, 2, 6], &[build_value(7), build_value(2), build_value(6)]);
    let oof = Oof::from_raw(&blob);
    assert_eq!(oof.keys(), BTreeSet::from([2, 6, 7]));
    assert_eq!(oof.get(&2), Some(&build_value(2)));
    assert_eq!(oof.get(&6), Some(&build_value(6)));
    assert_eq!(oof.get(&7), Some(&build_value(7)));
}

#[test]
fn from_raw_takes_the_last_entry_of_a_key() {
    let blob = blob_of(&[5, 5], &[build_value(1), build_value(2)]);
    assert_eq!(Oof::from_raw(&blob).get(&5), Some(&build_value(2)));
}

#[test]
fn from_raw_ignores_what_follows_the_entries() {
    let mut blob = blob_of(&[3], &[build_value(3)]);
    blob.extend_from_slice(&[0xff; 10]);
    let oof = Oof::from_raw(&blob);
    assert_eq!(oof.keys(), BTreeSet::from([3]));
    assert_eq!(oof.get(&3), Some(&build_value(3)));
}

#[test]
fn from_bytes_rejects_a_short_blob() {
    assert_eq!(Oof::from_bytes(&[]), None);
    assert_eq!(Oof::from_bytes(&[1, 0, 0]), None);
    assert_eq!(Oof::from_bytes(&[1, 0, 0, 0]), None);
    let mut blob = blob_of(&[3], &[build_value(3)]);
    blob.pop();
    assert_eq!(Oof::from_bytes(&blob), None);
    assert_eq!(Oof::from_bytes(&[0xff, 0xff, 0xff, 0xff]), None);
}

#[test]
fn from_bytes_takes_an_empty_blob() {
    assert_eq!(Oof::from_bytes(&[0, 0, 0, 0]), Some(Oof::new(&[], &[])));
}

#[test]
fn blob_is_searched_where_it_lies() {
    let keys: Vec<u128> = vec![1, 2, 3, 9, 100, u128::MAX];
    let values: Vec<[u8; 32]> = (0..6).map(|n| build_value(n as u8 + 1)).collect();
    let data = blob_of(&keys, &values);
    let blob = Blob::parse(&data).unwrap();
    assert_eq!(blob.len(), 6);
    for (key, value) in keys.iter().zip(values.iter()) {
        assert_eq!(blob.get(key), Some(&value[..]));
    }
    assert_eq!(blob.get(&0), None);
    assert_eq!(blob.get(&4), None);
    assert_eq!(blob.get(&101), None);
}

#[test]
fn blob_value_is_part_of_the_data() {
    let data = blob_of(&[2, 3], &[build_value(2), build_value(3)]);
    let blob = Blob::parse(&data).unwrap();
    let value = blob.get(&3).unwrap();
    assert_eq!(value.as_ptr(), data[4 + 32 + 32..].as_ptr());
    assert_eq!(value.len(), 32);
}

#[test]
fn blob_of_nothing() {
    let data = [0u8; 4];
    let blob = Blob::parse(&data).unwrap();
    assert_eq!(blob.len(), 0);
    assert_eq!(blob.get(&1), None);
}

#[test]
fn blob_rejects_entries_out_of_order() {
    let data = blob_of(&[2, 1], &[build_value(2), build_value(1)]);
    assert!(Blob::parse(&data).is_none());
    let twice = blob_of(&[2, 2], &[build_value(2), build_value(1)]);
    assert!(Blob::parse(&twice).is_none());
}

#[test]
fn blob_rejects_a_short_blob() {
    assert!(Blob::parse(&[]).is_none());
    assert!(Blob::parse(&[2, 0, 0, 0]).is_none());
    let mut data = blob_of(&[1, 2], &[build_value(1), build_value(2)]);
    data.pop();
    assert!(Blob::parse(&data).is_none());
}

#[test]
fn blob_agrees_with_the_owned_tree() {
    let oof = Oof::new(
        &[12, 4, 13, 7],
        &[build_value(12), build_value(4), build_value(13), build_value(7)],
    );
    let data = oof.to_bytes();
    let blob = Blob::parse(&data).unwrap();
    for key in 0u128..20 {
        assert_eq!(blob.get(&key), oof.get(&key).map(|value| &value[..]));
    }
}
