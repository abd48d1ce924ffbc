use std::collections::HashMap;

use uuid::Uuid;
use uuid_remap::nbt::{visit_nbt, NbtError};
use valence_nbt::binary::to_binary;
use valence_nbt::from_binary;
use valence_nbt::snbt::from_snbt_str;
use valence_nbt::{Compound, Value};

const TAG_END: u8 = 0;
const TAG_LONG: u8 = 4;
const TAG_STRING: u8 = 8;
const TAG_LIST: u8 = 9;
const TAG_COMPOUND: u8 = 10;
const TAG_INT_ARRAY: u8 = 11;

#[test]
fn test_visit_nbt() {
    // Positive test
    // Nbt parsing test
    const FROM: Uuid = Uuid::from_u128(0x1234567890abcdef1234567890abcdef);
    const TO: Uuid = Uuid::from_u128(0xabcdef1234567890abcdef1234567890);
    let replacement = HashMap::from([(FROM, TO)]);
    let snbt = r#"{
        A: "B",
        B: 123b,
        C: 123s,
        D: 123,
        E: 123L,
        F: 123.456,
        G: 123.456f,
        H: [1, 2, 3],
        I: [1L, 2L, 3L],
        J: [1.0, 2.0, 3.0],
        K: [{x: 1, y: 2}, {x: 3, y: 4}],
        L: {x: 6, y: 6},
        M: [L; 4L],
        N: [B; 4b],
        O: [I; 1, 2, 3],
        P: [],
        Q: [I;],
        R: [[]],
        S: {z: 1, w: []},
    }"#;
    let mut nbt = vec![];
    let Value::Compound(mut nbtc) = from_snbt_str(snbt).unwrap() else {
        panic!()
    };
    to_binary(&nbtc, &mut nbt, "").unwrap();
    visit_nbt(&mut nbt, &|_| {
        panic!("visit_nbt() claimed to be able to replace UUIDs")
    })
    .unwrap();
    // Nbt pattern matching test
    nbtc.insert(
        "OwnerUUIDMost".to_string(),
        Value::Long((FROM.as_u128() >> 64) as u64 as i64),
    );
    nbtc.insert(
        "OwnerUUIDLeast".to_string(),
        Value::Long(FROM.as_u128() as u64 as i64),
    );
    nbtc.insert("id".to_string(), Value::IntArray(vec![1, 2, 3, 4]));
    let uuid_to_i32_4 = |uuid: Uuid| -> [i32; 4] {
        let u = uuid.as_u128();
        [
            (u >> 96) as i32,
            (u >> 64) as i32,
            (u >> 32) as i32,
            u as i32,
        ]
    };
    nbtc.insert(
        "id1".to_string(),
        Value::IntArray(uuid_to_i32_4(FROM).into()),
    );
    nbtc.insert(
        "UUIDMost".to_string(),
        Value::Long((FROM.as_u128() >> 64) as u64 as i64),
    );
    nbtc.insert(
        "UUIDLeast".to_string(),
        Value::Long(FROM.as_u128() as u64 as i64),
    );
    let mut nbt2 = vec![];
    to_binary(&nbtc, &mut nbt2, "").unwrap();
    visit_nbt(&mut nbt2, &|uuid| {
        replacement
            .get(&Uuid::from_u128(uuid))
            .cloned()
            .map(|to| to.as_u128())
    })
    .unwrap();
    let (de, _): (Compound<String>, String) = from_binary(&mut nbt2.as_slice()).unwrap();
    assert_eq!(
        de.get("OwnerUUIDMost"),
        Some(&Value::Long((TO.as_u128() >> 64) as u64 as i64))
    );
    assert_eq!(
        de.get("OwnerUUIDLeast"),
        Some(&Value::Long(TO.as_u128() as u64 as i64))
    );
    assert_eq!(
        de.get("UUIDMost"),
        Some(&Value::Long((TO.as_u128() >> 64) as u64 as i64))
    );
    assert_eq!(
        de.get("UUIDLeast"),
        Some(&Value::Long(TO.as_u128() as u64 as i64))
    );
    assert_eq!(de.get("id"), Some(&Value::IntArray(vec![1, 2, 3, 4])));
    assert_eq!(
        de.get("id1"),
        Some(&Value::IntArray(uuid_to_i32_4(TO).into()))
    );

    // Negative test
    // Inconsistent string length
    let mut nbt = vec![TAG_COMPOUND, 0, 30, 0];
    assert!(visit_nbt(&mut nbt, &|_| None).is_err());
    // Inconsistent list length
    let mut nbt = vec![TAG_COMPOUND, 0, 0, TAG_LIST, 0, 255, 255, 255, 255];
    assert!(visit_nbt(&mut nbt, &|_| None).is_err());
    let mut nbt = vec![TAG_COMPOUND, 0, 0, TAG_LIST, 1, 255, 255, 255, 255];
    assert!(visit_nbt(&mut nbt, &|_| None).is_err());
    // Illegal tag type
    let mut nbt = vec![TAG_COMPOUND, 0, 0, 255, 0];
    assert!(visit_nbt(&mut nbt, &|_| None).is_err());
    // Trailing data
    let mut nbt = vec![TAG_COMPOUND, 0, 0, TAG_END, 0, 0, 0, 0];
    assert!(visit_nbt(&mut nbt, &|_| None).is_err());
    // Unpaired UUIDMost/UUIDLeast
    let mut nbtc = Compound::<String>::new();
    nbtc.insert(
        "xxUUIDMost".to_string(),
        Value::Long(FROM.as_u64_pair().0 as i64),
    );
    nbtc.insert(
        "yyUUIDLeast".to_string(),
        Value::Long(FROM.as_u64_pair().1 as i64),
    );
    let mut nbt = vec![];
    to_binary(&nbtc, &mut nbt, "").unwrap();
    assert!(visit_nbt(&mut nbt, &|_| None).is_ok());
    let (de, _) = from_binary::<String>(&mut nbt.as_slice()).unwrap();
    assert_eq!(
        de.get("xxUUIDMost"),
        Some(&Value::Long(FROM.as_u64_pair().0 as i64))
    );
    assert_eq!(
        de.get("yyUUIDLeast"),
        Some(&Value::Long(FROM.as_u64_pair().1 as i64))
    ); // Should not be replaced
       // No root tag
    let mut nbt = vec![];
    assert!(visit_nbt(&mut nbt, &|_| None).is_err());
    // Non-long UUIDMost/UUIDLeast
    let mut nbtc = Compound::<String>::new();
    nbtc.insert("UUIDMost".to_string(), Value::Int(7));
    nbtc.insert("UUIDLeast".to_string(), Value::Int(32));
    let mut nbt = vec![];
    to_binary(&nbtc, &mut nbt, "").unwrap();
    assert!(visit_nbt(&mut nbt, &|_| None).is_ok());
    let (de, _) = from_binary::<String>(&mut nbt.as_slice()).unwrap();
    assert_eq!(de.get("UUIDMost"), Some(&Value::Int(7)));
    assert_eq!(de.get("UUIDLeast"), Some(&Value::Int(32))); // Should not be replaced
}

#[test]
fn nbt_errors_are_told_apart() {
    let mut nbt = vec![TAG_COMPOUND, 0, 30, 0];
    assert_eq!(visit_nbt(&mut nbt, &|_| None), Err(NbtError::UnexpectedEof));
    let mut nbt = vec![TAG_COMPOUND, 0, 0, TAG_LIST, 0, 255, 255, 255, 255];
    assert_eq!(visit_nbt(&mut nbt, &|_| None), Err(NbtError::UnexpectedEof));
    let mut nbt = vec![TAG_COMPOUND, 0, 0, TAG_LIST, 1, 255, 255, 255, 255];
    assert_eq!(visit_nbt(&mut nbt, &|_| None), Err(NbtError::UnexpectedEof));
    let mut nbt = vec![TAG_COMPOUND, 0, 0, 255, 0];
    assert_eq!(visit_nbt(&mut nbt, &|_| None), Err(NbtError::UnexpectedEof));
    let mut nbt = vec![TAG_COMPOUND, 0, 0, 255, 0, 0, TAG_END];
    assert_eq!(
        visit_nbt(&mut nbt, &|_| None),
        Err(NbtError::UnknownTag(255))
    );
    let mut nbt = vec![13, 0, 0];
    assert_eq!(
        visit_nbt(&mut nbt, &|_| None),
        Err(NbtError::UnknownTag(13))
    );
    let mut nbt = vec![TAG_COMPOUND, 0, 0, TAG_END, 0, 0, 0, 0];
    assert_eq!(visit_nbt(&mut nbt, &|_| None), Err(NbtError::TrailingData));
    let mut nbt = vec![];
    assert_eq!(visit_nbt(&mut nbt, &|_| None), Err(NbtError::UnexpectedEof));
    assert_eq!(
        NbtError::UnexpectedEof.message(),
        "Malformed NBT: Unexpected EOF"
    );
    assert_eq!(
        NbtError::UnknownTag(255).message(),
        "Malformed NBT: Unknown tag type"
    );
    assert_eq!(
        NbtError::TrailingData.message(),
        "Malformed NBT: Unexpected trailing data"
    );
}

#[test]
fn nbt_smallest_documents() {
    // an empty compound with an empty name
    let mut nbt = vec![TAG_COMPOUND, 0, 0, TAG_END];
    assert_eq!(visit_nbt(&mut nbt, &|_| None), Ok(()));
    assert_eq!(nbt, vec![TAG_COMPOUND, 0, 0, TAG_END]);
    // the end tag is the tag of no value: not of the root
    let mut nbt = vec![TAG_END, 0, 0];
    assert_eq!(visit_nbt(&mut nbt, &|_| None), Err(NbtError::UnknownTag(0)));
    // nor of the items of a list
    let mut nbt = vec![
        TAG_COMPOUND, 0, 0, TAG_LIST, 0, 0, TAG_END, 0, 0, 3, 232, TAG_END,
    ];
    assert_eq!(visit_nbt(&mut nbt, &|_| None), Err(NbtError::UnknownTag(0)));
    let mut nbt = vec![
        TAG_COMPOUND, 0, 0, TAG_LIST, 0, 0, TAG_END, 255, 255, 255, 255, TAG_END,
    ];
    assert_eq!(visit_nbt(&mut nbt, &|_| None), Err(NbtError::UnknownTag(0)));
    // but a list without items may name it
    let mut nbt = vec![
        TAG_COMPOUND, 0, 0, TAG_LIST, 0, 0, TAG_END, 0, 0, 0, 0, TAG_END,
    ];
    assert_eq!(visit_nbt(&mut nbt, &|_| None), Ok(()));
    // as it may name a tag that is unknown
    let mut nbt = vec![
        TAG_COMPOUND, 0, 0, TAG_LIST, 0, 0, 77, 0, 0, 0, 0, TAG_END,
    ];
    assert_eq!(visit_nbt(&mut nbt, &|_| None), Ok(()));
    // a list of a thousand bytes is passed over at once
    let mut nbt = vec![TAG_LIST, 0, 0, 1, 0, 0, 3, 232];
    nbt.extend_from_slice(&[7; 1000]);
    assert_eq!(visit_nbt(&mut nbt, &|_| None), Ok(()));
    // a list of compounds that never end
    let mut nbt = vec![TAG_LIST, 0, 0, TAG_COMPOUND, 255, 255, 255, 255];
    assert_eq!(visit_nbt(&mut nbt, &|_| None), Err(NbtError::UnexpectedEof));
}

#[test]
fn nbt_int_array_is_sixteen_bytes_most_significant_first() {
    let from: u128 = 0x000102030405060708090a0b0c0d0e0f;
    let to: u128 = 0xf0e0d0c0b0a090807060504030201000;
    let mut nbt = vec![TAG_INT_ARRAY, 0, 0, 0, 0, 0, 4];
    nbt.extend_from_slice(&from.to_be_bytes());
    let mut expected = vec![TAG_INT_ARRAY, 0, 0, 0, 0, 0, 4];
    expected.extend_from_slice(&to.to_be_bytes());
    assert_eq!(
        visit_nbt(&mut nbt, &|uuid| if uuid == from { Some(to) } else { None }),
        Ok(())
    );
    assert_eq!(nbt, expected);
}

#[test]
fn nbt_pair_halves_in_any_order_and_far_apart() {
    let from: u128 = 0x1234567890abcdef_fedcba0987654321;
    let to: u128 = 0x1111111122222222_3333333344444444;
    let mut nbt = vec![TAG_COMPOUND, 0, 0];
    // the low half first
    nbt.push(TAG_LONG);
    nbt.extend_from_slice(&[0, 10]);
    nbt.extend_from_slice(b"aUUIDLeast");
    nbt.extend_from_slice(&0xfedcba0987654321u64.to_be_bytes());
    // something in between
    nbt.push(TAG_STRING);
    nbt.extend_from_slice(&[0, 1]);
    nbt.extend_from_slice(b"s");
    nbt.extend_from_slice(&[0, 3]);
    nbt.extend_from_slice(b"abc");
    // the high half
    nbt.push(TAG_LONG);
    nbt.extend_from_slice(&[0, 9]);
    nbt.extend_from_slice(b"aUUIDMost");
    nbt.extend_from_slice(&0x1234567890abcdefu64.to_be_bytes());
    // a high half under another prefix
    nbt.push(TAG_LONG);
    nbt.extend_from_slice(&[0, 9]);
    nbt.extend_from_slice(b"bUUIDMost");
    nbt.extend_from_slice(&0x1234567890abcdefu64.to_be_bytes());
    nbt.push(TAG_END);
    let mut expected = nbt.clone();
    expected[16..24].copy_from_slice(&0x3333333344444444u64.to_be_bytes());
    expected[45..53].copy_from_slice(&0x1111111122222222u64.to_be_bytes());
    let calls = std::cell::Cell::new(0);
    assert_eq!(
        visit_nbt(&mut nbt, &|uuid| {
            calls.set(calls.get() + 1);
            if uuid == from {
                Some(to)
            } else {
                None
            }
        }),
        Ok(())
    );
    assert_eq!(nbt, expected);
    assert_eq!(calls.get(), 1);
}

#[test]
fn nbt_pair_of_an_inner_compound_stays_inside() {
    // the halves of a pair in two different compounds are no pair
    let mut nbt = vec![TAG_COMPOUND, 0, 0];
    nbt.push(TAG_LONG);
    nbt.extend_from_slice(&[0, 8]);
    nbt.extend_from_slice(b"UUIDMost");
    nbt.extend_from_slice(&1u64.to_be_bytes());
    nbt.push(TAG_COMPOUND);
    nbt.extend_from_slice(&[0, 1]);
    nbt.extend_from_slice(b"c");
    nbt.push(TAG_LONG);
    nbt.extend_from_slice(&[0, 9]);
    nbt.extend_from_slice(b"UUIDLeast");
    nbt.extend_from_slice(&2u64.to_be_bytes());
    nbt.push(TAG_END);
    nbt.push(TAG_END);
    let expected = nbt.clone();
    assert_eq!(
        visit_nbt(&mut nbt, &|_| {
            panic!("the halves are in different compounds")
        }),
        Ok(())
    );
    assert_eq!(nbt, expected);
}

#[test]
fn nbt_strings_are_scanned_as_text() {
    let mut nbtc = Compound::<String>::new();
    nbtc.insert(
        "owner".to_string(),
        Value::String("id=2d318504-1a7b-39dc-8c18-44df798a5c06;".to_string()),
    );
    nbtc.insert(
        "list".to_string(),
        Value::List(valence_nbt::List::String(vec![
            "2d3185041a7b39dc8c1844df798a5c06".to_string(),
            "none".to_string(),
        ])),
    );
    let mut nbt = vec![];
    to_binary(&nbtc, &mut nbt, "").unwrap();
    let from = Uuid::parse_str("2d318504-1a7b-39dc-8c18-44df798a5c06")
        .unwrap()
        .as_u128();
    assert_eq!(
        visit_nbt(&mut nbt, &|uuid| if uuid == from { Some(1) } else { None }),
        Ok(())
    );
    let (de, _) = from_binary::<String>(&mut nbt.as_slice()).unwrap();
    assert_eq!(
        de.get("owner"),
        Some(&Value::String(
            "id=00000000-0000-0000-0000-000000000001;".to_string()
        ))
    );
    assert_eq!(
        de.get("list"),
        Some(&Value::List(valence_nbt::List::String(vec![
            "00000000000000000000000000000001".to_string(),
            "none".to_string(),
        ])))
    );
}
