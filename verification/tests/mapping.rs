use std::collections::HashMap;
use std::str::FromStr;

use uuid::Uuid;
use uuid_remap::mapping::{
    a_compose_b_inverse, load_csv, load_name_list, load_offline_rename, offline_uuid,
    offline_uuids, players_mapping, split_line, uuid_from_digest, MappingKind,
};

fn bits(s: &str) -> u128 {
    Uuid::from_str(s).unwrap().as_u128()
}

fn names(list: &[&str]) -> Vec<Vec<u8>> {
    list.iter().map(|x| x.as_bytes().to_vec()).collect()
}

#[test]
fn mapping_test() {
    let csv_file = "from,to\n\
    00000000-0000-0000-0000-000000000000,00000000-0000-0000-0000-000000000001\n\
    00000000-0000-0000-0000-000000000002,00000000-0000-0000-0000-000000000003";
    assert_eq!(
        load_csv(csv_file),
        vec![
            (
                bits("00000000-0000-0000-0000-000000000000"),
                bits("00000000-0000-0000-0000-000000000001")
            ),
            (
                bits("00000000-0000-0000-0000-000000000002"),
                bits("00000000-0000-0000-0000-000000000003")
            ),
        ]
        .into_iter()
        .collect()
    );

    let list_file = "a\nb\nc";
    assert_eq!(load_name_list(list_file), names(&["a", "b", "c"]));

    let offline_rename_file = "from,to\na,b\nc,d";
    assert_eq!(
        load_offline_rename(offline_rename_file),
        vec![
            (offline_uuid(b"a"), offline_uuid(b"b")),
            (offline_uuid(b"c"), offline_uuid(b"d")),
        ]
        .into_iter()
        .collect()
    );

    assert_eq!(
        offline_uuid(b"CaveNightingale"),
        bits("2d318504-1a7b-39dc-8c18-44df798a5c06")
    );
    let online_uuids_result = vec![
        (
            b"CaveNightingale".to_vec(),
            bits("fb1ad51e-cf1f-41f7-8fd1-10dff164b17d"),
        ),
        (
            b"Notch".to_vec(),
            bits("069a79f4-44e9-4726-a5be-fca90e38aaf5"),
        ),
        (
            b"Dinnerbone".to_vec(),
            bits("61699b2e-d327-4a01-9f1e-0ea8c3f06bc6"),
        ),
    ];
    let composed = a_compose_b_inverse(
        &online_uuids_result,
        &offline_uuids(&names(&["CaveNightingale", "Notch", "Dinnerbone"])),
    );
    assert_eq!(
        composed.get(&bits("fb1ad51e-cf1f-41f7-8fd1-10dff164b17d")),
        Some(&offline_uuid(b"CaveNightingale"))
    );
    assert_eq!(
        composed.get(&bits("069a79f4-44e9-4726-a5be-fca90e38aaf5")),
        Some(&offline_uuid(b"Notch"))
    );
    assert_eq!(
        composed.get(&bits("61699b2e-d327-4a01-9f1e-0ea8c3f06bc6")),
        Some(&offline_uuid(b"Dinnerbone"))
    );
}

#[test]
fn offline_uuid_is_of_version_3() {
    for name in ["Notch", "", "a", "Dinnerbone", "\u{4e2d}\u{6587}"] {
        let uuid = Uuid::from_u128(offline_uuid(name.as_bytes()));
        assert_eq!(uuid.get_version_num(), 3);
        assert_eq!(uuid.get_variant(), uuid::Variant::RFC4122);
    }
    assert_eq!(
        offline_uuid(b"Notch"),
        bits("b50ad385-829d-3141-a216-7e7d7539ba7f")
    );
}

#[test]
fn csv_lines_of_another_form_are_passed_over() {
    let one = "00000000-0000-0000-0000-000000000001";
    let two = "00000000-0000-0000-0000-000000000002";
    let three = "00000000-0000-0000-0000-000000000003";
    let text = format!(
        "{one},{two}\r\n{one},{two}\r\n{two},{three},{one}\nnot-a-uuid,{two}\n{two}\n\n{three},{one}\n{one},{three}\r\n"
    );
    let expected: HashMap<u128, u128> = vec![(1, 3), (3, 1)].into_iter().collect();
    assert_eq!(load_csv(&text), expected);
    assert_eq!(load_csv(""), HashMap::new());
    assert_eq!(load_csv(&format!("{one},{two}")), HashMap::new());
    // the forms that the parser takes
    let text = format!(
        "h\n{{{one}}},urn:uuid:{two}\n00000000000000000000000000000003,{}",
        one.to_uppercase()
    );
    let expected: HashMap<u128, u128> = vec![(1, 2), (3, 1)].into_iter().collect();
    assert_eq!(load_csv(&text), expected);
    // a carriage return at the end of the text is no line ending
    assert_eq!(load_csv(&format!("h\n{one},{two}\r")), HashMap::new());
}

#[test]
fn offline_rename_takes_names_as_they_are() {
    let table = load_offline_rename("from,to\na, b\n,\nx,y,z\nlonely\n");
    let expected: HashMap<u128, u128> = vec![
        (offline_uuid(b"a"), offline_uuid(b" b")),
        (offline_uuid(b""), offline_uuid(b"")),
    ]
    .into_iter()
    .collect();
    assert_eq!(table, expected);
}

#[test]
fn name_list_is_trimmed_as_text_is() {
    let text = "  a \r\n\tb\u{3000}\n\u{a0}c d\u{2003}\u{85}\n\n \ne\u{1680}\r";
    let expected: Vec<Vec<u8>> = text
        .lines()
        .map(|x| x.trim().as_bytes().to_vec())
        .collect();
    assert_eq!(load_name_list(text), expected);
    assert_eq!(
        load_name_list(text),
        names(&["a", "b", "c d", "", "", "e"])
    );
    assert_eq!(load_name_list(""), Vec::<Vec<u8>>::new());
    // bytes that only look like the start of a space
    let text = "\u{2030}x\u{e000}\n\u{c5}y\u{205e}";
    let expected: Vec<Vec<u8>> = text
        .lines()
        .map(|x| x.trim().as_bytes().to_vec())
        .collect();
    assert_eq!(load_name_list(text), expected);
}

#[test]
fn compose_follows_the_direction_of_the_kind() {
    let offline = vec![(b"a".to_vec(), 1u128), (b"b".to_vec(), 2u128)];
    let online = vec![
        (b"b".to_vec(), 20u128),
        (b"c".to_vec(), 30u128),
        (b"a".to_vec(), 10u128),
        (b"a".to_vec(), 11u128),
    ];
    let to_online: HashMap<u128, u128> = vec![(1, 11), (2, 20)].into_iter().collect();
    let to_offline: HashMap<u128, u128> =
        vec![(20, 2), (10, 1), (11, 1)].into_iter().collect();
    assert_eq!(
        players_mapping(MappingKind::ListToOnline, &offline, &online),
        Some(to_online.clone())
    );
    assert_eq!(
        players_mapping(MappingKind::UsercacheToOnline, &offline, &online),
        Some(to_online)
    );
    assert_eq!(
        players_mapping(MappingKind::ListToOffline, &offline, &online),
        Some(to_offline.clone())
    );
    assert_eq!(
        players_mapping(MappingKind::UsercacheToOffline, &offline, &online),
        Some(to_offline)
    );
    assert_eq!(players_mapping(MappingKind::Csv, &offline, &online), None);
    assert_eq!(players_mapping(MappingKind::Json, &offline, &online), None);
    assert_eq!(
        players_mapping(MappingKind::OfflineRenameCsv, &offline, &online),
        None
    );
}

#[test]
fn digest_becomes_a_uuid_of_version_3() {
    assert_eq!(
        uuid_from_digest(&[0xff; 16]),
        0xffffffff_ffff_3fff_bfff_ffffffffffff
    );
    assert_eq!(
        uuid_from_digest(&[0x00; 16]),
        0x00000000_0000_3000_8000_000000000000
    );
    assert_eq!(
        uuid_from_digest(&[
            0x01, 0x23, 0x45, 0x67, 0x89, 0xab, 0xcd, 0xef, 0x01, 0x23, 0x45, 0x67, 0x89, 0xab,
            0xcd, 0xef
        ]),
        0x01234567_89ab_3def_8123_456789abcdef
    );
}

#[test]
fn line_of_two_fields_has_one_comma() {
    assert_eq!(split_line(b"a,b"), Some(1));
    assert_eq!(split_line(b","), Some(0));
    assert_eq!(split_line(b"abc,"), Some(3));
    assert_eq!(split_line(b",abc"), Some(0));
    assert_eq!(split_line(b""), None);
    assert_eq!(split_line(b"abc"), None);
    assert_eq!(split_line(b"a,b,c"), None);
    assert_eq!(split_line(b",,"), None);
    assert_eq!(split_line(b"a;b,c d"), Some(3));
}
