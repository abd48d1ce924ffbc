use uuid::Uuid;
use uuid_remap::text::visit_text;

use std::str::FromStr;

fn bits(s: &str) -> u128 {
    Uuid::from_str(s).unwrap().as_u128()
}

#[test]
fn test_visit_text() {
    let mut text = b"12345678-1234-5678-1234-567812345678".to_vec();
    visit_text(&mut text, &|_| Some(bits("00000000-0000-0000-0000-000000000000")));
    assert_eq!(text, b"00000000-0000-0000-0000-000000000000".to_vec());
    let mut text = b"12345678123456781234567812345678".to_vec();
    visit_text(&mut text, &|_| Some(bits("00000000-0000-0000-0000-000000000000")));
    assert_eq!(text, b"00000000000000000000000000000000".to_vec());
    let mut text = b"12345678-1234-5678-1234-5678-12345678".to_vec();
    visit_text(&mut text, &|_| {
        panic!("visit_text() claims to have found a UUID, but it shouldn't have");
    });
    assert_eq!(text, b"12345678-1234-5678-1234-5678-12345678".to_vec());
    let text = br#"{"name":"CaveNightingale", "uuid":"2d318504-1a7b-39dc-8c18-44df798a5c06"}"#;
    let mut text = text.to_vec();
    visit_text(&mut text, &|uuid| {
        if uuid == bits("2d318504-1a7b-39dc-8c18-44df798a5c06") {
            Some(bits("00000000-0000-0000-0000-000000000000"))
        } else {
            None
        }
    });
    assert_eq!(
        text,
        br#"{"name":"CaveNightingale", "uuid":"00000000-0000-0000-0000-000000000000"}"#
    );
}
