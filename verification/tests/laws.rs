use std::collections::HashMap;

use rand::Rng;
use uuid_remap::anvil::{Anvil, Chunk, ExternalAction, SlotRead};
use uuid_remap::nbt::visit_nbt;
use uuid_remap::remap::{remap_dat, remap_nbt};
use uuid_remap::text::visit_text;
use valence_nbt::binary::to_binary;
use valence_nbt::from_binary;
use valence_nbt::snbt::from_snbt_str;
use valence_nbt::{Compound, Value};

fn sample() -> (Compound<String>, Vec<u8>) {
    let snbt = r#"{
        name: "2d318504-1a7b-39dc-8c18-44df798a5c06 and 11111111111111111111111111111111",
        bytes: [B; 1b, 2b, 3b, 4b, 5b, 6b, 7b, 8b, 9b, 10b, 11b, 12b, 13b, 14b, 15b, 16b],
        longs: [L; 1311768467294899695L, 1311768467294899695L],
        ints: [I; 1, 2, 3],
        id: [I; 305419896, -1867788817, 305419896, -1867788817],
        OwnerUUIDMost: 1311768467294899695L,
        OwnerUUIDLeast: 1311768467294899695L,
        LoneUUIDMost: 1311768467294899695L,
        short: 7s,
        double: 1.5,
        inner: {list: [{a: "x"}, {a: "22222222-2222-2222-2222-222222222222"}]},
    }"#;
    let Value::Compound(compound) = from_snbt_str(snbt).unwrap() else {
        panic!()
    };
    let mut nbt = vec![];
    to_binary(&compound, &mut nbt, "root").unwrap();
    (compound, nbt)
}

#[test]
fn law_nothing_mapped_nothing_changed() {
    let (compound, nbt) = sample();
    let mut visited = nbt.clone();
    assert_eq!(visit_nbt(&mut visited, &|_| None), Ok(()));
    assert_eq!(visited, nbt);
    let (tree, name) = from_binary::<String>(&mut visited.as_slice()).unwrap();
    assert_eq!(tree, compound);
    assert_eq!(name, "root");
    assert_eq!(remap_nbt(nbt.clone(), &|_| None), Ok(nbt.clone()));
    assert_eq!(remap_dat(nbt.clone(), &|_| None), Ok(nbt.clone()));
    let mut text = b"2d318504-1a7b-39dc-8c18-44df798a5c06 11111111111111111111111111111111".to_vec();
    let before = text.clone();
    visit_text(&mut text, &|_| None);
    assert_eq!(text, before);
    // through a region: the chunk that is read back is the chunk that was written
    let mut anvil = Anvil::new("r.0.0.mca");
    let chunk = Chunk {
        external: false,
        location: (31, 31),
        timestamp: i32::MIN,
        uncompressed: nbt.clone(),
    };
    assert!(matches!(anvil.write(&chunk), Ok(ExternalAction::Keep)));
    let mut iter = anvil.iter();
    match iter.next() {
        Some(Ok(SlotRead::Loaded(read))) => {
            assert_eq!(read.uncompressed, nbt);
            assert_eq!(read.location, (31, 31));
            assert_eq!(read.timestamp, i32::MIN);
        }
        _ => panic!("the chunk can be read"),
    }
}

#[test]
fn law_scanning_twice_is_scanning_once() {
    let table: HashMap<u128, u128> = vec![
        (0x2d3185041a7b39dc8c1844df798a5c06, 0xaaaaaaaaaaaaaaaaaaaaaaaaaaaaaaaa),
        (0x11111111111111111111111111111111, 0x11111111111111111111111111111111),
        (0x22222222222222222222222222222222, 0x33333333333333333333333333333333),
    ]
    .into_iter()
    .collect();
    let cb = |uuid: u128| table.get(&uuid).copied();
    let text = b"a 2d318504-1a7b-39dc-8c18-44df798a5c06 b 11111111111111111111111111111111 \
        c 22222222-2222-2222-2222-222222222222 d 2d3185041a7b39dc8c1844df798a5c06 e \
        44444444-4444-4444-4444-444444444444"
        .to_vec();
    let mut once = text.clone();
    visit_text(&mut once, &cb);
    assert_ne!(once, text);
    let mut twice = once.clone();
    visit_text(&mut twice, &cb);
    assert_eq!(twice, once);
}

#[test]
fn law_scanning_twice_under_a_chain_without_a_mapped_literal() {
    // a mapping that maps what it gives, and a text in which it maps nothing
    let cb = |uuid: u128| if uuid < 2 { Some(uuid + 1) } else { None };
    let text = b"00000000-0000-0000-0000-000000000002 and 00000000000000000000000000000003".to_vec();
    let mut once = text.clone();
    visit_text(&mut once, &cb);
    assert_eq!(once, text);
    // and one in which what it gives is not mapped further
    let mut once = b"00000000-0000-0000-0000-000000000001".to_vec();
    visit_text(&mut once, &cb);
    assert_eq!(once, b"00000000-0000-0000-0000-000000000002".to_vec());
    let mut twice = once.clone();
    visit_text(&mut twice, &cb);
    assert_eq!(twice, once);
}

#[test]
fn law_what_the_callback_answers_does_not_reach_outside_the_sites() {
    // a callback whose answers follow no mapping
    let (compound, nbt) = sample();
    let count = std::cell::Cell::new(0u128);
    let mut visited = nbt.clone();
    assert_eq!(
        visit_nbt(&mut visited, &|_| {
            count.set(count.get() + 1);
            Some(count.get())
        }),
        Ok(())
    );
    assert!(count.get() > 0);
    let (tree, name) = from_binary::<String>(&mut visited.as_slice()).unwrap();
    assert_eq!(name, "root");
    for key in ["bytes", "longs", "ints", "short", "double", "LoneUUIDMost"] {
        assert_eq!(tree.get(key), compound.get(key));
    }
    let mut text = b"x 2d318504-1a7b-39dc-8c18-44df798a5c06 y 2d318504-1a7b-39dc-8c18-44df798a5c06 z".to_vec();
    visit_text(&mut text, &|_| {
        count.set(count.get() + 1);
        Some(count.get() << 64)
    });
    assert_eq!(text.len(), 79);
    assert_eq!(&text[0..2], b"x ");
    assert_eq!(&text[38..41], b" y ");
    assert_eq!(&text[77..79], b" z");
    for at in [2usize, 41] {
        for (j, c) in text[at..at + 36].iter().enumerate() {
            if [8, 13, 18, 23].contains(&j) {
                assert_eq!(*c, b'-');
            } else {
                assert!(c.is_ascii_digit() || (b'a'..=b'f').contains(c));
            }
        }
    }
}

#[test]
fn law_scanning_twice_under_a_chain_is_not_scanning_once() {
    // a mapping that maps what it gives: the law does not speak of it
    let cb = |uuid: u128| if uuid < 2 { Some(uuid + 1) } else { None };
    let mut once = b"00000000-0000-0000-0000-000000000000".to_vec();
    visit_text(&mut once, &cb);
    assert_eq!(once, b"00000000-0000-0000-0000-000000000001".to_vec());
    let mut twice = once.clone();
    visit_text(&mut twice, &cb);
    assert_eq!(twice, b"00000000-0000-0000-0000-000000000002".to_vec());
}

#[test]
fn law_written_regions_are_valid() {
    let mut rng = rand::thread_rng();
    let mut anvil = Anvil::new("r.0.0.mca");
    for round in 0..40 {
        let size = rng.gen_range(0..20000);
        let mut payload = vec![0u8; size];
        rng.fill(&mut payload[..]);
        let chunk = Chunk {
            external: round % 7 == 0,
            location: (rng.gen_range(0..32), rng.gen_range(0..32)),
            timestamp: rng.gen(),
            uncompressed: payload,
        };
        assert!(anvil.write(&chunk).is_ok());
        let image = anvil.content();
        assert_eq!(image.len() % 4096, 0);
        assert!(image.len() >= 8192);
        for slot in 0..1024 {
            let word = u32::from_be_bytes(image[slot * 4..slot * 4 + 4].try_into().unwrap());
            if word != 0 {
                let offset = (word >> 8) as usize;
                let count = (word & 0xff) as usize;
                assert!(count >= 1);
                assert!(offset >= 2);
                assert!((offset + count) * 4096 <= image.len());
            }
        }
    }
}

#[test]
fn law_a_pair_is_rewritten_as_one_or_not_at_all() {
    let (compound, nbt) = sample();
    let owner = 0x1234567890abcdef_1234567890abcdefu128;
    assert_eq!(
        compound.get("OwnerUUIDMost"),
        Some(&Value::Long(0x1234567890abcdef))
    );
    let to = 0x0102030405060708_090a0b0c0d0e0f10u128;
    let mut visited = nbt.clone();
    assert_eq!(
        visit_nbt(&mut visited, &|uuid| if uuid == owner { Some(to) } else { None }),
        Ok(())
    );
    let (tree, _) = from_binary::<String>(&mut visited.as_slice()).unwrap();
    assert_eq!(
        tree.get("OwnerUUIDMost"),
        Some(&Value::Long(0x0102030405060708))
    );
    assert_eq!(
        tree.get("OwnerUUIDLeast"),
        Some(&Value::Long(0x090a0b0c0d0e0f10))
    );
    // the half without its other half stays
    assert_eq!(
        tree.get("LoneUUIDMost"),
        Some(&Value::Long(0x1234567890abcdef))
    );
    // the int array of four ints holds the same UUID and is rewritten too
    assert_eq!(
        tree.get("id"),
        Some(&Value::IntArray(vec![
            0x01020304,
            0x05060708,
            0x090a0b0c,
            0x0d0e0f10
        ]))
    );
}

#[test]
fn law_what_is_no_uuid_is_kept() {
    let (compound, nbt) = sample();
    let mut visited = nbt.clone();
    assert_eq!(visit_nbt(&mut visited, &|_| Some(u128::MAX)), Ok(()));
    assert_eq!(visited.len(), nbt.len());
    let (tree, name) = from_binary::<String>(&mut visited.as_slice()).unwrap();
    assert_eq!(name, "root");
    for key in ["bytes", "longs", "ints", "short", "double", "LoneUUIDMost"] {
        assert_eq!(tree.get(key), compound.get(key));
    }
    assert_eq!(
        tree.get("name"),
        Some(&Value::String(
            "ffffffff-ffff-ffff-ffff-ffffffffffff and ffffffffffffffffffffffffffffffff".to_string()
        ))
    );
    assert_eq!(tree.get("OwnerUUIDMost"), Some(&Value::Long(-1)));
    assert_eq!(tree.get("OwnerUUIDLeast"), Some(&Value::Long(-1)));
    assert_eq!(tree.get("id"), Some(&Value::IntArray(vec![-1, -1, -1, -1])));
    let Some(Value::Compound(inner)) = tree.get("inner") else {
        panic!()
    };
    let Some(Value::List(valence_nbt::List::Compound(list))) = inner.get("list") else {
        panic!()
    };
    assert_eq!(list[0].get("a"), Some(&Value::String("x".to_string())));
    assert_eq!(
        list[1].get("a"),
        Some(&Value::String(
            "ffffffff-ffff-ffff-ffff-ffffffffffff".to_string()
        ))
    );
}
