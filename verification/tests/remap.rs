use std::io::Read;
use std::io::Write;
use std::str::FromStr;

use uuid::Uuid;
use uuid_remap::anvil::{Anvil, AnvilError, Chunk, ExternalAction, SlotRead};
use uuid_remap::nbt::NbtError;
use uuid_remap::remap::{
    file_kind, remap_chunk, remap_content, remap_dat, remap_file, remap_nbt, remap_path,
    require_remapping, FileKind, RemapError,
};
use valence_nbt::binary::to_binary;
use valence_nbt::from_binary;
use valence_nbt::{Compound, Value};

fn mapping(uuid: u128) -> Option<u128> {
    if uuid
        == Uuid::from_str("2d318504-1a7b-39dc-8c18-44df798a5c06")
            .unwrap()
            .as_u128()
    {
        Some(
            Uuid::from_str("00000000-0000-0000-0000-000000000000")
                .unwrap()
                .as_u128(),
        )
    } else {
        None
    }
}

fn document() -> Vec<u8> {
    let content = Compound::<String>::from_iter(
        vec![(
            "uuid".to_string(),
            Value::String("2d318504-1a7b-39dc-8c18-44df798a5c06".to_string()),
        )]
        .into_iter(),
    );
    let mut buffer = Vec::new();
    to_binary(&content, &mut buffer, "").unwrap();
    buffer
}

fn uuid_in(document: &[u8]) -> Value<String> {
    let mut slice = document;
    let (de, _) = from_binary::<String>(&mut slice).unwrap();
    de.get("uuid").unwrap().clone()
}

#[test]
fn remap_test() {
    let buffer = document();

    // a region with one chunk, rewritten chunk by chunk with a callback that maps nothing
    let mut anvil = Anvil::new("r.0.0.mca");
    assert!(matches!(
        anvil.write(&Chunk {
            location: (0, 0),
            uncompressed: buffer.clone(),
            external: false,
            timestamp: 0,
        }),
        Ok(ExternalAction::Keep)
    ));
    let saved = anvil.content().clone();
    let input = Anvil::open("r.0.0.mca", saved).unwrap();
    let mut output = Anvil::new("r.0.0.mca");
    let mut iter = input.iter();
    while let Some(block) = iter.next() {
        match block.unwrap() {
            SlotRead::Loaded(chunk) => {
                assert!(matches!(
                    remap_chunk(&mut output, chunk, &|_| None),
                    Ok(ExternalAction::Keep)
                ));
            }
            SlotRead::Pending(_) => panic!("the chunk is in the image"),
        }
    }
    let mut iter = output.iter();
    match iter.next() {
        Some(Ok(SlotRead::Loaded(chunk))) => assert_eq!(chunk.uncompressed, buffer),
        _ => panic!("the chunk can be read"),
    }

    // a text file whose name holds the UUID
    let mut path = b"2d318504-1a7b-39dc-8c18-44df798a5c06.json".to_vec();
    let (text, renamed) = remap_file(
        "json",
        &mut path,
        b"2d318504-1a7b-39dc-8c18-44df798a5c06".to_vec(),
        &mapping,
    )
    .unwrap();
    assert_eq!(text, b"00000000-0000-0000-0000-000000000000".to_vec());
    assert!(renamed);
    assert_eq!(path, b"00000000-0000-0000-0000-000000000000.json".to_vec());

    // a dat file in a gzip member
    let mut encoder = flate2::write::GzEncoder::new(Vec::new(), flate2::Compression::default());
    encoder.write_all(&buffer).unwrap();
    let zipped = encoder.finish().unwrap();
    let mut path = b"2d318504-1a7b-39dc-8c18-44df798a5c06.dat".to_vec();
    let (out, renamed) = remap_file("dat", &mut path, zipped, &mapping).unwrap();
    let mut plain = Vec::new();
    flate2::read::GzDecoder::new(&out[..])
        .read_to_end(&mut plain)
        .unwrap();
    assert_eq!(
        uuid_in(&plain),
        Value::String("00000000-0000-0000-0000-000000000000".to_string())
    );
    assert!(renamed);
    assert_eq!(path, b"00000000-0000-0000-0000-000000000000.dat".to_vec());
}

#[test]
fn file_that_is_refused_keeps_its_name() {
    let mut path = b"2d318504-1a7b-39dc-8c18-44df798a5c06.nbt".to_vec();
    assert_eq!(
        remap_file("nbt", &mut path, vec![10, 0, 0], &mapping),
        Err(RemapError::Nbt(NbtError::UnexpectedEof))
    );
    assert_eq!(path, b"2d318504-1a7b-39dc-8c18-44df798a5c06.nbt".to_vec());
    // a file of no kind keeps its content, and its name is rewritten all the same
    let mut path = b"2d318504-1a7b-39dc-8c18-44df798a5c06.png".to_vec();
    assert_eq!(
        remap_file(
            "png",
            &mut path,
            b"2d318504-1a7b-39dc-8c18-44df798a5c06".to_vec(),
            &mapping
        ),
        Ok((b"2d318504-1a7b-39dc-8c18-44df798a5c06".to_vec(), true))
    );
    assert_eq!(path, b"00000000-0000-0000-0000-000000000000.png".to_vec());
    let mut path = b"level.dat".to_vec();
    assert_eq!(
        remap_file("dat", &mut path, vec![10, 0, 0, 0], &mapping),
        Ok((vec![10, 0, 0, 0], false))
    );
}

#[test]
fn dat_that_is_no_gzip_member_is_taken_as_it_is() {
    let buffer = document();
    let out = remap_dat(buffer.clone(), &mapping).unwrap();
    assert_eq!(out.len(), buffer.len());
    assert_eq!(
        uuid_in(&out),
        Value::String("00000000-0000-0000-0000-000000000000".to_string())
    );
    // an nbt file is never taken for a gzip member
    let mut encoder = flate2::write::GzEncoder::new(Vec::new(), flate2::Compression::default());
    encoder.write_all(&buffer).unwrap();
    let zipped = encoder.finish().unwrap();
    assert!(matches!(
        remap_nbt(zipped.clone(), &mapping),
        Err(RemapError::Nbt(_))
    ));
    assert!(matches!(
        remap_content(FileKind::Nbt, zipped.clone(), &mapping),
        Err(RemapError::Nbt(_))
    ));
    assert!(remap_content(FileKind::Dat, zipped, &mapping).is_ok());
    assert_eq!(
        uuid_in(&remap_nbt(buffer, &mapping).unwrap()),
        Value::String("00000000-0000-0000-0000-000000000000".to_string())
    );
}

#[test]
fn files_that_are_no_documents_are_refused() {
    assert_eq!(
        remap_dat(vec![], &mapping),
        Err(RemapError::Nbt(NbtError::UnexpectedEof))
    );
    assert_eq!(
        remap_nbt(vec![10, 0, 0, 0, 0], &mapping),
        Err(RemapError::Nbt(NbtError::TrailingData))
    );
    assert_eq!(
        remap_dat(vec![10, 0, 0, 99, 0, 0], &mapping),
        Err(RemapError::Nbt(NbtError::UnknownTag(99)))
    );
    // a gzip member that holds no document
    let mut encoder = flate2::write::GzEncoder::new(Vec::new(), flate2::Compression::default());
    encoder.write_all(&[10, 0, 0, 0, 0]).unwrap();
    let zipped = encoder.finish().unwrap();
    assert_eq!(
        remap_dat(zipped, &mapping),
        Err(RemapError::Nbt(NbtError::TrailingData))
    );
    // a chunk that is no document is not written
    let mut output = Anvil::new("r.0.0.mca");
    let chunk = Chunk {
        location: (1, 1),
        uncompressed: vec![10, 0],
        external: false,
        timestamp: 5,
    };
    assert!(matches!(
        remap_chunk(&mut output, chunk, &mapping),
        Err(RemapError::Nbt(NbtError::UnexpectedEof))
    ));
    assert_eq!(output.content(), &vec![0u8; 8192]);
    // a chunk that was outside of a region without coordinates cannot be taken back
    let mut output = Anvil::new("region");
    let chunk = Chunk {
        location: (1, 1),
        uncompressed: document(),
        external: true,
        timestamp: 5,
    };
    assert!(matches!(
        remap_chunk(&mut output, chunk, &mapping),
        Err(RemapError::Anvil(AnvilError::InvalidFileName))
    ));
}

#[test]
fn kinds_of_file_by_extension() {
    assert_eq!(file_kind("mca"), FileKind::Region);
    assert_eq!(file_kind("dat"), FileKind::Dat);
    assert_eq!(file_kind("nbt"), FileKind::Nbt);
    for ext in ["txt", "json", "json5", "properties", "toml", "yml", "yaml"] {
        assert_eq!(file_kind(ext), FileKind::Text);
    }
    for ext in ["", "MCA", "Dat", "mcc", "jsonl", "json 5", "tx", "png", "dat_old"] {
        assert_eq!(file_kind(ext), FileKind::Unsupported);
    }
    assert!(require_remapping("mca", true, 1, false));
    assert!(require_remapping("yaml", true, 100, false));
    assert!(!require_remapping("mca", false, 1, false));
    assert!(!require_remapping("mca", true, 0, false));
    assert!(!require_remapping("mca", true, 1, true));
    assert!(!require_remapping("png", true, 1, false));
    // what is no file of a kind that is rewritten is left as it is
    assert_eq!(
        remap_content(
            FileKind::Unsupported,
            b"2d318504-1a7b-39dc-8c18-44df798a5c06".to_vec(),
            &mapping
        ),
        Ok(b"2d318504-1a7b-39dc-8c18-44df798a5c06".to_vec())
    );
    assert_eq!(
        remap_content(FileKind::Region, vec![1, 2, 3], &mapping),
        Ok(vec![1, 2, 3])
    );
}

#[test]
fn path_without_a_mapped_uuid_is_kept() {
    let mut path = b"world/playerdata/2d318504-1a7b-39dc-8c18-44df798a5c07.dat".to_vec();
    assert!(!remap_path(&mut path, &mapping));
    assert_eq!(
        path,
        b"world/playerdata/2d318504-1a7b-39dc-8c18-44df798a5c07.dat".to_vec()
    );
    let mut path = b"world/stats/2d3185041a7b39dc8c1844df798a5c06.json".to_vec();
    assert!(remap_path(&mut path, &mapping));
    assert_eq!(
        path,
        b"world/stats/00000000000000000000000000000000.json".to_vec()
    );
    // a mapping to itself changes nothing
    let mut path = b"2d318504-1a7b-39dc-8c18-44df798a5c06".to_vec();
    assert!(!remap_path(&mut path, &|uuid| Some(uuid)));
    // bytes that are no text
    let mut path = vec![0xff, 0xfe, b'/'];
    path.extend_from_slice(b"2d318504-1a7b-39dc-8c18-44df798a5c06");
    path.push(0x80);
    assert!(remap_path(&mut path, &mapping));
    let mut expected = vec![0xff, 0xfe, b'/'];
    expected.extend_from_slice(b"00000000-0000-0000-0000-000000000000");
    expected.push(0x80);
    assert_eq!(path, expected);
}
