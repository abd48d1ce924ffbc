use std::collections::HashMap;
use std::io::Write;

use rand::Rng;
use uuid_remap::anvil::{
    decompress, parse_decimal, Anvil, AnvilError, AnvilIter, Chunk, ExternalAction, SlotRead,
};

const SECTOR_SIZE: usize = 4096;

/// The files beside the region file, by name.
type Files = HashMap<Vec<u8>, Vec<u8>>;

fn write(anvil: &mut Anvil, files: &mut Files, chunk: &Chunk) -> Result<(), String> {
    match anvil.write(chunk) {
        Ok(ExternalAction::Keep) => Ok(()),
        Ok(ExternalAction::Store { name, data }) => {
            files.insert(name, data);
            Ok(())
        }
        Ok(ExternalAction::Remove { name }) => match files.remove(&name) {
            Some(_) => Ok(()),
            None => Err("No such file".to_string()),
        },
        Err(e) => Err(e.message().to_string()),
    }
}

fn next(iter: &mut AnvilIter, files: &Files) -> Option<Result<Chunk, String>> {
    Some(match iter.next()? {
        Ok(SlotRead::Loaded(chunk)) => Ok(chunk),
        Ok(SlotRead::Pending(pending)) => match files.get(&pending.name) {
            Some(data) => pending.load(data).map_err(|e| e.message().to_string()),
            None => Err("Reading external chunk".to_string()),
        },
        Err(e) => Err(e.message().to_string()),
    })
}

fn rand_chunk(rng: &mut rand::rngs::ThreadRng, loc: (i32, i32), size: usize) -> Chunk {
    let mut uncompressed = vec![0; size];
    rng.fill(&mut uncompressed[..]);
    Chunk {
        external: false,
        location: loc,
        timestamp: rng.gen(),
        uncompressed: uncompressed,
    }
}

#[test]
fn anvil_test() {
    let mut files = Files::new();
    let mut anvil = Anvil::new("r.0.0.mca");
    let chunk1 = rand_chunk(&mut rand::thread_rng(), (0, 0), 1024);
    let chunk2 = rand_chunk(&mut rand::thread_rng(), (20, 20), 3424);
    write(&mut anvil, &mut files, &chunk1).unwrap();
    write(&mut anvil, &mut files, &chunk2).unwrap();
    let mut iter = anvil.iter();
    let chunk1_read = next(&mut iter, &files).unwrap().unwrap();
    let chunk2_read = next(&mut iter, &files).unwrap().unwrap();
    assert_eq!(chunk1.location, chunk1_read.location);
    assert_eq!(chunk1.timestamp, chunk1_read.timestamp);
    assert_eq!(chunk1.uncompressed, chunk1_read.uncompressed);
    assert_eq!(false, chunk1_read.external);
    assert_eq!(chunk2.location, chunk2_read.location);
    assert_eq!(chunk2.timestamp, chunk2_read.timestamp);
    assert_eq!(chunk2.uncompressed, chunk2_read.uncompressed);
    assert_eq!(false, chunk2_read.external);
    assert!(next(&mut iter, &files).is_none());
    assert!(files.is_empty());

    let mut anvil = Anvil::new("r.-1.-1.mca");
    let chunk = rand_chunk(&mut rand::thread_rng(), (0, 0), 8 * 1024 * 1024); // Large chunk
    write(&mut anvil, &mut files, &chunk).unwrap();
    let chunk1 = rand_chunk(&mut rand::thread_rng(), (22, 22), SECTOR_SIZE * 255 - 100); // Near the edge (above)
    write(&mut anvil, &mut files, &chunk1).unwrap();
    assert!(files.contains_key(&b"c.-32.-32.mcc".to_vec())); // External file
    let mut iter = anvil.iter();
    let chunk_read = next(&mut iter, &files).unwrap().unwrap();
    assert_eq!(chunk.location, chunk_read.location);
    assert_eq!(chunk.timestamp, chunk_read.timestamp);
    assert_eq!(chunk.uncompressed, chunk_read.uncompressed);
    assert_eq!(true, chunk_read.external);
    let chunk1_read = next(&mut iter, &files).unwrap().unwrap();
    assert_eq!(chunk1.location, chunk1_read.location);
    assert_eq!(chunk1.timestamp, chunk1_read.timestamp);
    assert_eq!(chunk1.uncompressed, chunk1_read.uncompressed);
    assert_eq!(true, chunk1_read.external);
    let saved = anvil.content().clone();
    anvil = Anvil::open("r.-1.-1.mca", saved).unwrap();
    let mut iter = anvil.iter();
    let chunk_read = next(&mut iter, &files).unwrap().unwrap();
    assert_eq!(chunk.location, chunk_read.location);
    assert_eq!(chunk.timestamp, chunk_read.timestamp);
    assert_eq!(chunk.uncompressed, chunk_read.uncompressed);
    assert_eq!(true, chunk_read.external);
    write(
        &mut anvil,
        &mut files,
        &Chunk {
            external: true,
            location: (0, 0),
            timestamp: 0,
            uncompressed: vec![0; 1024],
        },
    )
    .unwrap();
    write(
        &mut anvil,
        &mut files,
        &Chunk {
            external: true,
            location: (22, 22),
            timestamp: 0,
            uncompressed: vec![0; 4524],
        },
    )
    .unwrap();
    assert!(!files.contains_key(&b"c.-32.-32.mcc".to_vec()));
    assert!(files.is_empty());
    let mut iter = anvil.iter();
    let chunk_read = next(&mut iter, &files).unwrap().unwrap();
    assert_eq!((0, 0), chunk_read.location);
    assert_eq!(vec![0; 1024], chunk_read.uncompressed);
    assert_eq!(false, chunk_read.external);

    // Malformed file
    let mut invalid_header = vec![0; SECTOR_SIZE * 2];
    invalid_header[0] = 10;
    invalid_header[1] = 9;
    let anvil = Anvil::open("r.-1.-1.mca", invalid_header).unwrap();
    let mut iter = anvil.iter();
    let mut seen = 0;
    while let Some(chunk) = next(&mut iter, &files) {
        assert!(chunk.is_err());
        seen += 1;
    }
    assert_eq!(seen, 1);
    let mut invalid_length = vec![0; SECTOR_SIZE * 3];
    invalid_length[3] = 2;
    invalid_length[4] = 1;
    let anvil = Anvil::open("r.-1.-1.mca", invalid_length).unwrap();
    let mut iter = anvil.iter();
    let mut seen = 0;
    while let Some(chunk) = next(&mut iter, &files) {
        assert!(chunk.is_err());
        seen += 1;
    }
    assert_eq!(seen, 2);
    let mut invalid_compression = vec![0; SECTOR_SIZE * 3];
    invalid_compression[3] = 2;
    invalid_compression[4] = 1;
    invalid_compression[SECTOR_SIZE * 2 + 3] = 6;
    invalid_compression[SECTOR_SIZE * 2 + 4] = 5;
    let anvil = Anvil::open("r.-1.-1.mca", invalid_compression).unwrap();
    let mut iter = anvil.iter();
    while let Some(chunk) = next(&mut iter, &files) {
        assert!(chunk.is_err());
    }
}

#[test]
fn region_with_a_chunk_length_that_reaches_past_the_file() {
    let mut image = vec![0u8; SECTOR_SIZE * 3];
    // slot 0: one sector from sector 2 on
    image[0..4].copy_from_slice(&[0, 0, 2, 1]);
    image[SECTOR_SIZE * 2..SECTOR_SIZE * 2 + 4].copy_from_slice(&[2, 0, 0, 1]);
    let mut anvil = Anvil::open("r.0.0.mca", image).unwrap();
    // slot 1 holds a chunk that can be read
    let good = Chunk {
        external: false,
        location: (1, 0),
        timestamp: -7,
        uncompressed: b"payload".to_vec(),
    };
    assert!(matches!(anvil.write(&good), Ok(ExternalAction::Keep)));
    let mut iter = anvil.iter();
    match iter.next() {
        Some(Err(e)) => {
            assert_eq!(e, AnvilError::InvalidChunkLength);
            assert_eq!(e.message(), "Invalid chunk length");
        }
        _ => panic!("the first slot cannot be read"),
    }
    assert_eq!(iter.slot(), 1);
    match iter.next() {
        Some(Ok(SlotRead::Loaded(chunk))) => {
            assert_eq!(chunk.location, (1, 0));
            assert_eq!(chunk.timestamp, -7);
            assert_eq!(chunk.uncompressed, b"payload".to_vec());
            assert!(!chunk.external);
        }
        _ => panic!("the second slot can be read"),
    }
    assert_eq!(iter.slot(), 2);
    assert!(iter.next().is_none());
    assert_eq!(iter.slot(), 1024);
    assert!(iter.next().is_none());
}

#[test]
fn region_errors_each_from_an_image_that_gives_it() {
    assert!(matches!(
        Anvil::open("r.0.0.mca", vec![0; SECTOR_SIZE]),
        Err(AnvilError::InvalidFileSize)
    ));
    assert!(matches!(
        Anvil::open("r.0.0.mca", vec![]),
        Err(AnvilError::InvalidFileSize)
    ));
    // one byte more than a sector is two sectors
    let anvil = Anvil::open("r.0.0.mca", vec![0; SECTOR_SIZE + 1]).unwrap();
    assert_eq!(anvil.content().len(), 2 * SECTOR_SIZE);
    assert!(anvil.iter().next().is_none());

    let read = |image: Vec<u8>, name: &str| -> Result<SlotRead, AnvilError> {
        let anvil = Anvil::open(name, image).unwrap();
        let mut iter = anvil.iter();
        iter.next().unwrap()
    };
    // the sectors of the slot reach past the image
    let mut image = vec![0u8; SECTOR_SIZE * 3];
    image[0..4].copy_from_slice(&[0, 0, 2, 2]);
    assert_eq!(
        read(image, "r.0.0.mca").err(),
        Some(AnvilError::InvalidSectorCount)
    );
    // no sectors at the very end of the image: no length can be read
    let mut image = vec![0u8; SECTOR_SIZE * 3];
    image[0..4].copy_from_slice(&[0, 0, 3, 0]);
    assert_eq!(
        read(image, "r.0.0.mca").err(),
        Some(AnvilError::InvalidChunkLength)
    );
    // a length of zero
    let mut image = vec![0u8; SECTOR_SIZE * 3];
    image[0..4].copy_from_slice(&[0, 0, 2, 1]);
    assert_eq!(
        read(image, "r.0.0.mca").err(),
        Some(AnvilError::InvalidChunkLength)
    );
    // an unknown compression
    let mut image = vec![0u8; SECTOR_SIZE * 3];
    image[0..4].copy_from_slice(&[0, 0, 2, 1]);
    image[SECTOR_SIZE * 2..SECTOR_SIZE * 2 + 5].copy_from_slice(&[0, 0, 0, 1, 5]);
    assert_eq!(
        read(image, "r.0.0.mca").err(),
        Some(AnvilError::UnknownCompression)
    );
    // payloads that are no streams
    for (kind, error) in [
        (1u8, AnvilError::Gzip),
        (2u8, AnvilError::Zlib),
        (4u8, AnvilError::Lz4),
    ] {
        let mut image = vec![0u8; SECTOR_SIZE * 3];
        image[0..4].copy_from_slice(&[0, 0, 2, 1]);
        image[SECTOR_SIZE * 2..SECTOR_SIZE * 2 + 16]
            .copy_from_slice(&[0, 0, 0, 12, kind, 1, 2, 3, 4, 5, 6, 7, 8, 9, 10, 11]);
        assert_eq!(read(image, "r.0.0.mca").err(), Some(error));
    }
    // a raw payload
    let mut image = vec![0u8; SECTOR_SIZE * 3];
    image[4 * 33..4 * 33 + 4].copy_from_slice(&[0, 0, 2, 1]);
    image[SECTOR_SIZE + 4 * 33..SECTOR_SIZE + 4 * 33 + 4].copy_from_slice(&[255, 255, 255, 254]);
    image[SECTOR_SIZE * 2..SECTOR_SIZE * 2 + 8].copy_from_slice(&[0, 0, 0, 4, 3, 1, 2, 3]);
    match read(image, "r.0.0.mca") {
        Ok(SlotRead::Loaded(chunk)) => {
            assert_eq!(chunk.location, (1, 1));
            assert_eq!(chunk.timestamp, -2);
            assert_eq!(chunk.uncompressed, vec![1, 2, 3]);
            assert!(!chunk.external);
        }
        _ => panic!("a raw payload can be read"),
    }
    // an external chunk of a region whose name has no coordinates
    for (name, error) in [
        ("", AnvilError::InvalidFileName),
        ("region.mca", AnvilError::InvalidFileName),
        ("r", AnvilError::InvalidFileName),
        ("r.1", AnvilError::InvalidFileName),
        ("r.1.2", AnvilError::InvalidFileName),
        ("a.1.2", AnvilError::InvalidFileName),
        ("a.1.2.mca", AnvilError::InvalidFileName),
        ("R.1.2.mca", AnvilError::InvalidFileName),
        ("r.1.2.mcc", AnvilError::InvalidFileName),
        ("r.1.2.MCA", AnvilError::InvalidFileName),
        ("r.1.2.mca.", AnvilError::InvalidFileName),
        ("r.1.2.mca.bak", AnvilError::InvalidFileName),
        ("r.1.2.3.mca", AnvilError::InvalidFileName),
        (".1.2.mca", AnvilError::InvalidFileName),
        ("rr.1.2.mca", AnvilError::InvalidFileName),
        ("x.10.20", AnvilError::InvalidFileName),
        (".007.08.anything.else", AnvilError::InvalidFileName),
        ("r.x.1.mca", AnvilError::InvalidXCoordinate),
        ("r..1.mca", AnvilError::InvalidXCoordinate),
        ("r.x.z.mca", AnvilError::InvalidXCoordinate),
        ("r.1..mca", AnvilError::InvalidZCoordinate),
        ("r.1.-.mca", AnvilError::InvalidZCoordinate),
        ("r.1.2 .mca", AnvilError::InvalidZCoordinate),
        ("r.288230376151711744.0.mca", AnvilError::InvalidXCoordinate),
        ("r.0.-288230376151711745.mca", AnvilError::InvalidZCoordinate),
    ] {
        let mut image = vec![0u8; SECTOR_SIZE * 3];
        image[0..4].copy_from_slice(&[0, 0, 2, 1]);
        image[SECTOR_SIZE * 2..SECTOR_SIZE * 2 + 5].copy_from_slice(&[0, 0, 0, 1, 130]);
        assert_eq!(read(image, name).err(), Some(error));
    }
}

#[test]
fn external_chunks_are_named_by_global_coordinates() {
    let name_of = |region: &str, location: (i32, i32)| -> String {
        let anvil = Anvil::new(region);
        String::from_utf8(anvil.external_location(location).unwrap()).unwrap()
    };
    assert_eq!(name_of("r.0.0.mca", (0, 0)), "c.0.0.mcc");
    assert_eq!(name_of("r.-1.-1.mca", (0, 0)), "c.-32.-32.mcc");
    assert_eq!(name_of("r.-1.2.mca", (31, 5)), "c.-1.69.mcc");
    assert_eq!(name_of("r.+3.-0.mca", (1, 31)), "c.97.31.mcc");
    assert_eq!(name_of("r.10.20.mca", (0, 0)), "c.320.640.mcc");
    assert_eq!(name_of("r.007.08.mca", (0, 0)), "c.224.256.mcc");
    assert_eq!(AnvilError::InvalidFileName.message(), "Invalid file name");
    assert_eq!(
        name_of("r.288230376151711743.-288230376151711744.mca", (31, 0)),
        "c.9223372036854775807.-9223372036854775808.mcc"
    );
}

#[test]
fn decimal_numbers_as_the_region_name_holds_them() {
    assert_eq!(parse_decimal(b"0"), Some(0));
    assert_eq!(parse_decimal(b"-0"), Some(0));
    assert_eq!(parse_decimal(b"+17"), Some(17));
    assert_eq!(parse_decimal(b"-17"), Some(-17));
    assert_eq!(parse_decimal(b"0042"), Some(42));
    assert_eq!(parse_decimal(b"9223372036854775807"), Some(i64::MAX));
    assert_eq!(parse_decimal(b"-9223372036854775808"), Some(i64::MIN));
    assert_eq!(parse_decimal(b"9223372036854775808"), None);
    assert_eq!(parse_decimal(b"-9223372036854775809"), None);
    assert_eq!(parse_decimal(b"99999999999999999999999999999999"), None);
    assert_eq!(parse_decimal(b""), None);
    assert_eq!(parse_decimal(b"-"), None);
    assert_eq!(parse_decimal(b"+"), None);
    assert_eq!(parse_decimal(b"1 "), None);
    assert_eq!(parse_decimal(b"--1"), None);
    assert_eq!(parse_decimal(b"1a"), None);
    for text in ["0", "-1", "+5", "12345", "x", "", "-", "007", "-9223372036854775808"] {
        assert_eq!(parse_decimal(text.as_bytes()), text.parse::<i64>().ok());
    }
}

#[test]
fn written_image_is_laid_out_in_sectors() {
    let mut anvil = Anvil::new("r.0.0.mca");
    assert_eq!(anvil.content(), &vec![0u8; 2 * SECTOR_SIZE]);
    let chunk = Chunk {
        external: false,
        location: (3, 2),
        timestamp: 0x01020304,
        uncompressed: vec![7; 10000],
    };
    assert!(matches!(anvil.write(&chunk), Ok(ExternalAction::Keep)));
    let image = anvil.content().clone();
    assert_eq!(image.len(), 3 * SECTOR_SIZE);
    let slot = 2 * 32 + 3;
    // the location word: sector 2, one sector
    assert_eq!(&image[slot * 4..slot * 4 + 4], &[0, 0, 2, 1]);
    assert_eq!(
        &image[SECTOR_SIZE + slot * 4..SECTOR_SIZE + slot * 4 + 4],
        &[1, 2, 3, 4]
    );
    let length = u32::from_be_bytes(image[2 * SECTOR_SIZE..2 * SECTOR_SIZE + 4].try_into().unwrap())
        as usize;
    assert_eq!(image[2 * SECTOR_SIZE + 4], 2);
    let compressed = &image[2 * SECTOR_SIZE + 5..2 * SECTOR_SIZE + 4 + length];
    assert_eq!(decompress(2, compressed), Ok(vec![7; 10000]));
    assert!(image[2 * SECTOR_SIZE + 4 + length..].iter().all(|b| *b == 0));
    // all other slots are empty
    for other in 0..1024 {
        if other != slot {
            assert_eq!(&image[other * 4..other * 4 + 4], &[0, 0, 0, 0]);
        }
    }
    // a second write to the slot: the slot points at the new chunk
    let again = Chunk {
        external: false,
        location: (3, 2),
        timestamp: -1,
        uncompressed: vec![9; 5],
    };
    assert!(matches!(anvil.write(&again), Ok(ExternalAction::Keep)));
    let image = anvil.content().clone();
    assert_eq!(image.len(), 4 * SECTOR_SIZE);
    assert_eq!(&image[slot * 4..slot * 4 + 4], &[0, 0, 3, 1]);
    assert_eq!(
        &image[SECTOR_SIZE + slot * 4..SECTOR_SIZE + slot * 4 + 4],
        &[255, 255, 255, 255]
    );
    let mut iter = anvil.iter();
    match iter.next() {
        Some(Ok(SlotRead::Loaded(read))) => {
            assert_eq!(read.uncompressed, vec![9; 5]);
            assert_eq!(read.timestamp, -1);
        }
        _ => panic!("the chunk can be read"),
    }
    assert!(iter.next().is_none());
    assert_eq!(anvil.align(), 4 * SECTOR_SIZE);
}

#[test]
fn too_large_chunk_leaves_a_stub() {
    let mut anvil = Anvil::new("r.1.-2.mca");
    let mut payload = vec![0u8; 2 * 1024 * 1024];
    rand::thread_rng().fill(&mut payload[..]);
    let chunk = Chunk {
        external: false,
        location: (5, 6),
        timestamp: 1,
        uncompressed: payload.clone(),
    };
    let (name, data) = match anvil.write(&chunk) {
        Ok(ExternalAction::Store { name, data }) => (name, data),
        _ => panic!("the chunk is stored outside"),
    };
    assert_eq!(name, b"c.37.-58.mcc".to_vec());
    assert_eq!(decompress(2, &data), Ok(payload.clone()));
    let image = anvil.content().clone();
    assert_eq!(image.len(), 3 * SECTOR_SIZE);
    let slot = 6 * 32 + 5;
    assert_eq!(&image[slot * 4..slot * 4 + 4], &[0, 0, 2, 1]);
    assert_eq!(&image[2 * SECTOR_SIZE..2 * SECTOR_SIZE + 5], &[0, 0, 0, 1, 130]);
    let mut iter = anvil.iter();
    let pending = match iter.next() {
        Some(Ok(SlotRead::Pending(pending))) => pending,
        _ => panic!("the payload is outside"),
    };
    assert_eq!(pending.name, name);
    assert_eq!(pending.kind, 2);
    assert_eq!(pending.location, (5, 6));
    assert_eq!(pending.timestamp, 1);
    let read = pending.load(&data).unwrap();
    assert!(read.external);
    assert_eq!(read.uncompressed, payload);
    assert_eq!(pending.load(&[1, 2, 3]).err(), Some(AnvilError::Zlib));
    // a region whose name has no coordinates cannot store it, and stays as it was
    let mut nameless = Anvil::new("region.mca");
    assert_eq!(
        nameless.write(&chunk).err(),
        Some(AnvilError::InvalidFileName)
    );
    let mut expected = vec![0u8; 2 * SECTOR_SIZE];
    expected[SECTOR_SIZE + slot * 4 + 3] = 1;
    assert_eq!(nameless.content(), &expected);
    // nor can it take back a chunk that was outside
    let small = Chunk {
        external: true,
        location: (5, 6),
        timestamp: 1,
        uncompressed: vec![1, 2, 3],
    };
    assert_eq!(
        nameless.write(&small).err(),
        Some(AnvilError::InvalidFileName)
    );
    assert_eq!(nameless.content(), &expected);
    assert!(nameless.iter().next().is_none());
}

#[test]
fn chunks_of_every_compression_are_read() {

    let payload: Vec<u8> = (0..5000u32).map(|i| (i % 251) as u8).collect();
    let mut gzip = flate2::write::GzEncoder::new(Vec::new(), flate2::Compression::default());
    gzip.write_all(&payload).unwrap();
    let gzip = gzip.finish().unwrap();
    let mut zlib = flate2::write::ZlibEncoder::new(Vec::new(), flate2::Compression::default());
    zlib.write_all(&payload).unwrap();
    let zlib = zlib.finish().unwrap();
    let mut lz4 = lz4::EncoderBuilder::new().build(Vec::new()).unwrap();
    lz4.write_all(&payload).unwrap();
    let (lz4, result) = lz4.finish();
    result.unwrap();
    assert_ne!(gzip, payload);
    assert_ne!(zlib, payload);
    assert_ne!(lz4, payload);
    assert_eq!(decompress(1, &gzip), Ok(payload.clone()));
    assert_eq!(decompress(2, &zlib), Ok(payload.clone()));
    assert_eq!(decompress(3, &payload), Ok(payload.clone()));
    assert_eq!(decompress(4, &lz4), Ok(payload.clone()));
    assert_eq!(decompress(0, &payload), Err(AnvilError::UnknownCompression));
    assert_eq!(decompress(5, &payload), Err(AnvilError::UnknownCompression));
    assert_eq!(decompress(1, &zlib), Err(AnvilError::Gzip));
    assert_eq!(decompress(2, &gzip), Err(AnvilError::Zlib));
    assert_eq!(decompress(4, &gzip), Err(AnvilError::Lz4));
    for (kind, data) in [(1u8, &gzip), (2u8, &zlib), (3u8, &payload), (4u8, &lz4)] {
        let mut image = vec![0u8; SECTOR_SIZE * 2];
        image[0..4].copy_from_slice(&[0, 0, 2, 2]);
        image.extend_from_slice(&(data.len() as u32 + 1).to_be_bytes());
        image.push(kind);
        image.extend_from_slice(data);
        image.resize(SECTOR_SIZE * 4, 0);
        let anvil = Anvil::open("r.0.0.mca", image).unwrap();
        let mut iter = anvil.iter();
        match iter.next() {
            Some(Ok(SlotRead::Loaded(chunk))) => assert_eq!(chunk.uncompressed, payload),
            _ => panic!("the chunk can be read"),
        }
    }
}

#[test]
fn sectors_are_counted_with_the_length_and_the_tag() {
    let sectors_of = |len: usize| -> (u8, usize, bool) {
        let mut anvil = Anvil::new("r.0.0.mca");
        let action = anvil
            .write_compressed(false, (0, 0), 0, vec![0xaa; len])
            .unwrap();
        let image = anvil.content();
        assert_eq!(&image[0..3], &[0, 0, 2]);
        (
            image[3],
            image.len() / SECTOR_SIZE - 2,
            matches!(action, ExternalAction::Store { .. }),
        )
    };
    // four bytes of length, one of tag, and the payload
    assert_eq!(sectors_of(0), (1, 1, false));
    assert_eq!(sectors_of(4091), (1, 1, false));
    assert_eq!(sectors_of(4092), (2, 2, false));
    assert_eq!(sectors_of(2 * 4096 - 5), (2, 2, false));
    assert_eq!(sectors_of(2 * 4096 - 4), (3, 3, false));
    // 255 sectors are the most that a slot can name
    assert_eq!(sectors_of(255 * 4096 - 5), (255, 255, false));
    assert_eq!(sectors_of(255 * 4096 - 4), (1, 1, true));
    // what is written is the payload as it was handed over
    let mut anvil = Anvil::new("r.0.0.mca");
    assert!(matches!(
        anvil.write_compressed(true, (31, 0), 7, vec![1, 2, 3]),
        Ok(ExternalAction::Remove { name }) if name == b"c.31.0.mcc".to_vec()
    ));
    let image = anvil.content();
    assert_eq!(&image[31 * 4..31 * 4 + 4], &[0, 0, 2, 1]);
    assert_eq!(
        &image[2 * SECTOR_SIZE..2 * SECTOR_SIZE + 8],
        &[0, 0, 0, 4, 2, 1, 2, 3]
    );
}
