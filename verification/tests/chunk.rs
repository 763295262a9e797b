use minecraft_world_optimizer::nbt::tag::{NamedTag, Tag};
use minecraft_world_optimizer::region_loader::chunk_loader::chunk::{Chunk, Content};
use minecraft_world_optimizer::region_loader::chunk_loader::compression_scheme::CompressionScheme;
use minecraft_world_optimizer::region_loader::location::Location;

fn named(name: &str, tag: Tag) -> NamedTag {
    NamedTag { name: name.as_bytes().to_vec(), tag }
}

fn text(s: &str) -> Tag {
    Tag::String(s.as_bytes().to_vec())
}

fn chunk_tree(x: i32, z: i32, status: Option<&str>, inhabited: Option<i64>) -> NamedTag {
    let mut children = vec![named("xPos", Tag::Int(x)), named("zPos", Tag::Int(z))];
    if let Some(s) = status {
        children.push(named("Status", text(s)));
    }
    if let Some(t) = inhabited {
        children.push(named("InhabitedTime", Tag::Long(t)));
    }
    named("", Tag::Compound(children))
}

fn palette_entry(name: &str) -> Tag {
    Tag::Compound(vec![named("Name", text(name))])
}

fn with_palette(palette: Tag) -> NamedTag {
    named(
        "",
        Tag::Compound(vec![
            named("xPos", Tag::Int(0)),
            named("zPos", Tag::Int(0)),
            named("block_states", Tag::Compound(vec![named("palette", palette)])),
        ]),
    )
}

fn record(scheme: u8, payload: &[u8]) -> Vec<u8> {
    let mut out = ((payload.len() + 1) as u32).to_be_bytes().to_vec();
    out.push(scheme);
    out.extend_from_slice(payload);
    out
}

fn file_with_record_at_sector(sector: usize, record: &[u8]) -> Vec<u8> {
    let mut file = vec![0u8; 8192 + sector * 4096];
    file.extend_from_slice(record);
    file
}

fn decoded(tree: NamedTag) -> Chunk {
    Chunk {
        nbt: Content::Tree(tree),
        location: Location { sector_offset: 0, sector_count: 1, timestamp: 0 },
        compression_scheme: CompressionScheme::Zlib,
        index: 0,
    }
}

fn opaque(scheme: CompressionScheme, raw: &[u8]) -> Chunk {
    Chunk {
        nbt: Content::Opaque(raw.to_vec()),
        location: Location { sector_offset: 0, sector_count: 1, timestamp: 0 },
        compression_scheme: scheme,
        index: 0,
    }
}

#[test]
fn a_record_of_each_known_scheme_is_decoded() {
    let tree = chunk_tree(3, -4, Some("minecraft:full"), Some(100));
    for (byte, scheme) in [
        (1u8, CompressionScheme::Gzip),
        (2u8, CompressionScheme::Zlib),
        (4u8, CompressionScheme::Lz4),
    ] {
        let payload = scheme.encode(&tree.to_bytes(), 6);
        let file = file_with_record_at_sector(2, &record(byte, &payload));
        let location = Location { sector_offset: 2, sector_count: 1, timestamp: 99 };
        let chunk = Chunk::from_location(&file, location, 17).unwrap();
        assert_eq!(chunk.nbt, Content::Tree(chunk_tree(3, -4, Some("minecraft:full"), Some(100))));
        assert_eq!(chunk.compression_scheme, scheme);
        assert_eq!(chunk.location, location);
        assert_eq!(chunk.index, 17);
        assert_eq!(chunk.get_position(), Ok((3, -4)));
    }
}

#[test]
fn a_record_of_an_unknown_scheme_is_kept_as_it_is() {
    let rec = record(3, b"whatever this is");
    let file = file_with_record_at_sector(0, &rec);
    let location = Location { sector_offset: 0, sector_count: 1, timestamp: 1 };
    let chunk = Chunk::from_location(&file, location, 0).unwrap();
    assert_eq!(chunk.nbt, Content::Opaque(b"whatever this is".to_vec()));
    assert_eq!(chunk.compression_scheme, CompressionScheme::Unknown(3));
    assert!(!chunk.should_delete());
    assert!(chunk.get_position().is_err());
    assert_eq!(chunk.count_block("minecraft:stone"), 0);
    assert_eq!(chunk.to_bytes(6), Some(rec.clone()));
    assert_eq!(chunk.to_bytes(0), Some(rec));
}

#[test]
fn a_payload_that_does_not_decompress_is_kept_as_it_is() {
    let rec = record(2, &[1, 2, 3, 4, 5, 6, 7, 8, 9]);
    let file = file_with_record_at_sector(1, &rec);
    let location = Location { sector_offset: 1, sector_count: 1, timestamp: 1 };
    let chunk = Chunk::from_location(&file, location, 5).unwrap();
    assert_eq!(chunk.nbt, Content::Opaque(vec![1, 2, 3, 4, 5, 6, 7, 8, 9]));
    assert_eq!(chunk.compression_scheme, CompressionScheme::Zlib);
    assert!(!chunk.should_delete());
    assert_eq!(chunk.to_bytes(9), Some(rec));
}

#[test]
fn a_payload_that_holds_no_tree_is_kept_as_it_is() {
    let payload = CompressionScheme::Zlib.encode(&[0x0d, 0x00, 0x00, 0x01], 6);
    let rec = record(2, &payload);
    let file = file_with_record_at_sector(0, &rec);
    let location = Location { sector_offset: 0, sector_count: 1, timestamp: 1 };
    let chunk = Chunk::from_location(&file, location, 0).unwrap();
    assert_eq!(chunk.nbt, Content::Opaque(payload));
    assert!(!chunk.should_delete());
    assert_eq!(chunk.to_bytes(6), Some(rec));
}

#[test]
fn an_empty_payload_is_kept_as_it_is() {
    let rec = record(2, &[]);
    let file = file_with_record_at_sector(0, &rec);
    let location = Location { sector_offset: 0, sector_count: 1, timestamp: 1 };
    let chunk = Chunk::from_location(&file, location, 0).unwrap();
    assert_eq!(chunk.nbt, Content::Opaque(vec![]));
    assert_eq!(chunk.to_bytes(6), Some(vec![0, 0, 0, 1, 2]));
}

#[test]
fn a_record_beyond_the_file_is_no_chunk() {
    let rec = record(2, &[1, 2, 3]);
    let file = file_with_record_at_sector(0, &rec);
    let beyond = Location { sector_offset: 1, sector_count: 1, timestamp: 0 };
    assert!(Chunk::from_location(&file, beyond, 0).is_err());
    let far = Location { sector_offset: 0x00ff_ffff, sector_count: 255, timestamp: 0 };
    assert!(Chunk::from_location(&file, far, 0).is_err());
    let cut = &file[..file.len() - 1];
    let here = Location { sector_offset: 0, sector_count: 1, timestamp: 0 };
    assert!(Chunk::from_location(cut, here, 0).is_err());
    assert!(Chunk::from_location(&file[..8192 + 4], here, 0).is_err());
    assert!(Chunk::from_location(&file, here, 0).is_ok());
}

#[test]
fn a_record_of_length_zero_is_no_chunk() {
    let file = file_with_record_at_sector(0, &[0, 0, 0, 0, 2, 9, 9, 9]);
    let here = Location { sector_offset: 0, sector_count: 1, timestamp: 0 };
    assert!(Chunk::from_location(&file, here, 0).is_err());
}

#[test]
fn a_record_is_length_scheme_payload() {
    let chunk = decoded(chunk_tree(0, 0, None, None));
    assert_eq!(
        chunk.to_bytes_compression_scheme(CompressionScheme::Zlib, &[7, 8, 9]),
        vec![0, 0, 0, 4, 2, 7, 8, 9]
    );
    assert_eq!(
        chunk.to_bytes_compression_scheme(CompressionScheme::Gzip, &[]),
        vec![0, 0, 0, 1, 1]
    );
    assert_eq!(
        chunk.to_bytes_compression_scheme(CompressionScheme::Unknown(200), &[0; 300])[..5],
        [0, 0, 1, 45, 200]
    );
}

#[test]
fn a_decoded_chunk_is_written_under_its_own_scheme() {
    let tree = chunk_tree(1, 2, Some("minecraft:full"), Some(5));
    let tree_bytes = tree.to_bytes();
    for scheme in [CompressionScheme::Gzip, CompressionScheme::Zlib, CompressionScheme::Lz4] {
        let chunk = Chunk {
            nbt: Content::Tree(chunk_tree(1, 2, Some("minecraft:full"), Some(5))),
            location: Location { sector_offset: 0, sector_count: 1, timestamp: 0 },
            compression_scheme: scheme,
            index: 0,
        };
        let rec = chunk.to_bytes(6).unwrap();
        let length = u32::from_be_bytes([rec[0], rec[1], rec[2], rec[3]]) as usize;
        assert_eq!(length, rec.len() - 4);
        assert_eq!(rec[4], scheme.to_u8());
        assert_eq!(scheme.decode(&rec[5..]), Some(tree_bytes.clone()));
    }
}

#[test]
fn a_written_chunk_is_read_back() {
    let chunk = decoded(chunk_tree(-7, 9, Some("minecraft:full"), Some(1)));
    let rec = chunk.to_bytes(3).unwrap();
    let file = file_with_record_at_sector(4, &rec);
    let location = Location { sector_offset: 4, sector_count: 1, timestamp: 0 };
    let back = Chunk::from_location(&file, location, 0).unwrap();
    assert_eq!(back.nbt, chunk.nbt);
    assert_eq!(back.compression_scheme, CompressionScheme::Zlib);
}

#[test]
fn a_full_and_inhabited_chunk_is_kept() {
    assert!(!decoded(chunk_tree(0, 0, Some("minecraft:full"), Some(100))).should_delete());
    assert!(!decoded(chunk_tree(0, 0, Some("minecraft:full"), Some(1))).should_delete());
    assert!(!decoded(chunk_tree(0, 0, Some("minecraft:full"), Some(i64::MAX))).should_delete());
}

#[test]
fn a_chunk_without_both_fields_is_deleted() {
    assert!(decoded(chunk_tree(0, 0, None, None)).should_delete());
    assert!(decoded(named("", Tag::Compound(vec![]))).should_delete());
}

#[test]
fn a_chunk_that_is_not_full_or_not_inhabited_is_deleted() {
    assert!(decoded(chunk_tree(0, 0, Some("minecraft:full"), Some(0))).should_delete());
    assert!(decoded(chunk_tree(0, 0, Some("minecraft:full"), Some(-1))).should_delete());
    assert!(decoded(chunk_tree(0, 0, Some("minecraft:full"), None)).should_delete());
    assert!(decoded(chunk_tree(0, 0, Some("partial"), Some(100))).should_delete());
    assert!(decoded(chunk_tree(0, 0, Some("minecraft:ful"), Some(100))).should_delete());
    assert!(decoded(chunk_tree(0, 0, Some("minecraft:full "), Some(100))).should_delete());
    assert!(decoded(chunk_tree(0, 0, None, Some(100))).should_delete());
}

#[test]
fn fields_of_another_kind_count_as_missing() {
    let status_is_int = named(
        "",
        Tag::Compound(vec![
            named("Status", Tag::Int(1)),
            named("InhabitedTime", Tag::Long(100)),
        ]),
    );
    assert!(!decoded(status_is_int).is_fully_generated());
    let time_is_int = named(
        "",
        Tag::Compound(vec![
            named("Status", text("minecraft:full")),
            named("InhabitedTime", Tag::Int(100)),
        ]),
    );
    let chunk = decoded(time_is_int);
    assert!(chunk.is_fully_generated());
    assert!(!chunk.has_been_inhabited());
    assert!(chunk.should_delete());
}

#[test]
fn the_first_field_of_a_name_decides() {
    let tree = named(
        "",
        Tag::Compound(vec![
            named("Status", text("partial")),
            named("Status", text("minecraft:full")),
            named("InhabitedTime", Tag::Long(100)),
        ]),
    );
    assert!(decoded(tree).should_delete());
}

#[test]
fn a_root_that_is_no_compound_has_no_fields() {
    let chunk = decoded(named("", Tag::Int(5)));
    assert!(chunk.should_delete());
    assert!(chunk.get_position().is_err());
    assert_eq!(chunk.count_block("a"), 0);
}

#[test]
fn the_position_is_two_ints() {
    assert_eq!(decoded(chunk_tree(5, -6, None, None)).get_position(), Ok((5, -6)));
    assert_eq!(
        decoded(chunk_tree(i32::MIN, i32::MAX, None, None)).get_position(),
        Ok((i32::MIN, i32::MAX))
    );
    let no_z = named("", Tag::Compound(vec![named("xPos", Tag::Int(1))]));
    assert_eq!(decoded(no_z).get_position(), Err("No position for this chunk"));
    let long_x = named(
        "",
        Tag::Compound(vec![named("xPos", Tag::Long(1)), named("zPos", Tag::Int(1))]),
    );
    assert_eq!(decoded(long_x).get_position(), Err("No position for this chunk"));
    assert!(opaque(CompressionScheme::Zlib, b"raw").get_position().is_err());
}

#[test]
fn the_palette_is_counted() {
    let palette = Tag::List(
        10,
        vec![
            palette_entry("minecraft:stone"),
            palette_entry("minecraft:dirt"),
            palette_entry("minecraft:stone"),
            palette_entry("minecraft:stone"),
            palette_entry("minecraft:stone "),
        ],
    );
    let chunk = decoded(with_palette(palette));
    assert_eq!(chunk.count_block("minecraft:stone"), 3);
    assert_eq!(chunk.count_block("minecraft:dirt"), 1);
    assert_eq!(chunk.count_block("minecraft:air"), 0);
    assert_eq!(chunk.count_block(""), 0);
}

#[test]
fn a_broken_path_counts_nothing() {
    assert_eq!(decoded(chunk_tree(0, 0, None, None)).count_block("a"), 0);
    assert_eq!(decoded(with_palette(Tag::Compound(vec![]))).count_block("a"), 0);
    assert_eq!(decoded(with_palette(text("a"))).count_block("a"), 0);
    assert_eq!(decoded(with_palette(Tag::List(8, vec![text("a"), text("a")]))).count_block("a"), 0);
    let no_list = named(
        "",
        Tag::Compound(vec![named("block_states", Tag::Compound(vec![]))]),
    );
    assert_eq!(decoded(no_list).count_block("a"), 0);
    let states_is_list = named(
        "",
        Tag::Compound(vec![named("block_states", Tag::List(10, vec![palette_entry("a")]))]),
    );
    assert_eq!(decoded(states_is_list).count_block("a"), 0);
    assert_eq!(opaque(CompressionScheme::Unknown(9), b"raw").count_block("a"), 0);
}

#[test]
fn palette_entries_without_a_name_string_do_not_count() {
    let palette = Tag::List(
        10,
        vec![
            Tag::Compound(vec![named("Name", Tag::Int(1))]),
            Tag::Compound(vec![named("name", text("a"))]),
            Tag::Compound(vec![]),
            Tag::Compound(vec![named("Name", text("b")), named("Name", text("a"))]),
            palette_entry("a"),
        ],
    );
    assert_eq!(decoded(with_palette(palette)).count_block("a"), 1);
}

#[test]
fn an_opaque_chunk_is_never_deleted() {
    let chunk = opaque(CompressionScheme::Unknown(3), b"raw");
    assert!(!chunk.should_delete());
    assert!(!chunk.is_fully_generated());
    assert!(!chunk.has_been_inhabited());
}

#[test]
fn a_missing_record_says_so() {
    let here = Location { sector_offset: 0, sector_count: 1, timestamp: 0 };
    assert_eq!(
        Chunk::from_location(&[0u8; 8192], here, 0).err(),
        Some("no whole record stands at the location")
    );
    let file = file_with_record_at_sector(0, &[0, 0, 0, 9, 2, 1]);
    assert_eq!(
        Chunk::from_location(&file, here, 0).err(),
        Some("no whole record stands at the location")
    );
}

#[test]
fn a_copy_of_a_chunk_is_the_same_chunk() {
    let chunk = decoded(chunk_tree(1, 2, Some("minecraft:full"), Some(3)));
    assert_eq!(chunk.clone(), chunk);
    assert_eq!(chunk.clone().to_bytes(6), chunk.to_bytes(6));
    let raw = opaque(CompressionScheme::Unknown(9), b"raw");
    assert_eq!(raw.clone(), raw);
    assert_eq!(raw.nbt.clone(), Content::Opaque(b"raw".to_vec()));
}

#[test]
fn the_payload_of_an_opaque_chunk_is_its_bytes() {
    let chunk = opaque(CompressionScheme::Zlib, b"not a stream");
    assert_eq!(chunk.payload(6), b"not a stream".to_vec());
    assert_eq!(chunk.payload(0), b"not a stream".to_vec());
}

#[test]
fn the_payload_of_a_tree_decodes_to_the_bytes_of_the_tree() {
    let tree = chunk_tree(8, 9, Some("minecraft:full"), Some(7));
    let tree_bytes = tree.to_bytes();
    for scheme in [CompressionScheme::Gzip, CompressionScheme::Zlib, CompressionScheme::Lz4] {
        let chunk = Chunk {
            nbt: Content::Tree(chunk_tree(8, 9, Some("minecraft:full"), Some(7))),
            location: Location { sector_offset: 0, sector_count: 1, timestamp: 0 },
            compression_scheme: scheme,
            index: 0,
        };
        let payload = chunk.payload(6);
        assert_ne!(payload, tree_bytes);
        assert_eq!(scheme.decode(&payload), Some(tree_bytes.clone()));
        let record = chunk.to_bytes(6).unwrap();
        assert_eq!(record[5..], payload[..]);
    }
}

#[test]
fn the_payload_of_a_tree_under_an_unknown_scheme_is_the_bytes_of_the_tree() {
    let chunk = Chunk {
        nbt: Content::Tree(chunk_tree(8, 9, None, None)),
        location: Location { sector_offset: 0, sector_count: 1, timestamp: 0 },
        compression_scheme: CompressionScheme::Unknown(3),
        index: 0,
    };
    assert_eq!(chunk.payload(6), chunk_tree(8, 9, None, None).to_bytes());
}

#[test]
fn a_chunk_that_was_read_is_written_with_the_bytes_that_were_read() {
    let stream = chunk_tree(2, 3, Some("minecraft:full"), Some(4)).to_bytes();
    for (byte, scheme) in [
        (1u8, CompressionScheme::Gzip),
        (2u8, CompressionScheme::Zlib),
        (4u8, CompressionScheme::Lz4),
    ] {
        let file = file_with_record_at_sector(0, &record(byte, &scheme.encode(&stream, 1)));
        let location = Location { sector_offset: 0, sector_count: 1, timestamp: 0 };
        let chunk = Chunk::from_location(&file, location, 0).unwrap();
        let written = chunk.to_bytes(9).unwrap();
        assert_eq!(written[4], byte);
        assert_eq!(scheme.decode(&written[5..]), Some(stream.clone()));
    }
}
