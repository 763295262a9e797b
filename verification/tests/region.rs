use minecraft_world_optimizer::nbt::tag::{NamedTag, Tag};
use minecraft_world_optimizer::region_loader::chunk_loader::chunk::Content;
use minecraft_world_optimizer::region_loader::chunk_loader::compression_scheme::CompressionScheme;
use minecraft_world_optimizer::region_loader::location::HEADER_SIZE;
use minecraft_world_optimizer::region_loader::region::{
    align_vec_size, get_position_in_table, Assembly, ParseRegionError, Region,
    LOCATION_TABLE_SIZE, SLOTS, TIMESTAMP_TABLE_SIZE,
};

fn named(name: &str, tag: Tag) -> NamedTag {
    NamedTag { name: name.as_bytes().to_vec(), tag }
}

fn chunk_tree(x: i32, z: i32, status: &str, inhabited: i64) -> NamedTag {
    named(
        "",
        Tag::Compound(vec![
            named("xPos", Tag::Int(x)),
            named("zPos", Tag::Int(z)),
            named("Status", Tag::String(status.as_bytes().to_vec())),
            named("InhabitedTime", Tag::Long(inhabited)),
        ]),
    )
}

fn record(scheme: u8, payload: &[u8]) -> Vec<u8> {
    let mut out = ((payload.len() + 1) as u32).to_be_bytes().to_vec();
    out.push(scheme);
    out.extend_from_slice(payload);
    out
}

fn zlib_record(tree: &NamedTag) -> Vec<u8> {
    record(2, &CompressionScheme::Zlib.encode(&tree.to_bytes(), 6))
}

fn slot_of(x: i32, z: i32) -> usize {
    ((x & 31) + (z & 31) * 32) as usize
}

fn file_with(records: &[(usize, Vec<u8>, u32)]) -> Vec<u8> {
    let mut header = vec![0u8; 8192];
    let mut data: Vec<u8> = Vec::new();
    for (slot, rec, timestamp) in records {
        let sector_offset = (data.len() / 4096) as u32;
        let mut sectors = rec.clone();
        while sectors.len() % 4096 != 0 {
            sectors.push(0);
        }
        let entry = (sector_offset << 8) | (sectors.len() / 4096) as u32;
        header[4 * slot..4 * slot + 4].copy_from_slice(&entry.to_be_bytes());
        header[4096 + 4 * slot..4096 + 4 * slot + 4].copy_from_slice(&timestamp.to_be_bytes());
        data.extend_from_slice(&sectors);
    }
    header.extend_from_slice(&data);
    header
}

fn entry_at(file: &[u8], at: usize) -> u32 {
    u32::from_be_bytes([file[at], file[at + 1], file[at + 2], file[at + 3]])
}

#[test]
fn table_sizes_are_those_of_the_format() {
    assert_eq!(LOCATION_TABLE_SIZE, 4096);
    assert_eq!(TIMESTAMP_TABLE_SIZE, 4096);
    assert_eq!(HEADER_SIZE, 8192);
    assert_eq!(SLOTS, 1024);
}

#[test]
fn a_file_shorter_than_a_header_is_refused() {
    assert_eq!(Region::from_bytes(&[]).err(), Some(ParseRegionError::HeaderError));
    assert_eq!(Region::from_bytes(&vec![0u8; 8191]).err(), Some(ParseRegionError::HeaderError));
    assert_eq!(
        Region::from_file_name(Some(vec![1u8; 100])).err(),
        Some(ParseRegionError::HeaderError)
    );
}

#[test]
fn a_file_that_was_not_read_is_a_read_error() {
    assert_eq!(Region::from_file_name(None).err(), Some(ParseRegionError::ReadError));
}

#[test]
fn errors_say_what_went_wrong() {
    assert_eq!(ParseRegionError::ReadError.message(), "error while reading the file");
    assert_eq!(ParseRegionError::HeaderError.message(), "cannot read header of region file");
}

#[test]
fn a_bare_header_is_an_empty_region() {
    let region = Region::from_bytes(&vec![0u8; 8192]).unwrap();
    assert!(region.is_empty());
    assert!(!region.is_modified());
    assert_eq!(region.get_chunk_count(), 0);
    assert_eq!(region.get_chunks().len(), 0);
    assert!(region.get_chunk(0, 0).is_none());
}

#[test]
fn chunks_are_read_in_the_order_of_their_slots() {
    let a = chunk_tree(5, 0, "minecraft:full", 1);
    let b = chunk_tree(1, 0, "minecraft:full", 2);
    let c = chunk_tree(0, 1, "minecraft:full", 3);
    let file = file_with(&[
        (slot_of(5, 0), zlib_record(&a), 50),
        (slot_of(0, 1), zlib_record(&c), 10),
        (slot_of(1, 0), zlib_record(&b), 11),
    ]);
    let region = Region::from_bytes(&file).unwrap();
    assert_eq!(region.get_chunk_count(), 3);
    assert!(!region.is_empty());
    assert!(!region.is_modified());
    let chunks = region.get_chunks();
    assert_eq!(chunks[0].get_position(), Ok((1, 0)));
    assert_eq!(chunks[1].get_position(), Ok((5, 0)));
    assert_eq!(chunks[2].get_position(), Ok((0, 1)));
    assert_eq!(chunks[0].index, 1);
    assert_eq!(chunks[1].index, 5);
    assert_eq!(chunks[2].index, 32);
    assert_eq!(chunks[0].location.timestamp, 11);
    assert_eq!(chunks[1].location.timestamp, 50);
    assert_eq!(chunks[2].location.timestamp, 10);
    assert_eq!(chunks[0].location.sector_offset, 2);
    assert_eq!(chunks[1].location.sector_offset, 0);
    assert_eq!(chunks[2].location.sector_offset, 1);
    assert_eq!(chunks[1].nbt, Content::Tree(chunk_tree(5, 0, "minecraft:full", 1)));
}

#[test]
fn the_same_bytes_give_the_same_region() {
    let file = file_with(&[
        (0, zlib_record(&chunk_tree(0, 0, "minecraft:full", 1)), 1),
        (9, record(3, b"opaque"), 2),
    ]);
    assert_eq!(Region::from_bytes(&file).unwrap(), Region::from_bytes(&file).unwrap());
    assert_eq!(
        Region::from_file_name(Some(file.clone())).unwrap(),
        Region::from_bytes(&file).unwrap()
    );
}

#[test]
fn a_slot_that_points_beyond_the_file_is_skipped() {
    let mut file = file_with(&[(0, zlib_record(&chunk_tree(0, 0, "minecraft:full", 1)), 1)]);
    file[4 * 7..4 * 7 + 4].copy_from_slice(&0x0000_6401u32.to_be_bytes());
    let region = Region::from_bytes(&file).unwrap();
    assert_eq!(region.get_chunk_count(), 1);
    assert_eq!(region.get_chunks()[0].index, 0);
}

#[test]
fn a_record_that_cannot_be_decoded_does_not_fail_the_region() {
    let file = file_with(&[
        (0, record(2, &[9, 9, 9, 9]), 1),
        (1, record(77, b"unknown scheme"), 2),
        (2, zlib_record(&chunk_tree(2, 0, "minecraft:full", 1)), 3),
    ]);
    let region = Region::from_bytes(&file).unwrap();
    assert_eq!(region.get_chunk_count(), 3);
    assert_eq!(region.get_chunks()[0].nbt, Content::Opaque(vec![9, 9, 9, 9]));
    assert_eq!(region.get_chunks()[1].nbt, Content::Opaque(b"unknown scheme".to_vec()));
    assert_eq!(region.get_chunks()[1].compression_scheme, CompressionScheme::Unknown(77));
    assert_eq!(region.get_chunks()[2].get_position(), Ok((2, 0)));
}

#[test]
fn a_chunk_is_found_by_its_position() {
    let file = file_with(&[
        (slot_of(1, 0), zlib_record(&chunk_tree(1, 0, "minecraft:full", 1)), 1),
        (slot_of(-3, 40), zlib_record(&chunk_tree(-3, 40, "partial", 0)), 2),
    ]);
    let region = Region::from_bytes(&file).unwrap();
    assert_eq!(region.get_chunk(1, 0).unwrap().get_position(), Ok((1, 0)));
    assert_eq!(region.get_chunk(-3, 40).unwrap().get_position(), Ok((-3, 40)));
    assert!(region.get_chunk(0, 1).is_none());
    assert!(region.get_chunk(33, 0).is_none());
    assert!(region.get_chunk(29, 8).is_none());
}

#[test]
fn the_first_chunk_of_a_position_is_found() {
    let file = file_with(&[
        (4, zlib_record(&chunk_tree(1, 1, "first", 1)), 1),
        (8, zlib_record(&chunk_tree(1, 1, "second", 1)), 2),
    ]);
    let region = Region::from_bytes(&file).unwrap();
    let found = region.get_chunk(1, 1).unwrap();
    assert_eq!(found.index, 4);
    assert_eq!(found.nbt, Content::Tree(chunk_tree(1, 1, "first", 1)));
}

#[test]
fn removing_a_chunk_moves_the_later_ones_up() {
    let file = file_with(&[
        (0, zlib_record(&chunk_tree(0, 0, "minecraft:full", 1)), 1),
        (1, zlib_record(&chunk_tree(1, 0, "minecraft:full", 1)), 1),
        (2, zlib_record(&chunk_tree(2, 0, "minecraft:full", 1)), 1),
    ]);
    let mut region = Region::from_bytes(&file).unwrap();
    assert!(!region.is_modified());
    region.remove_chunk_by_index(1);
    assert!(region.is_modified());
    assert_eq!(region.get_chunk_count(), 2);
    assert_eq!(region.get_chunks()[0].get_position(), Ok((0, 0)));
    assert_eq!(region.get_chunks()[1].get_position(), Ok((2, 0)));
    assert!(region.get_chunk(1, 0).is_none());
    region.remove_chunk_by_index(1);
    region.remove_chunk_by_index(0);
    assert!(region.is_empty());
    assert!(region.is_modified());
}

#[test]
fn marking_sets_the_flag_and_nothing_else() {
    let file = file_with(&[(0, zlib_record(&chunk_tree(0, 0, "minecraft:full", 1)), 1)]);
    let mut region = Region::from_bytes(&file).unwrap();
    region.mark_as_modified();
    assert!(region.is_modified());
    assert_eq!(region.get_chunk_count(), 1);
    region.mark_as_modified();
    assert!(region.is_modified());
}

#[test]
fn removing_by_indices_leaves_the_others_addressable() {
    let mut records = Vec::new();
    for x in 0..10 {
        records.push((slot_of(x, 3), zlib_record(&chunk_tree(x, 3, "minecraft:full", 1)), x as u32));
    }
    let mut region = Region::from_bytes(&file_with(&records)).unwrap();
    region.remove_chunks_by_indices(&vec![0, 3, 4, 9]);
    assert!(region.is_modified());
    assert_eq!(region.get_chunk_count(), 6);
    for x in [1, 2, 5, 6, 7, 8] {
        let chunk = region.get_chunk(x, 3).unwrap();
        assert_eq!(chunk.get_position(), Ok((x, 3)));
        assert_eq!(chunk.location.timestamp, x as u32);
    }
    for x in [0, 3, 4, 9] {
        assert!(region.get_chunk(x, 3).is_none());
    }
    let order: Vec<usize> = region.get_chunks().iter().map(|c| c.index - 96).collect();
    assert_eq!(order, vec![1, 2, 5, 6, 7, 8]);
}

#[test]
fn removing_no_index_changes_nothing() {
    let file = file_with(&[(0, zlib_record(&chunk_tree(0, 0, "minecraft:full", 1)), 1)]);
    let mut region = Region::from_bytes(&file).unwrap();
    region.remove_chunks_by_indices(&vec![]);
    assert!(!region.is_modified());
    assert_eq!(region.get_chunk_count(), 1);
}

#[test]
fn table_positions() {
    assert_eq!(get_position_in_table(0, 0), 0);
    assert_eq!(get_position_in_table(1, 0), 4);
    assert_eq!(get_position_in_table(0, 1), 128);
    assert_eq!(get_position_in_table(31, 31), 4092);
    assert_eq!(get_position_in_table(32, 32), 0);
    assert_eq!(get_position_in_table(33, 64), 4);
    assert_eq!(get_position_in_table(-1, -1), 4092);
    assert_eq!(get_position_in_table(-32, 5), 640);
    assert_eq!(get_position_in_table(-31, 0), 4);
    assert_eq!(get_position_in_table(i32::MIN, i32::MAX), 4 * 31 * 32);
    assert_eq!(get_position_in_table(i32::MAX, i32::MIN), 4 * 31);
}

#[test]
fn records_are_filled_up_to_sectors() {
    let mut empty: Vec<u8> = Vec::new();
    align_vec_size(&mut empty);
    assert_eq!(empty.len(), 0);
    let mut one: Vec<u8> = vec![7];
    align_vec_size(&mut one);
    assert_eq!(one.len(), 4096);
    assert_eq!(one[0], 7);
    assert!(one[1..].iter().all(|b| *b == 0));
    let mut whole: Vec<u8> = vec![1; 4096];
    align_vec_size(&mut whole);
    assert_eq!(whole, vec![1; 4096]);
    let mut over: Vec<u8> = vec![1; 4097];
    align_vec_size(&mut over);
    assert_eq!(over.len(), 8192);
    assert!(over[..4097].iter().all(|b| *b == 1));
    assert!(over[4097..].iter().all(|b| *b == 0));
}

#[test]
fn an_assembly_without_records_is_a_header_of_zeros() {
    assert_eq!(Assembly::new().into_bytes(), vec![0u8; 8192]);
}

#[test]
fn records_are_placed_one_after_the_other() {
    let mut assembly = Assembly::new();
    assert!(assembly.place(Some((1, 0)), 77, vec![5; 10]));
    assert!(assembly.place(None, 88, vec![6; 4097]));
    assert!(assembly.place(Some((0, 1)), 99, vec![7; 4096]));
    let file = assembly.into_bytes();
    assert_eq!(file.len(), 8192 + 4 * 4096);
    assert_eq!(entry_at(&file, 4), 0x0000_0001);
    assert_eq!(entry_at(&file, 4096 + 4), 77);
    assert_eq!(entry_at(&file, 128), 0x0000_0301);
    assert_eq!(entry_at(&file, 4096 + 128), 99);
    let mut entries = 0;
    for slot in 0..2048 {
        if entry_at(&file, 4 * slot) != 0 {
            entries += 1;
        }
    }
    assert_eq!(entries, 4);
    assert_eq!(file[8192..8192 + 10], [5; 10]);
    assert!(file[8192 + 10..8192 + 4096].iter().all(|b| *b == 0));
    assert!(file[8192 + 4096..8192 + 4096 + 4097].iter().all(|b| *b == 6));
    assert!(file[8192 + 3 * 4096..].iter().all(|b| *b == 7));
}

#[test]
fn a_later_record_takes_the_slot_of_an_earlier_one() {
    let mut assembly = Assembly::new();
    assert!(assembly.place(Some((2, 2)), 1, vec![1; 5]));
    assert!(assembly.place(Some((34, -30)), 2, vec![2; 5]));
    let file = assembly.into_bytes();
    let at = get_position_in_table(2, 2);
    assert_eq!(entry_at(&file, at), 0x0000_0101);
    assert_eq!(entry_at(&file, 4096 + at), 2);
    assert_eq!(file.len(), 8192 + 2 * 4096);
}

#[test]
fn a_record_of_more_than_255_sectors_is_not_placed() {
    let mut assembly = Assembly::new();
    assert!(assembly.place(Some((0, 0)), 1, vec![1; 255 * 4096]));
    assert!(!assembly.place(Some((1, 0)), 1, vec![1; 255 * 4096 + 1]));
    assert!(!assembly.place(None, 1, vec![1; 300 * 4096]));
    let file = assembly.into_bytes();
    assert_eq!(file.len(), 8192 + 255 * 4096);
    assert_eq!(entry_at(&file, 0), 0x0000_00ff);
    assert_eq!(entry_at(&file, 4), 0);
}

#[test]
fn an_empty_record_is_not_placed() {
    let mut assembly = Assembly::new();
    assert!(!assembly.place(Some((0, 0)), 1, vec![]));
    assert_eq!(assembly.into_bytes(), vec![0u8; 8192]);
}

#[test]
fn a_region_is_written_with_new_locations_and_old_timestamps() {
    let file = file_with(&[
        (slot_of(5, 0), zlib_record(&chunk_tree(5, 0, "minecraft:full", 1)), 50),
        (slot_of(0, 1), zlib_record(&chunk_tree(0, 1, "minecraft:full", 3)), 10),
        (slot_of(1, 0), zlib_record(&chunk_tree(1, 0, "minecraft:full", 2)), 11),
    ]);
    let mut region = Region::from_bytes(&file).unwrap();
    region.remove_chunk_by_index(0);
    let written = region.to_bytes(6).unwrap();
    assert_eq!(written.len(), 8192 + 2 * 4096);
    assert_eq!(entry_at(&written, get_position_in_table(5, 0)), 0x0000_0001);
    assert_eq!(entry_at(&written, 4096 + get_position_in_table(5, 0)), 50);
    assert_eq!(entry_at(&written, get_position_in_table(0, 1)), 0x0000_0101);
    assert_eq!(entry_at(&written, 4096 + get_position_in_table(0, 1)), 10);
    assert_eq!(entry_at(&written, get_position_in_table(1, 0)), 0);
    assert_eq!(entry_at(&written, 4096 + get_position_in_table(1, 0)), 0);
}

#[test]
fn a_written_region_is_read_back() {
    let mut records = Vec::new();
    for (n, (x, z)) in [(0, 0), (31, 31), (-1, 5), (100, -100), (7, 7)].iter().enumerate() {
        records.push((
            slot_of(*x, *z),
            zlib_record(&chunk_tree(*x, *z, "minecraft:full", n as i64)),
            1000 + n as u32,
        ));
    }
    let region = Region::from_bytes(&file_with(&records)).unwrap();
    for level in [0u32, 6, 9] {
        let written = region.to_bytes(level).unwrap();
        let back = Region::from_bytes(&written).unwrap();
        assert_eq!(back.get_chunk_count(), 5);
        for (n, (x, z)) in [(0, 0), (31, 31), (-1, 5), (100, -100), (7, 7)].iter().enumerate() {
            let before = region.get_chunk(*x, *z).unwrap();
            let after = back.get_chunk(*x, *z).unwrap();
            assert_eq!(after.nbt, before.nbt);
            assert_eq!(after.nbt, Content::Tree(chunk_tree(*x, *z, "minecraft:full", n as i64)));
            assert_eq!(after.location.timestamp, 1000 + n as u32);
            assert_eq!(after.compression_scheme, CompressionScheme::Zlib);
        }
    }
}

#[test]
fn writing_twice_gives_the_same_bytes() {
    let file = file_with(&[
        (3, zlib_record(&chunk_tree(3, 0, "minecraft:full", 1)), 1),
        (9, record(3, b"opaque"), 2),
    ]);
    let region = Region::from_bytes(&file).unwrap();
    assert_eq!(region.to_bytes(6), region.to_bytes(6));
}

#[test]
fn a_chunk_without_a_position_is_written_without_an_entry() {
    let file = file_with(&[
        (3, record(3, b"opaque"), 2),
        (4, zlib_record(&named("", Tag::Compound(vec![]))), 2),
    ]);
    let region = Region::from_bytes(&file).unwrap();
    assert_eq!(region.get_chunk_count(), 2);
    let written = region.to_bytes(6).unwrap();
    assert_eq!(written.len(), 8192 + 2 * 4096);
    assert!(written[..8192].iter().all(|b| *b == 0));
    assert_eq!(written[8192..8192 + 11], [0, 0, 0, 7, 3, b'o', b'p', b'a', b'q', b'u', b'e']);
    assert_eq!(Region::from_bytes(&written).unwrap().get_chunk_count(), 0);
}

#[test]
fn an_opaque_record_is_written_byte_for_byte() {
    let payload: Vec<u8> = (0..5000u32).map(|n| (n % 251) as u8).collect();
    let rec = record(2, &payload);
    let file = file_with(&[(0, rec.clone(), 2)]);
    let region = Region::from_bytes(&file).unwrap();
    assert_eq!(region.get_chunks()[0].nbt, Content::Opaque(payload));
    let written = region.to_bytes(6).unwrap();
    assert_eq!(written[8192..8192 + rec.len()], rec[..]);
    assert_eq!(written.len(), 8192 + 2 * 4096);
}

#[test]
fn an_empty_region_is_written_as_a_bare_header() {
    let region = Region::from_bytes(&vec![0u8; 9000]).unwrap();
    assert_eq!(region.to_bytes(6), Some(vec![0u8; 8192]));
}

#[test]
fn a_region_with_a_record_too_large_for_a_location_is_not_written() {
    let payload = vec![0u8; 255 * 4096];
    let mut file = vec![0u8; 8192];
    file[0..4].copy_from_slice(&0x0000_00ffu32.to_be_bytes());
    file.extend_from_slice(&record(3, &payload));
    let region = Region::from_bytes(&file).unwrap();
    assert_eq!(region.get_chunk_count(), 1);
    assert_eq!(region.to_bytes(6), None);
}

#[test]
fn a_region_of_every_scheme_is_read_back() {
    let a = chunk_tree(0, 0, "minecraft:full", 1);
    let b = chunk_tree(1, 0, "minecraft:full", 2);
    let c = chunk_tree(2, 0, "minecraft:full", 3);
    let file = file_with(&[
        (0, record(1, &CompressionScheme::Gzip.encode(&a.to_bytes(), 6)), 10),
        (1, record(2, &CompressionScheme::Zlib.encode(&b.to_bytes(), 6)), 11),
        (2, record(4, &CompressionScheme::Lz4.encode(&c.to_bytes(), 6)), 12),
        (3, record(3, b"of a scheme that is not known"), 13),
    ]);
    let region = Region::from_bytes(&file).unwrap();
    assert_eq!(region.get_chunk_count(), 4);
    let written = region.to_bytes(6).unwrap();
    let back = Region::from_bytes(&written).unwrap();
    assert!(!back.is_modified());
    assert_eq!(back.get_chunk_count(), 3);
    for (x, scheme, timestamp) in [
        (0, CompressionScheme::Gzip, 10),
        (1, CompressionScheme::Zlib, 11),
        (2, CompressionScheme::Lz4, 12),
    ] {
        let before = region.get_chunk(x, 0).unwrap();
        let after = back.get_chunk(x, 0).unwrap();
        assert_eq!(after.nbt, before.nbt);
        assert_eq!(after.compression_scheme, scheme);
        assert_eq!(after.location.timestamp, timestamp);
        let at = get_position_in_table(x, 0);
        assert_ne!(entry_at(&written, at), 0);
    }
    assert_eq!(entry_at(&written, get_position_in_table(3, 0)), 0);
}

#[test]
fn a_written_region_keeps_the_count_of_its_positioned_chunks() {
    let mut records = Vec::new();
    for x in 0..20 {
        records.push((slot_of(x, x), zlib_record(&chunk_tree(x, x, "minecraft:full", 1)), 1));
    }
    let region = Region::from_bytes(&file_with(&records)).unwrap();
    let back = Region::from_bytes(&region.to_bytes(6).unwrap()).unwrap();
    assert_eq!(back.get_chunk_count(), 20);
    assert_eq!(back.get_chunk_count(), region.get_chunk_count());
}
