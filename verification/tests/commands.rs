use minecraft_world_optimizer::commands::optimize_result::OptimizeResult;
use minecraft_world_optimizer::commands::palette::{
    chunks_at, import_keeps, is_selected, optimize_palette_export, optimize_palette_import,
    PaletteResult, IMPORT_COMPRESSION_LEVEL,
};
use minecraft_world_optimizer::commands::write::{
    chunks_to_delete, optimize_read, optimize_write, FileAction, Plan,
};
use minecraft_world_optimizer::nbt::tag::{NamedTag, Tag};
use minecraft_world_optimizer::region_loader::chunk_loader::chunk::Content;
use minecraft_world_optimizer::region_loader::chunk_loader::compression_scheme::CompressionScheme;
use minecraft_world_optimizer::region_loader::region::{get_position_in_table, Region};

fn named(name: &str, tag: Tag) -> NamedTag {
    NamedTag { name: name.as_bytes().to_vec(), tag }
}

fn text(s: &str) -> Tag {
    Tag::String(s.as_bytes().to_vec())
}

fn chunk_tree(x: i32, z: i32, status: &str, inhabited: i64, palette: &[&str]) -> NamedTag {
    let entries: Vec<Tag> =
        palette.iter().map(|name| Tag::Compound(vec![named("Name", text(name))])).collect();
    named(
        "",
        Tag::Compound(vec![
            named("xPos", Tag::Int(x)),
            named("zPos", Tag::Int(z)),
            named("Status", text(status)),
            named("InhabitedTime", Tag::Long(inhabited)),
            named(
                "block_states",
                Tag::Compound(vec![named("palette", Tag::List(10, entries))]),
            ),
        ]),
    )
}

fn used(x: i32, z: i32) -> NamedTag {
    chunk_tree(x, z, "minecraft:full", 100, &[])
}

fn unused(x: i32, z: i32) -> NamedTag {
    chunk_tree(x, z, "partial", 0, &[])
}

fn record(scheme: u8, payload: &[u8]) -> Vec<u8> {
    let mut out = ((payload.len() + 1) as u32).to_be_bytes().to_vec();
    out.push(scheme);
    out.extend_from_slice(payload);
    out
}

fn zlib_record(tree: &NamedTag) -> Vec<u8> {
    record(2, &CompressionScheme::Zlib.encode(&tree.to_bytes(), 6))
}

fn file_with(records: &[(usize, Vec<u8>, u32)]) -> Vec<u8> {
    let mut header = vec![0u8; 8192];
    let mut data: Vec<u8> = Vec::new();
    for (slot, rec, timestamp) in records {
        let sector_offset = (data.len() / 4096) as u32;
        let mut sectors = rec.clone();
        while sectors.len() % 4096 != 0 {
            sectors.push(0);
        }
        let entry = (sector_offset << 8) | (sectors.len() / 4096) as u32;
        header[4 * slot..4 * slot + 4].copy_from_slice(&entry.to_be_bytes());
        header[4096 + 4 * slot..4096 + 4 * slot + 4].copy_from_slice(&timestamp.to_be_bytes());
        data.extend_from_slice(&sectors);
    }
    header.extend_from_slice(&data);
    header
}

fn file_of(trees: &[NamedTag]) -> Vec<u8> {
    let records: Vec<(usize, Vec<u8>, u32)> = trees
        .iter()
        .enumerate()
        .map(|(n, tree)| (n, zlib_record(tree), 500 + n as u32))
        .collect();
    file_with(&records)
}

fn counts(total_chunks: usize, deleted_chunks: usize, deleted_regions: usize) -> OptimizeResult {
    OptimizeResult { total_chunks, deleted_chunks, deleted_regions }
}

fn row(x: i32, z: i32) -> PaletteResult {
    PaletteResult { region_file_path: "r.0.0.mca".to_string(), chunk_x: x, chunk_z: z }
}

fn written_bytes(plan: Plan) -> Vec<u8> {
    match plan.action {
        FileAction::Write(bytes) => bytes,
        other => panic!("the file was not written: {:?}", other),
    }
}

#[test]
fn a_sweep_deletes_the_unused_chunk_and_writes_the_other() {
    let file = file_of(&[used(0, 0), unused(1, 0)]);
    let plan = optimize_write(Some(file), 6).unwrap();
    assert_eq!(plan.result, counts(2, 1, 0));
    let bytes = written_bytes(plan);
    let back = Region::from_bytes(&bytes).unwrap();
    assert_eq!(back.get_chunk_count(), 1);
    let survivor = back.get_chunk(0, 0).unwrap();
    assert_eq!(survivor.nbt, Content::Tree(used(0, 0)));
    assert_eq!(survivor.location.timestamp, 500);
    assert!(back.get_chunk(1, 0).is_none());
    assert_eq!(&bytes[get_position_in_table(0, 0)..get_position_in_table(0, 0) + 4], [0, 0, 0, 1]);
    assert_eq!(&bytes[get_position_in_table(1, 0)..get_position_in_table(1, 0) + 4], [0, 0, 0, 0]);
    assert_eq!(&bytes[4..8], [0, 0, 0, 0]);
    assert_eq!(&bytes[4100..4104], [0, 0, 0, 0]);
    assert_eq!(&bytes[4096..4100], 500u32.to_be_bytes());
}

#[test]
fn a_sweep_that_leaves_no_chunk_deletes_the_file() {
    let plan = optimize_write(Some(file_of(&[unused(0, 0)])), 6).unwrap();
    assert_eq!(plan, Plan { result: counts(1, 1, 1), action: FileAction::Delete });
}

#[test]
fn a_sweep_that_deletes_nothing_keeps_the_file() {
    let plan = optimize_write(Some(file_of(&[used(0, 0), used(1, 0)])), 6).unwrap();
    assert_eq!(plan, Plan { result: counts(2, 0, 0), action: FileAction::Keep });
}

#[test]
fn a_sweep_deletes_a_file_that_cannot_be_read() {
    let plan = optimize_write(None, 6).unwrap();
    assert_eq!(plan, Plan { result: counts(0, 0, 1), action: FileAction::Delete });
}

#[test]
fn a_sweep_deletes_a_file_without_a_header() {
    let plan = optimize_write(Some(vec![0u8; 8191]), 6).unwrap();
    assert_eq!(plan, Plan { result: counts(0, 0, 1), action: FileAction::Delete });
    let plan = optimize_write(Some(vec![]), 0).unwrap();
    assert_eq!(plan, Plan { result: counts(0, 0, 1), action: FileAction::Delete });
}

#[test]
fn a_sweep_deletes_a_region_without_chunks() {
    let plan = optimize_write(Some(vec![0u8; 8192]), 6).unwrap();
    assert_eq!(plan, Plan { result: counts(0, 0, 1), action: FileAction::Delete });
}

#[test]
fn a_sweep_keeps_what_it_cannot_decode() {
    let file = file_with(&[
        (0, record(3, b"unknown scheme"), 1),
        (1, record(2, &[1, 2, 3]), 2),
    ]);
    let plan = optimize_write(Some(file), 6).unwrap();
    assert_eq!(plan, Plan { result: counts(2, 0, 0), action: FileAction::Keep });
}

#[test]
fn a_sweep_writes_what_it_cannot_decode_as_it_is() {
    let file = file_with(&[
        (0, zlib_record(&unused(0, 0)), 1),
        (1, record(3, b"unknown scheme"), 2),
        (2, zlib_record(&used(2, 0)), 3),
    ]);
    let plan = optimize_write(Some(file), 6).unwrap();
    assert_eq!(plan.result, counts(3, 1, 0));
    let bytes = written_bytes(plan);
    assert_eq!(bytes.len(), 8192 + 2 * 4096);
    assert_eq!(bytes[8192..8192 + 19], record(3, b"unknown scheme")[..]);
    let back = Region::from_bytes(&bytes).unwrap();
    assert_eq!(back.get_chunk_count(), 1);
    assert_eq!(back.get_chunk(2, 0).unwrap().nbt, Content::Tree(used(2, 0)));
}

#[test]
fn a_second_sweep_deletes_nothing() {
    let file = file_of(&[used(0, 0), unused(1, 0), used(2, 0), unused(3, 0), unused(4, 0)]);
    let first = optimize_write(Some(file), 6).unwrap();
    assert_eq!(first.result, counts(5, 3, 0));
    let bytes = written_bytes(first);
    let second = optimize_write(Some(bytes.clone()), 6).unwrap();
    assert_eq!(second, Plan { result: counts(2, 0, 0), action: FileAction::Keep });
    assert_eq!(optimize_read(Some(bytes)), counts(2, 0, 0));
}

#[test]
fn a_check_counts_what_a_sweep_would_do() {
    let file = file_of(&[used(0, 0), unused(1, 0), unused(2, 0)]);
    assert_eq!(optimize_read(Some(file.clone())), counts(3, 2, 0));
    assert_eq!(optimize_read(Some(file.clone())), optimize_write(Some(file), 6).unwrap().result);
    assert_eq!(optimize_read(Some(file_of(&[unused(0, 0)]))), counts(1, 1, 1));
    assert_eq!(optimize_read(Some(vec![0u8; 8192])), counts(0, 0, 1));
    assert_eq!(optimize_read(Some(vec![0u8; 10])), counts(0, 0, 1));
    assert_eq!(optimize_read(None), counts(0, 0, 1));
}

#[test]
fn the_chunks_to_delete_are_listed_rising() {
    let file = file_of(&[unused(0, 0), used(1, 0), unused(2, 0), used(3, 0), unused(4, 0)]);
    let region = Region::from_bytes(&file).unwrap();
    assert_eq!(chunks_to_delete(&region), vec![0, 2, 4]);
    let none = Region::from_bytes(&file_of(&[used(0, 0)])).unwrap();
    assert_eq!(chunks_to_delete(&none), Vec::<usize>::new());
}

#[test]
fn the_level_changes_the_bytes_and_not_the_chunks() {
    let mut trees = Vec::new();
    for x in 0..4 {
        trees.push(chunk_tree(x, 0, "minecraft:full", 100, &["minecraft:stone"; 40]));
    }
    trees.push(unused(9, 9));
    let file = file_of(&trees);
    let fast = written_bytes(optimize_write(Some(file.clone()), 0).unwrap());
    let best = written_bytes(optimize_write(Some(file), 9).unwrap());
    assert_ne!(fast, best);
    let a = Region::from_bytes(&fast).unwrap();
    let b = Region::from_bytes(&best).unwrap();
    assert_eq!(a.get_chunk_count(), 4);
    for x in 0..4 {
        assert_eq!(a.get_chunk(x, 0).unwrap().nbt, b.get_chunk(x, 0).unwrap().nbt);
    }
}

#[test]
fn an_export_lists_what_reaches_the_threshold() {
    let file = file_of(&[chunk_tree(
        4,
        5,
        "minecraft:full",
        100,
        &["minecraft:stone", "minecraft:dirt", "minecraft:stone", "minecraft:stone"],
    )]);
    let listed =
        optimize_palette_export(Some(file.clone()), "r.0.0.mca", Some("minecraft:stone"), Some(2));
    assert_eq!(listed.len(), 1);
    assert_eq!(listed[0].region_file_path, "r.0.0.mca");
    assert_eq!((listed[0].chunk_x, listed[0].chunk_z), (4, 5));
    let at_three =
        optimize_palette_export(Some(file.clone()), "r.0.0.mca", Some("minecraft:stone"), Some(3));
    assert_eq!(at_three.len(), 1);
    let at_four =
        optimize_palette_export(Some(file), "r.0.0.mca", Some("minecraft:stone"), Some(4));
    assert_eq!(at_four.len(), 0);
}

#[test]
fn an_export_without_a_threshold_lists_what_holds_the_block() {
    let file = file_of(&[
        chunk_tree(0, 0, "minecraft:full", 100, &["minecraft:stone"]),
        chunk_tree(1, 0, "minecraft:full", 100, &["minecraft:dirt"]),
        chunk_tree(2, 0, "partial", 0, &["minecraft:stone", "minecraft:stone"]),
    ]);
    let listed = optimize_palette_export(Some(file.clone()), "a/b.mca", Some("minecraft:stone"), None);
    let coordinates: Vec<(i32, i32)> = listed.iter().map(|r| (r.chunk_x, r.chunk_z)).collect();
    assert_eq!(coordinates, vec![(0, 0), (2, 0)]);
    assert!(listed.iter().all(|r| r.region_file_path == "a/b.mca"));
    let zero = optimize_palette_export(Some(file), "a/b.mca", Some("minecraft:stone"), Some(0));
    assert_eq!(zero.len(), 3);
}

#[test]
fn an_export_without_a_block_lists_what_a_sweep_deletes() {
    let file = file_of(&[used(0, 0), unused(1, 0), used(2, 0), unused(3, 0)]);
    let listed = optimize_palette_export(Some(file.clone()), "r", None, None);
    let coordinates: Vec<(i32, i32)> = listed.iter().map(|r| (r.chunk_x, r.chunk_z)).collect();
    assert_eq!(coordinates, vec![(1, 0), (3, 0)]);
    let with_threshold = optimize_palette_export(Some(file), "r", None, Some(5));
    assert_eq!(with_threshold.len(), 2);
}

#[test]
fn an_export_does_not_list_a_chunk_without_a_position() {
    let nowhere = named("", Tag::Compound(vec![named("Status", text("partial"))]));
    let file = file_with(&[(0, zlib_record(&nowhere), 1), (1, zlib_record(&unused(1, 0)), 1)]);
    let listed = optimize_palette_export(Some(file), "r", None, None);
    assert_eq!(listed.len(), 1);
    assert_eq!((listed[0].chunk_x, listed[0].chunk_z), (1, 0));
}

#[test]
fn an_export_of_a_file_that_holds_no_region_lists_nothing() {
    assert_eq!(optimize_palette_export(None, "r", None, None).len(), 0);
    assert_eq!(optimize_palette_export(Some(vec![0u8; 100]), "r", Some("a"), Some(0)).len(), 0);
    assert_eq!(optimize_palette_export(Some(vec![0u8; 8192]), "r", None, None).len(), 0);
}

#[test]
fn the_filter_selects_by_count_or_by_worth() {
    let file = file_of(&[chunk_tree(0, 0, "minecraft:full", 100, &["a", "a", "b"])]);
    let region = Region::from_bytes(&file).unwrap();
    let chunk = &region.get_chunks()[0];
    assert!(is_selected(chunk, Some("a"), None));
    assert!(is_selected(chunk, Some("a"), Some(2)));
    assert!(!is_selected(chunk, Some("a"), Some(3)));
    assert!(is_selected(chunk, Some("b"), Some(1)));
    assert!(!is_selected(chunk, Some("c"), None));
    assert!(is_selected(chunk, Some("c"), Some(0)));
    assert!(!is_selected(chunk, None, None));
    assert!(!is_selected(chunk, None, Some(0)));
}

#[test]
fn an_import_deletes_the_chunks_of_its_rows() {
    let file = file_of(&[used(0, 0), used(1, 0), used(2, 0)]);
    let first = optimize_palette_import(&row(0, 0), Some(file)).unwrap();
    assert_eq!(first.result, counts(0, 1, 0));
    let after_first = written_bytes(first);
    let second = optimize_palette_import(&row(2, 0), Some(after_first)).unwrap();
    assert_eq!(second.result, counts(0, 1, 0));
    let after_second = written_bytes(second);
    let left = Region::from_bytes(&after_second).unwrap();
    assert_eq!(left.get_chunk_count(), 1);
    assert_eq!(left.get_chunk(1, 0).unwrap().nbt, Content::Tree(used(1, 0)));
    let third = optimize_palette_import(&row(7, 7), Some(after_second)).unwrap();
    assert_eq!(third, Plan { result: counts(0, 0, 0), action: FileAction::Keep });
}

#[test]
fn an_import_that_leaves_no_chunk_deletes_the_file() {
    let plan = optimize_palette_import(&row(0, 0), Some(file_of(&[used(0, 0)]))).unwrap();
    assert_eq!(plan, Plan { result: counts(0, 1, 1), action: FileAction::Delete });
}

#[test]
fn an_import_leaves_a_file_that_holds_no_region() {
    let plan = optimize_palette_import(&row(0, 0), None).unwrap();
    assert_eq!(plan, Plan { result: counts(0, 0, 0), action: FileAction::Keep });
    let plan = optimize_palette_import(&row(0, 0), Some(vec![1, 2, 3])).unwrap();
    assert_eq!(plan, Plan { result: counts(0, 0, 0), action: FileAction::Keep });
    let plan = optimize_palette_import(&row(0, 0), Some(vec![0u8; 100])).unwrap();
    assert_eq!(plan, Plan { result: counts(0, 0, 0), action: FileAction::Keep });
    let plan = optimize_palette_import(&row(0, 0), Some(vec![0u8; 8191])).unwrap();
    assert_eq!(plan, Plan { result: counts(0, 0, 0), action: FileAction::Keep });
}

#[test]
fn an_import_deletes_a_region_without_chunks() {
    let plan = optimize_palette_import(&row(0, 0), Some(vec![0u8; 8192])).unwrap();
    assert_eq!(plan, Plan { result: counts(0, 0, 1), action: FileAction::Delete });
}

#[test]
fn an_import_deletes_every_chunk_at_the_coordinates() {
    let file = file_with(&[
        (0, zlib_record(&used(1, 1)), 1),
        (5, zlib_record(&used(2, 2)), 1),
        (9, zlib_record(&used(1, 1)), 1),
    ]);
    let region = Region::from_bytes(&file).unwrap();
    assert_eq!(chunks_at(&region, 1, 1), vec![0, 2]);
    assert_eq!(chunks_at(&region, 2, 2), vec![1]);
    assert_eq!(chunks_at(&region, 3, 3), Vec::<usize>::new());
    let plan = optimize_palette_import(&row(1, 1), Some(file)).unwrap();
    assert_eq!(plan.result, counts(0, 2, 0));
    let left = Region::from_bytes(&written_bytes(plan)).unwrap();
    assert_eq!(left.get_chunk_count(), 1);
    assert!(left.get_chunk(2, 2).is_some());
}

#[test]
fn an_import_writes_at_its_own_level() {
    assert_eq!(IMPORT_COMPRESSION_LEVEL, 6);
    let file = file_of(&[
        chunk_tree(0, 0, "minecraft:full", 100, &["minecraft:stone"; 30]),
        used(1, 0),
    ]);
    let imported = written_bytes(optimize_palette_import(&row(1, 0), Some(file.clone())).unwrap());
    let mut region = Region::from_bytes(&file).unwrap();
    region.remove_chunk_by_index(1);
    assert_eq!(Some(imported), region.to_bytes(6));
}

#[test]
fn an_import_keeps_every_row_without_a_block() {
    assert!(import_keeps(&row(0, 0), None, None, None));
    assert!(import_keeps(&row(0, 0), None, None, Some(3)));
    assert!(import_keeps(&row(5, 5), Some(vec![1, 2, 3]), None, None));
}

#[test]
fn an_import_with_a_block_keeps_the_rows_that_still_match() {
    let file = file_of(&[
        chunk_tree(0, 0, "minecraft:full", 100, &["a", "a"]),
        chunk_tree(1, 0, "minecraft:full", 100, &["b"]),
    ]);
    assert!(import_keeps(&row(0, 0), Some(file.clone()), Some("a"), None));
    assert!(import_keeps(&row(0, 0), Some(file.clone()), Some("a"), Some(2)));
    assert!(!import_keeps(&row(0, 0), Some(file.clone()), Some("a"), Some(3)));
    assert!(!import_keeps(&row(1, 0), Some(file.clone()), Some("a"), None));
    assert!(import_keeps(&row(1, 0), Some(file.clone()), Some("a"), Some(0)));
    assert!(!import_keeps(&row(2, 0), Some(file.clone()), Some("a"), Some(0)));
    assert!(!import_keeps(&row(0, 0), None, Some("a"), None));
    assert!(!import_keeps(&row(0, 0), Some(vec![0u8; 5]), Some("a"), Some(0)));
}

#[test]
fn a_list_that_was_exported_deletes_what_it_lists() {
    let file = file_of(&[
        chunk_tree(0, 0, "minecraft:full", 100, &["a", "a"]),
        chunk_tree(1, 0, "minecraft:full", 100, &["b"]),
        chunk_tree(2, 0, "minecraft:full", 100, &["a"]),
    ]);
    let rows = optimize_palette_export(Some(file.clone()), "r", Some("a"), None);
    assert_eq!(rows.len(), 2);
    let mut bytes = file;
    let mut deleted = 0;
    for r in rows.iter() {
        assert!(import_keeps(r, Some(bytes.clone()), Some("a"), None));
        let plan = optimize_palette_import(r, Some(bytes.clone())).unwrap();
        deleted += plan.result.deleted_chunks;
        bytes = written_bytes(plan);
    }
    assert_eq!(deleted, 2);
    let left = Region::from_bytes(&bytes).unwrap();
    assert_eq!(left.get_chunk_count(), 1);
    assert!(left.get_chunk(1, 0).is_some());
    assert_eq!(optimize_palette_export(Some(bytes), "r", Some("a"), None).len(), 0);
}

#[test]
fn a_sweep_of_a_region_that_cannot_be_written_gives_no_plan() {
    let mut file = vec![0u8; 8192];
    file[0..4].copy_from_slice(&0x0000_00ffu32.to_be_bytes());
    file[4..8].copy_from_slice(&0x0001_0001u32.to_be_bytes());
    file.extend_from_slice(&record(3, &vec![0u8; 255 * 4096]));
    let padding = (4096 - file.len() % 4096) % 4096;
    file.extend_from_slice(&vec![0u8; padding]);
    assert_eq!(file.len(), 8192 + 256 * 4096);
    file.extend_from_slice(&zlib_record(&unused(1, 0)));
    assert_eq!(optimize_read(Some(file.clone())), counts(2, 1, 0));
    assert_eq!(optimize_write(Some(file), 6), None);
}

#[test]
fn a_copy_of_a_row_is_the_same_row() {
    let copy = row(3, -4).clone();
    assert_eq!(copy.region_file_path, "r.0.0.mca");
    assert_eq!((copy.chunk_x, copy.chunk_z), (3, -4));
}

#[test]
fn a_second_sweep_keeps_the_file_and_counts_what_was_left() {
    let file = file_of(&[unused(0, 0), used(1, 0), used(2, 0), unused(3, 0), used(4, 0)]);
    let first = optimize_write(Some(file), 6).unwrap();
    assert_eq!(first.result, counts(5, 2, 0));
    let written = written_bytes(first);
    let second = optimize_write(Some(written.clone()), 6).unwrap();
    assert_eq!(second, Plan { result: counts(3, 0, 0), action: FileAction::Keep });
    let third = optimize_write(Some(written), 6).unwrap();
    assert_eq!(third, Plan { result: counts(3, 0, 0), action: FileAction::Keep });
}

#[test]
fn an_import_leaves_the_other_chunks_where_they_are_found() {
    let file = file_of(&[used(0, 0), used(1, 0), used(2, 0), used(3, 0)]);
    let plan = optimize_palette_import(&row(2, 0), Some(file)).unwrap();
    assert_eq!(plan.result, counts(0, 1, 0));
    let left = Region::from_bytes(&written_bytes(plan)).unwrap();
    assert_eq!(left.get_chunk_count(), 3);
    assert!(left.get_chunk(2, 0).is_none());
    for x in [0, 1, 3] {
        assert_eq!(left.get_chunk(x, 0).unwrap().nbt, Content::Tree(used(x, 0)));
    }
}

#[test]
fn an_export_of_a_file_that_cannot_be_read_does_not_touch_it() {
    assert_eq!(optimize_palette_export(None, "r", Some("a"), None).len(), 0);
    assert!(!import_keeps(&row(0, 0), None, Some("a"), None));
}
