use minecraft_world_optimizer::cli::{
    validate_compression_level, Cli, Mode, PaletteTask, MAX_COMPRESSION_LEVEL,
};

#[test]
fn every_level_is_accepted() {
    for level in 0u32..=9 {
        assert_eq!(validate_compression_level(&level.to_string()), Ok(level));
    }
    assert_eq!(MAX_COMPRESSION_LEVEL, 9);
}

#[test]
fn a_level_above_nine_is_refused() {
    let refusal = Err("Compression level must be an integer between 0 and 9".to_string());
    assert_eq!(validate_compression_level("10"), refusal);
    assert_eq!(validate_compression_level("11"), refusal);
    assert_eq!(validate_compression_level("99"), refusal);
    assert_eq!(validate_compression_level("4294967295"), refusal);
    assert_eq!(validate_compression_level("4294967296"), refusal);
    assert_eq!(validate_compression_level("90"), refusal);
}

#[test]
fn what_is_no_number_is_refused() {
    for text in ["", "+", "-1", "-0", " 5", "5 ", "five", "0x5", "5.0", "1_0", "++5", "5+", "٥"] {
        assert!(validate_compression_level(text).is_err(), "{:?}", text);
    }
}

#[test]
fn a_level_is_read_as_a_number_is() {
    for text in ["", "+", "+5", "05", "0009", "+007", "10", "-3", "a", "+0", "000", "19", "009 "] {
        let expected = match text.parse::<u32>() {
            Ok(level) if level <= 9 => Ok(level),
            _ => Err("Compression level must be an integer between 0 and 9".to_string()),
        };
        assert_eq!(validate_compression_level(text), expected, "{:?}", text);
    }
}

#[test]
fn zeros_and_a_plus_in_front_are_accepted() {
    assert_eq!(validate_compression_level("+5"), Ok(5));
    assert_eq!(validate_compression_level("007"), Ok(7));
    assert_eq!(validate_compression_level("+0009"), Ok(9));
    assert_eq!(validate_compression_level("0"), Ok(0));
}

#[test]
fn modes_are_ordered_as_declared() {
    assert!(Mode::Check < Mode::Write);
    assert!(Mode::Write < Mode::Palette);
    assert_eq!(Mode::Check, Mode::Check);
    assert_ne!(Mode::Check, Mode::Palette);
}

#[test]
fn a_command_line_holds_what_was_asked() {
    let cli = Cli {
        mode: Mode::Palette,
        world_paths: vec!["world".to_string()],
        compression_level: 6,
        csv_out: None,
        csv_in: Some("in.csv".to_string()),
        id: Some("minecraft:stone".to_string()),
        count: Some(2),
    };
    assert_eq!(cli.mode, Mode::Palette);
    assert_eq!(cli.world_paths.len(), 1);
    assert_eq!(cli.compression_level, 6);
    assert_eq!(cli.csv_out, None);
    assert_eq!(cli.count, Some(2));
}

fn palette_cli(csv_out: Option<&str>, csv_in: Option<&str>) -> Cli {
    Cli {
        mode: Mode::Palette,
        world_paths: vec![],
        compression_level: 6,
        csv_out: csv_out.map(|s| s.to_string()),
        csv_in: csv_in.map(|s| s.to_string()),
        id: None,
        count: None,
    }
}

#[test]
fn a_list_to_read_comes_before_a_list_to_write() {
    assert_eq!(palette_cli(None, None).palette_task(), PaletteTask::Nothing);
    assert_eq!(palette_cli(Some("out.csv"), None).palette_task(), PaletteTask::Export);
    assert_eq!(palette_cli(None, Some("in.csv")).palette_task(), PaletteTask::Import);
    assert_eq!(palette_cli(Some("out.csv"), Some("in.csv")).palette_task(), PaletteTask::Import);
}
