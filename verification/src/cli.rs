//! What the command line asks for.

use vstd::prelude::*;
use vstd::string::StringSliceAdditionalSpecFns;

verus! {

/// The mode that the optimizer runs in.
#[derive(Copy, Clone, Debug, PartialEq, Eq, Structural, PartialOrd, Ord)]
pub enum Mode {
    /// Only counts what could be deleted; changes nothing.
    Check,
    /// Deletes worthless chunks and region files.
    Write,
    /// Selects chunks by the blocks that they hold; writes and reads lists of
    /// them.
    Palette,
}

/// What the command line asks for.
#[derive(Debug)]
pub struct Cli {
    pub mode: Mode,
    /// The worlds to work on: directories that hold a `level.dat`.
    pub world_paths: Vec<String>,
    /// The level at which region files are compressed when they are written.
    pub compression_level: u32,
    /// Where palette mode writes its list.
    pub csv_out: Option<String>,
    /// The list that palette mode deletes by.
    pub csv_in: Option<String>,
    /// The block that palette mode selects by.
    pub id: Option<String>,
    /// How often a chunk must hold that block to be selected.
    pub count: Option<u32>,
}

/// What palette mode does.
#[derive(Copy, Clone, Debug, PartialEq, Eq, Structural)]
pub enum PaletteTask {
    /// Deletes the chunks that a list names.
    Import,
    /// Writes a list of the chunks that the filter selects.
    Export,
    /// Neither a list to read nor one to write was named.
    Nothing,
}

impl Cli {
    /// What palette mode does: it imports where a list to read is named,
    /// else it exports where a list to write is named.
    pub fn palette_task(&self) -> (task: PaletteTask)
        ensures
            task == if self.csv_in is Some {
                PaletteTask::Import
            } else if self.csv_out is Some {
                PaletteTask::Export
            } else {
                PaletteTask::Nothing
            },
    {
        if self.csv_in.is_some() {
            PaletteTask::Import
        } else if self.csv_out.is_some() {
            PaletteTask::Export
        } else {
            PaletteTask::Nothing
        }
    }
}

/// The highest compression level.

pub const MAX_COMPRESSION_LEVEL: u32 = 9;

/// Whether `b` is an ASCII digit.
pub open spec fn is_digit(b: u8) -> bool {
    48 <= b <= 57
}

/// Whether every byte of `digits` but the last is the digit zero.
pub open spec fn zeros_before_last(digits: Seq<u8>) -> bool {
    forall|i: int| 0 <= i < digits.len() - 1 ==> #[trigger] digits[i] == 48
}

/// The level that `s` spells, as a 32-bit unsigned number is read from text:
/// an optional `+`, then one digit or more, and nothing else. A number of 9
/// or less has only zeros before its last digit.
pub open spec fn level_of(s: Seq<u8>) -> Option<u32> {
    let digits = if s.len() > 0 && s[0] == 43 {
        s.subrange(1, s.len() as int)
    } else {
        s
    };
    if digits.len() > 0 && is_digit(digits.last()) && zeros_before_last(digits) {
        Some((digits.last() - 48) as u32)
    } else {
        None
    }
}

/// The compression level that `s` spells: a whole number between 0 and 9.
#[verifier::loop_isolation(false)]
pub fn validate_compression_level(s: &str) -> (res: Result<u32, String>)
    ensures
        match res {
            Ok(level) => level_of(s.spec_bytes()) == Some(level) && level <= MAX_COMPRESSION_LEVEL,
            Err(message) => level_of(s.spec_bytes()) is None && message@
                == "Compression level must be an integer between 0 and 9"@,
        },
{
    let bytes = s.as_bytes();
    let start: usize = if bytes.len() > 0 && bytes[0] == 43 {
        1
    } else {
        0
    };
    let ghost digits = bytes@.subrange(start as int, bytes.len() as int);
    if start == 0 {
        assert(digits =~= bytes@);
    }
    if bytes.len() == start {
        return Err("Compression level must be an integer between 0 and 9".to_owned());
    }
    let last: u8 = bytes[bytes.len() - 1];
    assert(last == digits.last());
    if last < 48 || last > 57 {
        return Err("Compression level must be an integer between 0 and 9".to_owned());
    }
    let mut i: usize = start;
    while i < bytes.len() - 1
        invariant
            start <= i <= bytes.len() - 1,
            digits == bytes@.subrange(start as int, bytes.len() as int),
            forall|j: int| 0 <= j < i - start ==> #[trigger] digits[j] == 48,
        decreases bytes.len() - i,
    {
        if bytes[i] != 48 {
            assert(digits[i - start] != 48);
            assert(!zeros_before_last(digits));
            return Err("Compression level must be an integer between 0 and 9".to_owned());
        }
        i += 1;
    }
    Ok((last - 48) as u32)
}

} // verus!
