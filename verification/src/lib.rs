//! Byte-pattern ("signature") scanning over the sections of a loaded PE (Portable Executable)
//! module, and over plain slices.
//!
//! A pattern is a sequence of bytes and wildcards, parsed from text with [`Pattern::from_ida`]
//! or given as a slice of `Option<u8>`:
//!
//! ```
//! use pe_sigscan::{find_in_text, MemoryRegion, Pattern};
//!
//! # let module: Vec<u8> = vec![0; 0x400];
//! # let module_base = 0x1400_0000;
//! let memory = MemoryRegion::new(module_base, &module);
//! let pat = Pattern::from_ida("48 8B 05 ?? ?? ?? ?? 48 89 41 08").unwrap();
//! if let Some(addr) = find_in_text(&memory, module_base, pat.as_slice()) {
//!     println!("matched at {addr:#x}");
//! }
//! ```
//!
//! - [`find_in_text`], [`count_in_text`] and [`iter_in_text`] scan the section named `.text`;
//! - [`find_in_exec_sections`], [`count_in_exec_sections`] and [`iter_in_exec_sections`] scan
//!   every executable section;
//! - [`find_in_section`], [`count_in_section`] and [`iter_in_section`] scan the section of a
//!   given name;
//! - [`find_in_slice`], [`count_in_slice`] and [`iter_in_slice`] scan a slice.
//!
//! Matches are counted and iterated over without overlap. [`matching`] and [`hits`] say what is
//! found; the contracts of the scanners are stated over them. [`laws`] says what each operation is
//! for in terms of plain bytes and characters.
//!
//! The memory of the module is a [`MemoryRegion`], bytes mapped at an address. The header readers
//! also take any other [`MemoryReader`]. Where only the sections themselves are mapped,
//! [`find_in_regions`], [`count_in_regions`] and [`iter_in_regions`] scan them, each a region of
//! its own.
pub mod endian;
pub mod error;
pub mod fastscan;
pub mod hits;
pub mod instr;
pub mod iter;
pub mod laws;
pub mod matching;
pub mod memory;
pub mod pattern;
pub mod pe;
pub mod scan;

pub use crate::error::{ParseErrorKind, ParsePatternError};
pub use crate::instr::{read_rel32, resolve_rel32, resolve_rel32_at};
pub use crate::iter::{
    iter_in_exec_sections, iter_in_regions, iter_in_section, iter_in_slice, iter_in_slice_at,
    iter_in_text, Matches, SliceMatches,
};
pub use crate::memory::{MemoryReader, MemoryRegion};
pub use crate::pattern::{Pattern, WildcardPattern};
pub use crate::pe::{module_size, module_size_with};
pub use crate::scan::{
    count_in_exec_sections, count_in_regions, count_in_section, count_in_slice, count_in_text,
    find_in_exec_sections, find_in_regions, find_in_section, find_in_slice, find_in_slice_at,
    find_in_text,
};
