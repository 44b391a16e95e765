//! A verified memory scanner core: process selection, readable-region
//! parsing, little-endian word scanning over byte snapshots, and the
//! value/address text parsing that drives scans and writes.
//!
//! The library is the platform-independent heart of a memory
//! scanner/editor. Everything that needs the operating system (reading
//! another process's address space, walking its memory map, opening
//! handles) lives outside the library and hands plain values in:
//! regions come in as text lines, region contents as byte buffers,
//! process tables as vectors of [`process::Process`].

use vstd::prelude::*;

pub mod codec;
pub mod fallback;
pub mod memory;
pub mod parse;
pub mod process;
pub mod scanner;

verus! {

/// The error kinds the scanner core and its callers distinguish.
///
/// `NotFound` means an attach target was absent; `AccessDenied`,
/// `ReadFailed` and `WriteFailed` report a refused or partial OS
/// primitive; `ParseError` reports malformed value or address text.
#[derive(Clone, Copy, Debug, PartialEq, Eq, Structural)]
pub enum ScanError {
    NotFound,
    AccessDenied,
    ReadFailed,
    WriteFailed,
    ParseError,
}

} // verus!
