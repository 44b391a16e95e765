//! The deterministic synthetic access layer.
//!
//! Where no platform memory primitive is available, reads are served
//! from synthetic memory that is a pure function of the address:
//! repeated reads of the same range always see the same bytes, so
//! scanning can be exercised without any OS dependency. The planted
//! words are arbitrary fixture data, not semantics: the word 100 at
//! one address, the word 200 at another, and the bit pattern of the
//! 32-bit float one hundred and a half at a third, for the fuzzy path.

use vstd::prelude::*;
use vstd::string::*;

use crate::ScanError;
use crate::memory::MemoryRegion;
use crate::process::Process;

verus! {

/// The synthetic byte at address `a`: zero everywhere except the three
/// planted little-endian words.
pub open spec fn fallback_byte(a: int) -> u8 {
    if a == 0x150000 {
        // the word 100: bytes 0x64 0x00 0x00 0x00
        100u8
    } else if a == 0x180002 {
        // the float one hundred and a half: bits 0x42c90000,
        // bytes 0x00 0x00 0xc9 0x42
        0xc9u8
    } else if a == 0x180003 {
        0x42u8
    } else if a == 0x250000 {
        // the word 200: bytes 0xc8 0x00 0x00 0x00
        200u8
    } else {
        0u8
    }
}

/// Reads `size` synthetic bytes starting at `address`. Deterministic:
/// the same range yields the same bytes on every call. Never fails.
pub fn read_memory(_process: &Process, address: usize, size: usize) -> (r: Result<
    Vec<u8>,
    ScanError,
>)
    requires
        address + size <= usize::MAX,
    ensures
        r is Ok,
        r->Ok_0@.len() == size,
        forall|i: int| 0 <= i < size ==> r->Ok_0@[i] == fallback_byte(address + i),
{
    let mut data: Vec<u8> = Vec::new();
    let mut i: usize = 0;
    while i < size
        invariant
            0 <= i <= size,
            address + size <= usize::MAX,
            data@.len() == i,
            forall|j: int| 0 <= j < i ==> data@[j] == fallback_byte(address + j),
        decreases size - i,
    {
        let a = address + i;
        let b: u8 = if a == 0x150000 {
            100
        } else if a == 0x180002 {
            0xc9
        } else if a == 0x180003 {
            0x42
        } else if a == 0x250000 {
            200
        } else {
            0
        };
        data.push(b);
        i += 1;
    }
    Ok(data)
}

/// Accepts any write and discards it: the synthetic memory is a pure
/// function of the address, so writes have no effect. Never fails.
pub fn write_memory(_process: &Process, _address: usize, _data: &[u8]) -> (r: Result<
    (),
    ScanError,
>)
    ensures
        r is Ok,
{
    Ok(())
}

/// The two synthetic regions, covering all three planted words.
pub fn get_memory_regions(_process: &Process) -> (r: Result<Vec<MemoryRegion>, ScanError>)
    ensures
        r is Ok,
        r->Ok_0@.len() == 2,
        r->Ok_0@[0] == (MemoryRegion { start: 0x100000, size: 0x100000 }),
        r->Ok_0@[1] == (MemoryRegion { start: 0x200000, size: 0x100000 }),
        forall|i: int| 0 <= i < r->Ok_0@.len() ==> (#[trigger] r->Ok_0@[i]).wf(),
{
    let mut regions: Vec<MemoryRegion> = Vec::new();
    regions.push(MemoryRegion { start: 0x100000, size: 0x100000 });
    regions.push(MemoryRegion { start: 0x200000, size: 0x100000 });
    Ok(regions)
}

/// A fixed synthetic process table, for exercising enumeration and
/// attach without an OS.
pub fn list_processes() -> (r: Result<Vec<Process>, ScanError>)
    ensures
        r is Ok,
        r->Ok_0@.len() == 3,
        r->Ok_0@[0].id == 1234 && r->Ok_0@[0].name@ == "game.exe"@,
        r->Ok_0@[1].id == 5678 && r->Ok_0@[1].name@ == "browser.exe"@,
        r->Ok_0@[2].id == 9012 && r->Ok_0@[2].name@ == "editor.exe"@,
{
    let mut processes: Vec<Process> = Vec::new();
    processes.push(Process::new(1234, String::from_str("game.exe")));
    processes.push(Process::new(5678, String::from_str("browser.exe")));
    processes.push(Process::new(9012, String::from_str("editor.exe")));
    Ok(processes)
}

} // verus!
