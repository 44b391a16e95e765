//! Memory region descriptors and the memory-map line grammar.
//!
//! A region is a contiguous, currently-valid span of the target's
//! virtual address space. On the platform that publishes the memory
//! map as text, each mapping is one line of the form
//! `start-end perms ...` with hexadecimal `start` and `end`; only
//! readable mappings of positive size become regions. The reading of
//! that text is the caller's concern; the grammar is decided here.

use vstd::prelude::*;

use crate::ScanError;
use crate::parse::{digits_val, number_ok, parse_usize_digits};

verus! {

/// A contiguous span of the target's virtual address space.
#[derive(Clone, Copy, Debug, PartialEq, Eq, Structural)]
pub struct MemoryRegion {
    /// The starting address of the region.
    pub start: usize,
    /// The size of the region in bytes.
    pub size: usize,
}

impl MemoryRegion {
    /// A region is well-formed when it is nonempty and its one-past-end
    /// address still fits the platform's pointer width.
    pub open spec fn wf(self) -> bool {
        self.size > 0 && self.start + self.size <= usize::MAX
    }
}

/// One region of a scan snapshot: the region descriptor together with
/// the outcome of reading it. `None` records a failed read; such a
/// region is excluded from results without aborting the scan. A
/// partial read may return fewer bytes than the region's size, and the
/// returned length is authoritative.
pub struct RegionRead {
    pub region: MemoryRegion,
    pub data: Option<Vec<u8>>,
}

impl RegionRead {
    pub open spec fn wf(self) -> bool {
        &&& self.region.wf()
        &&& match self.data {
            Some(d) => d@.len() <= self.region.size,
            None => true,
        }
    }
}

/// A field separator in a memory-map line.
pub open spec fn is_sep(c: char) -> bool {
    c == ' ' || c == '\t'
}

/// The position of the first separator in `s` at or after `from`, or
/// the length when the rest of the line is one field.
pub open spec fn sep_end(s: Seq<char>, from: int) -> int
    decreases s.len() - from,
{
    if from < 0 || from >= s.len() {
        s.len() as int
    } else if is_sep(s[from]) {
        from
    } else {
        sep_end(s, from + 1)
    }
}

/// The position of the first non-separator in `s` at or after `from`,
/// or the length when only separators remain.
pub open spec fn field_begin(s: Seq<char>, from: int) -> int
    decreases s.len() - from,
{
    if from < 0 || from >= s.len() {
        s.len() as int
    } else if is_sep(s[from]) {
        field_begin(s, from + 1)
    } else {
        from
    }
}

/// The position of the first `c` in `s[from..to)`, if any.
pub open spec fn char_find(s: Seq<char>, from: int, to: int, c: char) -> Option<int>
    decreases to - from,
{
    if from < 0 || from >= to || to > s.len() {
        None
    } else if s[from] == c {
        Some(from)
    } else {
        char_find(s, from + 1, to, c)
    }
}

/// The region a memory-map line describes: its first field must be
/// `start-end` in hexadecimal, its second field must contain `r`
/// (readable), and the span must be nonempty. Any other line maps to
/// no region.
pub open spec fn maps_line_region(s: Seq<char>) -> Option<MemoryRegion> {
    let range_end = sep_end(s, 0);
    match char_find(s, 0, range_end, '-') {
        None => None,
        Some(dash) => {
            let start_txt = s.subrange(0, dash);
            let end_txt = s.subrange(dash + 1, range_end);
            if !number_ok(start_txt, true, usize::MAX as int) || !number_ok(
                end_txt,
                true,
                usize::MAX as int,
            ) {
                None
            } else {
                let start = digits_val(start_txt, true);
                let end = digits_val(end_txt, true);
                if end <= start {
                    None
                } else {
                    let perms_begin = field_begin(s, range_end);
                    let perms_end = sep_end(s, perms_begin);
                    if perms_begin >= s.len() {
                        None
                    } else if char_find(s, perms_begin, perms_end, 'r') is None {
                        None
                    } else {
                        Some(
                            MemoryRegion {
                                start: start as usize,
                                size: (end - start) as usize,
                            },
                        )
                    }
                }
            }
        },
    }
}

/// The regions that a sequence of memory-map lines describes, in line
/// order.
pub open spec fn maps_regions(lines: Seq<String>) -> Seq<MemoryRegion> {
    lines.filter_map(|l: String| maps_line_region(l@))
}

fn find_sep_end(s: &str, from: usize, n: usize) -> (r: usize)
    requires
        n == s@.len(),
        from <= n,
    ensures
        r as int == sep_end(s@, from as int),
        from <= r <= n,
{
    let mut i: usize = from;
    while i < n
        invariant
            from <= i <= n,
            n == s@.len(),
            sep_end(s@, from as int) == sep_end(s@, i as int),
        decreases n - i,
    {
        let c = s.get_char(i);
        if c == ' ' || c == '\t' {
            return i;
        }
        i += 1;
    }
    i
}

fn find_field_begin(s: &str, from: usize, n: usize) -> (r: usize)
    requires
        n == s@.len(),
        from <= n,
    ensures
        r as int == field_begin(s@, from as int),
        from <= r <= n,
{
    let mut i: usize = from;
    while i < n
        invariant
            from <= i <= n,
            n == s@.len(),
            field_begin(s@, from as int) == field_begin(s@, i as int),
        decreases n - i,
    {
        let c = s.get_char(i);
        if !(c == ' ' || c == '\t') {
            return i;
        }
        i += 1;
    }
    i
}

fn find_char(s: &str, from: usize, to: usize, c: char) -> (r: Option<usize>)
    requires
        to <= s@.len(),
        from <= to,
    ensures
        match r {
            Some(i) => Some(i as int) == char_find(s@, from as int, to as int, c),
            None => char_find(s@, from as int, to as int, c) is None,
        },
{
    let mut i: usize = from;
    while i < to
        invariant
            from <= i <= to,
            to <= s@.len(),
            char_find(s@, from as int, to as int, c) == char_find(s@, i as int, to as int, c),
        decreases to - i,
    {
        if s.get_char(i) == c {
            return Some(i);
        }
        i += 1;
    }
    None
}

/// Parses one memory-map line into the region it describes, or `None`
/// for a malformed, empty or unreadable mapping.
pub fn parse_maps_line(line: &str) -> (r: Option<MemoryRegion>)
    ensures
        r == maps_line_region(line@),
        r is Some ==> r->0.wf(),
{
    let n = line.unicode_len();
    let range_end = find_sep_end(line, 0, n);
    let dash = match find_char(line, 0, range_end, '-') {
        Some(d) => d,
        None => {
            return None;
        },
    };
    proof {
        // `char_find` yields a position inside [0, range_end)
        lemma_char_find_in_range(line@, 0, range_end as int, '-');
    }
    let start_txt = line.substring_char(0, dash);
    let end_txt = line.substring_char(dash + 1, range_end);
    proof {
        assert(start_txt@.skip(0) =~= line@.subrange(0, dash as int));
        assert(end_txt@.skip(0) =~= line@.subrange(dash as int + 1, range_end as int));
    }
    let start = match parse_usize_digits(start_txt, 0, true) {
        Ok(v) => v,
        Err(_) => {
            return None;
        },
    };
    let end = match parse_usize_digits(end_txt, 0, true) {
        Ok(v) => v,
        Err(_) => {
            return None;
        },
    };
    if end <= start {
        return None;
    }
    let size = end - start;
    let perms_begin = find_field_begin(line, range_end, n);
    if perms_begin >= n {
        return None;
    }
    let perms_end = find_sep_end(line, perms_begin, n);
    match find_char(line, perms_begin, perms_end, 'r') {
        Some(_) => Some(MemoryRegion { start, size }),
        None => None,
    }
}

proof fn lemma_char_find_in_range(s: Seq<char>, from: int, to: int, c: char)
    requires
        char_find(s, from, to, c) is Some,
    ensures
        from <= char_find(s, from, to, c)->0 < to <= s.len(),
    decreases to - from,
{
    if !(from < 0 || from >= to || to > s.len()) && s[from] != c {
        lemma_char_find_in_range(s, from + 1, to, c);
    }
}

/// Parses the lines of a memory map into its readable regions, kept in
/// line order. Malformed or unreadable lines yield no region and do
/// not disturb the rest.
pub fn get_memory_regions(lines: &Vec<String>) -> (r: Vec<MemoryRegion>)
    ensures
        r@ == maps_regions(lines@),
        forall|i: int| 0 <= i < r@.len() ==> (#[trigger] r@[i]).wf(),
{
    let ghost f = |l: String| maps_line_region(l@);
    let mut regions: Vec<MemoryRegion> = Vec::new();
    let mut i: usize = 0;
    while i < lines.len()
        invariant
            0 <= i <= lines.len(),
            regions@ == lines@.take(i as int).filter_map(f),
            f == (|l: String| maps_line_region(l@)),
            forall|k: int| 0 <= k < regions@.len() ==> (#[trigger] regions@[k]).wf(),
        decreases lines.len() - i,
    {
        let line: &String = &lines[i];
        match parse_maps_line(line.as_str()) {
            Some(region) => {
                regions.push(region);
            },
            None => {},
        }
        proof {
            lines@.lemma_filter_map_take_succ(f, i as int);
            assert(regions@ =~= lines@.take(i as int + 1).filter_map(f));
        }
        i += 1;
    }
    proof {
        assert(lines@.take(lines@.len() as int) =~= lines@);
    }
    regions
}

/// Checks a write for the all-or-nothing rule: a write succeeds only
/// when the byte count the platform reports written equals the byte
/// count requested; a short write is a failure, never a partial
/// success.
pub fn write_outcome(requested: usize, written: usize) -> (r: Result<(), ScanError>)
    ensures
        r is Ok <==> written == requested,
        r is Err ==> r->Err_0 == ScanError::WriteFailed,
{
    if written == requested {
        Ok(())
    } else {
        Err(ScanError::WriteFailed)
    }
}

} // verus!
