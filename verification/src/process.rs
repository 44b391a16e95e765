//! The process handle and attach-by-name selection.
//!
//! A process handle identifies an attach target: the OS-assigned
//! identifier, the executable name, and the platform access token the
//! memory layer presents to its primitives. Enumerating the process
//! table is the platform's work; choosing the first entry whose name
//! exactly equals the requested one is decided here.

use vstd::prelude::*;
use vstd::string::*;

use crate::ScanError;
use crate::parse::dec_str;
use crate::parse::u32_to_decimal;

verus! {

/// An attachable external process.
#[derive(Clone, Debug)]
pub struct Process {
    /// The OS-assigned process identifier.
    pub id: u32,
    /// The executable name the process table shows.
    pub name: String,
    /// The platform access credential, held as a plain value: the
    /// process identifier itself where the platform addresses
    /// processes by id, the raw value of a kernel handle where one
    /// was opened. Only the platform memory primitives interpret it.
    pub token: usize,
}

impl Process {
    /// A process known by id and name alone; the token starts as the
    /// id, as on platforms whose memory primitives address processes
    /// by id.
    pub fn new(id: u32, name: String) -> (p: Process)
        ensures
            p.id == id,
            p.name == name,
            p.token == id as usize,
    {
        Process { id, name, token: id as usize }
    }

    /// The display text of a process: its name followed by its id, as
    /// `name (PID: id)`.
    pub fn display_string(&self) -> (r: String)
        ensures
            r@ == self.name@ + " (PID: "@ + dec_str(self.id as int) + ")"@,
    {
        let mut s = self.name.clone();
        s.append(" (PID: ");
        let digits = u32_to_decimal(self.id);
        s.append(digits.as_str());
        s.append(")");
        proof {
            assert(s@ =~= self.name@ + " (PID: "@ + dec_str(self.id as int) + ")"@);
        }
        s
    }
}

/// The position of the first process in `procs` whose name is exactly
/// `name`, if any.
pub open spec fn first_match(procs: Seq<Process>, name: Seq<char>) -> Option<int>
    decreases procs.len(),
{
    if procs.len() == 0 {
        None
    } else if procs[0].name@ == name {
        Some(0)
    } else {
        match first_match(procs.drop_first(), name) {
            Some(i) => Some(i + 1),
            None => None,
        }
    }
}

/// When an entry at `i` matches and none before it does, `i` is the
/// first match.
pub proof fn lemma_first_match_some(procs: Seq<Process>, name: Seq<char>, i: int)
    requires
        0 <= i < procs.len(),
        procs[i].name@ == name,
        forall|j: int| 0 <= j < i ==> (#[trigger] procs[j]).name@ != name,
    ensures
        first_match(procs, name) == Some(i),
    decreases i,
{
    if i > 0 {
        lemma_first_match_some(procs.drop_first(), name, i - 1);
    }
}

/// When no entry matches, there is no first match.
pub proof fn lemma_first_match_none(procs: Seq<Process>, name: Seq<char>)
    requires
        forall|j: int| 0 <= j < procs.len() ==> (#[trigger] procs[j]).name@ != name,
    ensures
        first_match(procs, name) is None,
    decreases procs.len(),
{
    if procs.len() > 0 {
        lemma_first_match_none(procs.drop_first(), name);
    }
}

/// A name borne by no process in the list is never matched: the
/// lookup behind `attach` comes up empty exactly when every entry's
/// name differs from the requested one.
pub proof fn lemma_attach_absent_name(procs: Seq<Process>, name: Seq<char>)
    ensures
        first_match(procs, name) is None <==> (forall|j: int|
            0 <= j < procs.len() ==> (#[trigger] procs[j]).name@ != name),
    decreases procs.len(),
{
    if procs.len() > 0 {
        lemma_attach_absent_name(procs.drop_first(), name);
        if first_match(procs, name) is None {
            assert forall|j: int| 0 <= j < procs.len() implies (#[trigger] procs[j]).name@
                != name by {
                if j > 0 {
                    assert(procs.drop_first()[j - 1] == procs[j]);
                }
            }
        }
        if forall|j: int| 0 <= j < procs.len() ==> (#[trigger] procs[j]).name@ != name {
            assert forall|j: int|
                0 <= j < procs.drop_first().len() implies (#[trigger] procs.drop_first()[j]).name@
                != name by {
                assert(procs.drop_first()[j] == procs[j + 1]);
            }
            lemma_first_match_none(procs.drop_first(), name);
        }
    }
}

/// Character-wise string equality; exact, never partial.
fn str_eq(a: &str, b: &str) -> (r: bool)
    ensures
        r == (a@ == b@),
{
    let na = a.unicode_len();
    let nb = b.unicode_len();
    if na != nb {
        return false;
    }
    let mut i: usize = 0;
    while i < na
        invariant
            0 <= i <= na,
            na == a@.len(),
            na == b@.len(),
            forall|j: int| 0 <= j < i ==> a@[j] == b@[j],
        decreases na - i,
    {
        if a.get_char(i) != b.get_char(i) {
            return false;
        }
        i += 1;
    }
    proof {
        assert(a@ =~= b@);
    }
    true
}

/// Searches the process table for the first process whose executable
/// name exactly equals `name` — a partially matching name is never a
/// match. Yields `NotFound` exactly when no entry matches.
pub fn attach(processes: &Vec<Process>, name: &str) -> (r: Result<Process, ScanError>)
    ensures
        match r {
            Ok(p) => ({
                let fm = first_match(processes@, name@);
                fm is Some && p == processes@[fm->0]
            }),
            Err(e) => e == ScanError::NotFound && first_match(processes@, name@) is None,
        },
{
    let n = processes.len();
    let mut i: usize = 0;
    while i < n
        invariant
            0 <= i <= n,
            n == processes@.len(),
            forall|j: int| 0 <= j < i ==> (#[trigger] processes@[j]).name@ != name@,
        decreases n - i,
    {
        let p: &Process = &processes[i];
        if str_eq(p.name.as_str(), name) {
            proof {
                lemma_first_match_some(processes@, name@, i as int);
            }
            return Ok(Process { id: p.id, name: p.name.clone(), token: p.token });
        }
        i += 1;
    }
    proof {
        lemma_first_match_none(processes@, name@);
    }
    Err(ScanError::NotFound)
}

} // verus!
