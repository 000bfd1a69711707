//! The Linux process table: which entries of `/proc` are processes, and the
//! short name each one reports.
use vstd::prelude::*;
use vstd::string::StringSliceAdditionalSpecFns;
use vstd::utf8::encode_utf8;

use crate::memory::PID;
use crate::text::{number_of, parse_number};

verus! {

/// The PID that a `/proc` entry named `name` stands for: the name must be
/// decimal digits and nothing else, spelling a number of at most `u32::MAX`.
pub open spec fn pid_of(name: Seq<u8>) -> Option<PID> {
    match number_of(name, 10, u32::MAX as int) {
        Some(v) => Some(v as PID),
        None => None,
    }
}

/// The PID that the `/proc` entry `name` stands for, if it is a process.
pub fn parse_pid(name: &str) -> (r: Option<PID>)
    ensures
        r == pid_of(name.spec_bytes()),
{
    match parse_number(name.as_bytes(), 10, u32::MAX as u64) {
        Some(v) => Some(v as PID),
        None => None,
    }
}

/// The PIDs that the `/proc` entries `names` stand for, in their order;
/// entries that are not processes are left out.
pub open spec fn pids_in(names: Seq<Seq<u8>>) -> Seq<PID>
    decreases names.len(),
{
    if names.len() == 0 {
        Seq::empty()
    } else {
        let prev = pids_in(names.drop_last());
        match pid_of(names.last()) {
            Some(p) => prev.push(p),
            None => prev,
        }
    }
}

/// The PIDs that the `/proc` entries `names` stand for, in their order;
/// entries that are not processes are left out.
pub fn process_ids(names: &Vec<String>) -> (r: Vec<PID>)
    ensures
        r@ == pids_in(names@.map_values(|n: String| encode_utf8(n@))),
{
    let ghost all = names@.map_values(|n: String| encode_utf8(n@));
    let mut out: Vec<PID> = Vec::new();
    let mut i: usize = 0;
    assert(all.subrange(0, 0) =~= Seq::<Seq<u8>>::empty());
    while i < names.len()
        invariant
            i <= names@.len(),
            all == names@.map_values(|n: String| encode_utf8(n@)),
            out@ == pids_in(all.subrange(0, i as int)),
        decreases names@.len() - i,
    {
        let ghost next = all.subrange(0, i + 1);
        assert(next.drop_last() =~= all.subrange(0, i as int));
        assert(next.last() == encode_utf8(names@[i as int]@));
        match parse_pid(names[i].as_str()) {
            Some(p) => out.push(p),
            None => {},
        }
        i = i + 1;
    }
    assert(all.subrange(0, names@.len() as int) =~= all);
    out
}

/// Whether `c` has the Unicode `White_Space` property, which
/// `char::is_whitespace` tests: 25 code points.
pub open spec fn is_white_space(c: char) -> bool {
    let u = c as u32;
    (0x09 <= u && u <= 0x0d) || u == 0x20 || u == 0x85 || u == 0xa0 || u == 0x1680 || (0x2000
        <= u && u <= 0x200a) || u == 0x2028 || u == 0x2029 || u == 0x202f || u == 0x205f || u
        == 0x3000
}

/// `s` without its trailing whitespace.
pub open spec fn trim_end_of(s: Seq<char>) -> Seq<char>
    decreases s.len(),
{
    if s.len() > 0 && is_white_space(s.last()) {
        trim_end_of(s.drop_last())
    } else {
        s
    }
}

/// Relies on `str::trim_end`, which returns `s` without the longest suffix
/// of characters for which `char::is_whitespace` holds.
#[verifier::external_body]
fn trim_end(s: &str) -> (r: String)
    ensures
        r@ == trim_end_of(s@),
{
    s.trim_end().to_string()
}

/// One process of the process table: its PID and short name.
#[derive(Debug)]
pub struct ProcessEntry {
    pid: PID,
    name: String,
}

impl ProcessEntry {
    /// The PID of this process.
    pub closed spec fn spec_id(&self) -> PID {
        self.pid
    }

    /// The short name of this process.
    pub closed spec fn spec_name(&self) -> Seq<char> {
        self.name@
    }

    /// The process `pid`, whose `comm` file reads `comm`: its name is that
    /// text without trailing whitespace.
    pub fn new(pid: PID, comm: &str) -> (r: Self)
        ensures
            r.spec_id() == pid,
            r.spec_name() == trim_end_of(comm@),
    {
        ProcessEntry { pid, name: trim_end(comm) }
    }

    /// The PID of this process.
    pub fn id(&self) -> (r: PID)
        ensures
            r == self.spec_id(),
    {
        self.pid
    }

    /// The short name of this process.
    pub fn name(&self) -> (r: String)
        ensures
            r@ == self.spec_name(),
    {
        self.name.clone()
    }
}

} // verus!
