//! The session controller: one optionally selected target, its scan engine
//! and the element type of the active scan, driven one request at a time.
use vstd::prelude::*;

use crate::memory::{MemoryRegion, Process, PID};
use crate::scanner::{
    entries_spec, page_spec, retained, same_entries, scanned, snapshots_fit, ScanResultEntry, Scanner,
};
use crate::value::{
    decode_spec, element_of, encode_spec, lemma_round_trip, ElementType, ScanError, ScanValue,
    ScanValueType,
};

verus! {

/// How a request names the process to select: by PID, or by the path of an
/// executable to start.
#[derive(Debug)]
pub enum SelectProcessParams {
    ByPID { pid: PID },
    ByPath { path: String },
}

/// A process as a response reports it.
#[derive(Debug)]
pub struct ProcessDTO {
    pub pid: PID,
    pub name: String,
}

impl ProcessDTO {
    /// The PID and name of the process that `p` is a handle on.
    pub fn new<P: Process>(p: &P) -> (r: ProcessDTO)
        ensures
            r.pid == p.spec_pid(),
            r.name@ == p.spec_name()@,
    {
        ProcessDTO { pid: p.pid(), name: p.name() }
    }
}

/// The number of candidates after a scan.
#[derive(Clone, Copy, Debug, PartialEq, Eq, Structural)]
pub struct ScanCount {
    pub count: usize,
}

/// The window of candidates that a result request asks for.
#[derive(Clone, Copy, Debug, PartialEq, Eq, Structural)]
pub struct ScanResultParams {
    pub offset: usize,
    pub limit: usize,
}

/// The value that a scan request compares against.
#[derive(Clone, Copy, Debug, PartialEq, Eq, Structural)]
pub struct ScanParam {
    pub value: ScanValue,
}

/// Why a rescan for `v` is refused while the active scan has element type
/// `active`: a reserved kind, another element type, or a number that does
/// not fit; `None` where it may go ahead.
pub open spec fn rescan_error(active: ElementType, v: ScanValue) -> Option<ScanError> {
    if !v.type_.is_integer() {
        Some(ScanError::Unsupported)
    } else if element_of(v) != active {
        Some(ScanError::TypeMismatch)
    } else if encode_spec(v) is Err {
        Some(encode_spec(v)->Err_0)
    } else {
        None
    }
}

/// One scanning session: the selected target's engine, if a target is
/// selected, and the element type of the active scan, if one was started.
pub struct ScannerContext<P: Process> {
    scanner: Option<Scanner<P>>,
    element: Option<ElementType>,
}

impl<P: Process> ScannerContext<P> {
    /// The engine of the selected target.
    pub closed spec fn engine(&self) -> Option<Scanner<P>> {
        self.scanner
    }

    /// The element type of the active scan.
    pub closed spec fn active(&self) -> Option<ElementType> {
        self.element
    }

    /// An active scan belongs to a selected target, and its element width is
    /// the one the engine recorded.
    pub closed spec fn wf(&self) -> bool {
        self.element is Some ==> self.scanner is Some && self.scanner->0.element_width()
            == self.element->0.kind.spec_width()
    }

    /// A session with no target and no scan.
    pub fn new() -> (r: Self)
        ensures
            r.wf(),
            r.engine() is None,
            r.active() is None,
    {
        ScannerContext { scanner: None, element: None }
    }

    /// The selected target's handle, if any.
    pub fn target(&self) -> (r: Option<&P>)
        ensures
            match r {
                Some(p) => self.engine() is Some && *p == self.engine()->0.target(),
                None => self.engine() is None,
            },
    {
        match &self.scanner {
            Some(s) => Some(s.process()),
            None => None,
        }
    }

    /// Opens process `pid` and makes it the target, with a fresh engine and
    /// no active scan; reports its PID and name. Where the process cannot be
    /// opened the session is left as it was.
    pub fn select_process(&mut self, pid: PID) -> (r: Result<ProcessDTO, ScanError>)
        requires
            old(self).wf(),
        ensures
            final(self).wf(),
            match r {
                Ok(dto) => {
                    &&& final(self).engine() is Some
                    &&& final(self).engine()->0.target().spec_pid() == pid
                    &&& dto.pid == pid
                    &&& dto.name@ == final(self).engine()->0.target().spec_name()@
                    &&& final(self).engine()->0.candidates() == Seq::<usize>::empty()
                    &&& final(self).engine()->0.element_width() == 0
                    &&& final(self).active() is None
                },
                Err(e) => e == ScanError::OpenFailed && *final(self) == *old(self),
            },
    {
        match P::open(pid) {
            Ok(process) => {
                let dto = ProcessDTO::new(&process);
                self.scanner = Some(Scanner::new(process));
                self.element = None;
                Ok(dto)
            },
            Err(_) => Err(ScanError::OpenFailed),
        }
    }

    /// Starts a new scan of `regions` for the value of `param`, replacing the
    /// candidates, and makes its element type the active one; returns the
    /// number of candidates. Refused, with the session unchanged, where no
    /// target is selected, where the kind is reserved (`Unsupported`) or
    /// where the number does not fit it (`OutOfRange`).
    pub fn new_scan(&mut self, regions: &Vec<MemoryRegion>, param: &ScanParam) -> (r: Result<
        ScanCount,
        ScanError,
    >)
        requires
            old(self).wf(),
        ensures
            final(self).wf(),
            old(self).engine() is None ==> r == Err::<ScanCount, ScanError>(ScanError::NoTarget)
                && *final(self) == *old(self),
            old(self).engine() is Some && encode_spec(param.value) is Err ==> r == Err::<
                ScanCount,
                ScanError,
            >(encode_spec(param.value)->Err_0) && *final(self) == *old(self),
            old(self).engine() is Some && encode_spec(param.value) is Ok ==> {
                let e = encode_spec(param.value)->Ok_0.0;
                let pattern = encode_spec(param.value)->Ok_0.1;
                let s = final(self).engine()->0;
                &&& r is Ok
                &&& final(self).engine() is Some
                &&& final(self).active() == Some(e)
                &&& s.target() == old(self).engine()->0.target()
                &&& s.element_width() == pattern.len()
                &&& r->Ok_0.count == s.candidates().len()
                &&& exists|snaps: Seq<Option<Seq<u8>>>|
                    snapshots_fit(regions@, snaps) && s.candidates() == scanned(
                        regions@,
                        snaps,
                        pattern,
                        regions@.len() as int,
                    )
            },
    {
        if self.scanner.is_none() {
            return Err(ScanError::NoTarget);
        }
        let (e, pattern) = match param.value.encode() {
            Ok(found) => found,
            Err(x) => {
                return Err(x);
            },
        };
        proof {
            lemma_round_trip(param.value);
        }
        let mut s = match self.scanner.take() {
            Some(s) => s,
            None => {
                return Err(ScanError::NoTarget);
            },
        };
        s.new_scan(regions, pattern.as_slice());
        let count = s.get_addresses().len();
        self.scanner = Some(s);
        self.element = Some(e);
        Ok(ScanCount { count })
    }

    /// Rescans the candidates for the value of `param`, keeping those at
    /// which the target now holds it; returns the number kept. Refused, with
    /// the session unchanged, where no target is selected, where no scan is
    /// active, or as `rescan_error` says.
    pub fn next_scan(&mut self, param: &ScanParam) -> (r: Result<ScanCount, ScanError>)
        requires
            old(self).wf(),
        ensures
            final(self).wf(),
            old(self).engine() is None ==> r == Err::<ScanCount, ScanError>(ScanError::NoTarget)
                && *final(self) == *old(self),
            old(self).engine() is Some && old(self).active() is None ==> r == Err::<
                ScanCount,
                ScanError,
            >(ScanError::NoScan) && *final(self) == *old(self),
            old(self).engine() is Some && old(self).active() is Some && rescan_error(
                old(self).active()->0,
                param.value,
            ) is Some ==> r == Err::<ScanCount, ScanError>(
                rescan_error(old(self).active()->0, param.value)->0,
            ) && *final(self) == *old(self),
            old(self).engine() is Some && old(self).active() is Some && rescan_error(
                old(self).active()->0,
                param.value,
            ) is None ==> {
                let pattern = encode_spec(param.value)->Ok_0.1;
                let before = old(self).engine()->0;
                let s = final(self).engine()->0;
                &&& r is Ok
                &&& final(self).engine() is Some
                &&& final(self).active() == old(self).active()
                &&& s.target() == before.target()
                &&& s.element_width() == before.element_width()
                &&& r->Ok_0.count == s.candidates().len()
                &&& exists|reads: Seq<Option<Seq<u8>>>|
                    reads.len() == before.candidates().len() && (forall|j: int|
                        0 <= j < reads.len() && #[trigger] reads[j] is Some ==> reads[j]->0.len()
                            == pattern.len()) && s.candidates() == retained(
                        before.candidates(),
                        reads,
                        pattern,
                        before.candidates().len() as int,
                    )
            },
    {
        if self.scanner.is_none() {
            return Err(ScanError::NoTarget);
        }
        let active = match self.element {
            Some(e) => e,
            None => {
                return Err(ScanError::NoScan);
            },
        };
        match param.value.type_ {
            ScanValueType::Float | ScanValueType::Double => {
                return Err(ScanError::Unsupported);
            },
            _ => {},
        }
        if param.value.element_type() != active {
            return Err(ScanError::TypeMismatch);
        }
        let (_, pattern) = match param.value.encode() {
            Ok(found) => found,
            Err(x) => {
                return Err(x);
            },
        };
        proof {
            lemma_round_trip(param.value);
        }
        let mut s = match self.scanner.take() {
            Some(s) => s,
            None => {
                return Err(ScanError::NoTarget);
            },
        };
        s.next_scan(pattern.as_slice());
        let count = s.get_addresses().len();
        self.scanner = Some(s);
        Ok(ScanCount { count })
    }

    /// The candidates in the window that `params` asks for, each with the
    /// value of the active element type that the target holds there now.
    /// Refused where no target is selected, where no scan is active, or where
    /// a read fails (`ReadFailed`).
    pub fn scan_result(&self, params: &ScanResultParams) -> (r: Result<Vec<ScanResultEntry>, ScanError>)
        requires
            self.wf(),
        ensures
            self.engine() is None ==> r == Err::<Vec<ScanResultEntry>, ScanError>(
                ScanError::NoTarget,
            ),
            self.engine() is Some && self.active() is None ==> r == Err::<
                Vec<ScanResultEntry>,
                ScanError,
            >(ScanError::NoScan),
            self.engine() is Some && self.active() is Some ==> {
                let p = page_spec(
                    self.engine()->0.candidates(),
                    params.offset as int,
                    params.limit as int,
                );
                &&& p.len() == 0 ==> r is Ok && r->Ok_0@.len() == 0
                &&& exists|reads: Seq<Option<Seq<u8>>>|
                    reads.len() == p.len() && #[trigger] same_entries(
                        r,
                        entries_spec(p, reads, self.active()->0),
                    )
            },
    {
        match &self.scanner {
            None => Err(ScanError::NoTarget),
            Some(s) => match self.element {
                None => Err(ScanError::NoScan),
                Some(e) => s.scan_result(params.offset, params.limit, e),
            },
        }
    }
}

impl<P: Process> Default for ScannerContext<P> {
    /// A session with no target and no scan.
    fn default() -> (r: Self)
        ensures
            r.wf(),
            r.engine() is None,
            r.active() is None,
    {
        ScannerContext::new()
    }
}

} // verus!
