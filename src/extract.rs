use vstd::prelude::*;

use crate::matcher::{scan, scan_from, find_start, Scan};
use crate::RangeType;

verus! {

/// Where the extraction stands between two reads.
#[derive(Clone, Copy, Debug, PartialEq, Eq, Structural)]
pub enum Phase {
    /// Looking for the start marker, with this much of it matched so far.
    SeekStart(usize),
    /// Emitting while looking for the end marker, with this much of it matched.
    SeekEnd(usize),
    /// The end marker is empty: everything after the start is copied.
    Copy,
    /// The end marker was found; nothing more is emitted.
    Done,
}

/// What the end phase does with `c[from..]`, continuing from progress `k`:
/// the scanned bytes are emitted, cut at the end marker when it completes.
pub open spec fn seek_end(en: Seq<u8>, incl_end: bool, k: nat, c: Seq<u8>, from: int) -> (Phase, Seq<u8>) {
    match scan(en, k, c.subrange(from, c.len() as int)) {
        Scan::Partial(r) => (Phase::SeekEnd(r as usize), c.subrange(from, c.len() as int)),
        Scan::Hit(j) => {
            let h = from + j;
            let cut = if incl_end {
                h
            } else if h - en.len() >= from {
                h - en.len()
            } else {
                from
            };
            (Phase::Done, c.subrange(from, cut))
        },
    }
}

/// The phase after one chunk, and the bytes emitted for it.
pub open spec fn step(st: Seq<u8>, en: Seq<u8>, mode: RangeType, ph: Phase, c: Seq<u8>) -> (Phase, Seq<u8>) {
    match ph {
        Phase::Done => (Phase::Done, Seq::empty()),
        Phase::Copy => (Phase::Copy, c),
        Phase::SeekEnd(k) => seek_end(en, mode.spec_includes_end(), k as nat, c, 0),
        Phase::SeekStart(k) => match scan(st, k as nat, c) {
            Scan::Partial(r) => (Phase::SeekStart(r as usize), Seq::empty()),
            Scan::Hit(j) => {
                let pre = if mode.spec_includes_start() {
                    st
                } else {
                    Seq::empty()
                };
                if en.len() == 0 {
                    (Phase::Copy, pre + c.subrange(j as int, c.len() as int))
                } else {
                    let (ph2, o) = seek_end(en, mode.spec_includes_end(), 0, c, j as int);
                    (ph2, pre + o)
                }
            },
        },
    }
}

/// The phase in which the first chunk is met.
pub open spec fn initial_phase(st: Seq<u8>, en: Seq<u8>) -> Phase {
    if st.len() > 0 {
        Phase::SeekStart(0)
    } else if en.len() > 0 {
        Phase::SeekEnd(0)
    } else {
        Phase::Copy
    }
}

/// The phase after a sequence of chunks, and everything emitted for them.
pub open spec fn run_chunks(st: Seq<u8>, en: Seq<u8>, mode: RangeType, ph: Phase, cs: Seq<Seq<u8>>) -> (Phase, Seq<u8>)
    decreases cs.len(),
{
    if cs.len() == 0 {
        (ph, Seq::empty())
    } else {
        let (p1, o1) = run_chunks(st, en, mode, ph, cs.drop_last());
        let (p2, o2) = step(st, en, mode, p1, cs.last());
        (p2, o1 + o2)
    }
}

/// Everything written for an input that arrives in the reads `cs`.
pub open spec fn transduce(st: Seq<u8>, en: Seq<u8>, mode: RangeType, cs: Seq<Seq<u8>>) -> Seq<u8> {
    run_chunks(st, en, mode, initial_phase(st, en), cs).1
}

/// The streaming extractor: markers, inclusion mode and the current phase.
pub struct Extractor {
    start: Vec<u8>,
    end: Vec<u8>,
    mode: RangeType,
    phase: Phase,
}

impl Extractor {
    pub closed spec fn start_marker(&self) -> Seq<u8> {
        self.start@
    }

    pub closed spec fn end_marker(&self) -> Seq<u8> {
        self.end@
    }

    pub closed spec fn range(&self) -> RangeType {
        self.mode
    }

    pub closed spec fn phase(&self) -> Phase {
        self.phase
    }

    /// Counters stay below the length of the marker they count.
    pub closed spec fn wf(&self) -> bool {
        match self.phase {
            Phase::SeekStart(k) => k < self.start@.len(),
            Phase::SeekEnd(k) => k < self.end@.len(),
            _ => true,
        }
    }

    pub fn new(start: Vec<u8>, end: Vec<u8>, mode: RangeType) -> (r: Extractor)
        ensures
            r.wf(),
            r.start_marker() == start@,
            r.end_marker() == end@,
            r.range() == mode,
            r.phase() == initial_phase(start@, end@),
    {
        let phase = if start.len() > 0 {
            Phase::SeekStart(0)
        } else if end.len() > 0 {
            Phase::SeekEnd(0)
        } else {
            Phase::Copy
        };
        Extractor { start, end, mode, phase }
    }

    /// True once the end marker has been found: no later input matters.
    pub fn is_done(&self) -> (r: bool)
        ensures
            r == (self.phase() == Phase::Done),
    {
        match self.phase {
            Phase::Done => true,
            _ => false,
        }
    }

    /// Processes one chunk of input and returns the bytes to write for it.
    pub fn feed(&mut self, chunk: &[u8]) -> (out: Vec<u8>)
        requires
            old(self).wf(),
        ensures
            final(self).wf(),
            final(self).start_marker() == old(self).start_marker(),
            final(self).end_marker() == old(self).end_marker(),
            final(self).range() == old(self).range(),
            (final(self).phase(), out@) == step(
                old(self).start_marker(),
                old(self).end_marker(),
                old(self).range(),
                old(self).phase(),
                chunk@,
            ),
    {
        let mut out: Vec<u8> = Vec::new();
        match self.phase {
            Phase::Done => {},
            Phase::Copy => {
                append_range(&mut out, chunk, 0, chunk.len());
                assert(chunk@.subrange(0, chunk@.len() as int) =~= chunk@);
            },
            Phase::SeekEnd(k) => {
                let ph = self.scan_end(k, chunk, 0, &mut out);
                self.phase = ph;
            },
            Phase::SeekStart(k) => {
                let (hit, j) = find_start(self.start.as_slice(), k, chunk);
                if !hit {
                    self.phase = Phase::SeekStart(j);
                    proof { crate::matcher::lemma_scan_bounds(self.start@, k as nat, chunk@); }
                } else {
                    proof { crate::matcher::lemma_scan_bounds(self.start@, k as nat, chunk@); }
                    if self.mode.includes_start() {
                        append_range(&mut out, self.start.as_slice(), 0, self.start.len());
                        assert(self.start@.subrange(0, self.start@.len() as int) =~= self.start@);
                    }
                    if self.end.len() == 0 {
                        append_range(&mut out, chunk, j, chunk.len());
                        self.phase = Phase::Copy;
                    } else {
                        let ph = self.scan_end(0, chunk, j, &mut out);
                        self.phase = ph;
                    }
                }
            },
        }
        out
    }

    /// Runs the end phase over `chunk[from..]`, appending what it emits to `out`.
    fn scan_end(&self, k: usize, chunk: &[u8], from: usize, out: &mut Vec<u8>) -> (ph: Phase)
        requires
            k < self.end@.len(),
            from <= chunk@.len(),
        ensures
            match ph {
                Phase::SeekEnd(r) => r < self.end@.len(),
                _ => true,
            },
            (ph, final(out)@.subrange(old(out)@.len() as int, final(out)@.len() as int)) == seek_end(
                self.end@,
                self.mode.spec_includes_end(),
                k as nat,
                chunk@,
                from as int,
            ),
            old(out)@.len() <= final(out)@.len(),
            final(out)@.subrange(0, old(out)@.len() as int) == old(out)@,
    {
        let ghost before = out@;
        let (hit, h) = scan_from(self.end.as_slice(), k, chunk, from);
        proof {
            crate::matcher::lemma_scan_bounds(self.end@, k as nat, chunk@.subrange(from as int, chunk@.len() as int));
        }
        if !hit {
            append_range(out, chunk, from, chunk.len());
            assert(out@.subrange(before.len() as int, out@.len() as int) =~= chunk@.subrange(from as int, chunk@.len() as int));
            assert(out@.subrange(0, before.len() as int) =~= before);
            Phase::SeekEnd(h)
        } else {
            let cut = if self.mode.includes_end() {
                h
            } else if h >= self.end.len() && h - self.end.len() >= from {
                h - self.end.len()
            } else {
                from
            };
            append_range(out, chunk, from, cut);
            assert(out@.subrange(before.len() as int, out@.len() as int) =~= chunk@.subrange(from as int, cut as int));
            assert(out@.subrange(0, before.len() as int) =~= before);
            Phase::Done
        }
    }
}

/// Appends `c[lo..hi]` to `out`.
fn append_range(out: &mut Vec<u8>, c: &[u8], lo: usize, hi: usize)
    requires
        lo <= hi <= c@.len(),
    ensures
        final(out)@ == old(out)@ + c@.subrange(lo as int, hi as int),
{
    let ghost before = out@;
    let mut i: usize = lo;
    while i < hi
        invariant
            lo <= i <= hi <= c@.len(),
            out@ == before + c@.subrange(lo as int, i as int),
        decreases hi - i,
    {
        out.push(c[i]);
        assert(c@.subrange(lo as int, i + 1) =~= c@.subrange(lo as int, i as int).push(c@[i as int]));
        i = i + 1;
    }
}

} // verus!
