use vstd::prelude::*;

use crate::extract::{initial_phase, run_chunks, step, transduce, Phase};
use crate::matcher::{lemma_scan_bounds, lemma_scan_concat, lemma_scan_sound, scan, Scan};
use crate::RangeType;

verus! {

/// The input that arrives in the reads `cs`, in order.
pub open spec fn joined(cs: Seq<Seq<u8>>) -> Seq<u8>
    decreases cs.len(),
{
    if cs.len() == 0 {
        Seq::empty()
    } else {
        joined(cs.drop_last()) + cs.last()
    }
}

/// Where in the input read `i` begins.
pub open spec fn offset(cs: Seq<Seq<u8>>, i: int) -> int {
    joined(cs.take(i)).len() as int
}

/// Some read begins strictly between positions `lo` and `hi` of the input.
pub open spec fn splits(cs: Seq<Seq<u8>>, lo: int, hi: int) -> bool {
    exists|i: int| 0 <= i <= cs.len() && lo < #[trigger] offset(cs, i) < hi
}

/// Where the output begins in the input: just past the first start marker
/// the scan finds, or at the very beginning for an empty start marker.
pub open spec fn start_pos(st: Seq<u8>, t: Seq<u8>) -> Option<nat> {
    if st.len() == 0 {
        Some(0)
    } else {
        match scan(st, 0, t) {
            Scan::Hit(p) => Some(p),
            Scan::Partial(_) => None,
        }
    }
}

/// The start marker's own bytes as they appear in the output.
pub open spec fn lead(st: Seq<u8>, mode: RangeType) -> Seq<u8> {
    if mode.spec_includes_start() {
        st
    } else {
        Seq::empty()
    }
}

/// Where output stops, for an end marker that completes at `q`: after it,
/// or before it; before it only as far back as the read in which it completed,
/// since what earlier reads carried was already written.
pub open spec fn cut_ok(cs: Seq<Seq<u8>>, en: Seq<u8>, mode: RangeType, q: int, cut: int) -> bool {
    if mode.spec_includes_end() {
        cut == q
    } else {
        cut == q - en.len() || (q - en.len() < cut < q && exists|i: int|
            0 <= i <= cs.len() && #[trigger] offset(cs, i) == cut)
    }
}

/// The phase and the output after the reads `cs`, told over the whole input.
pub open spec fn described(st: Seq<u8>, en: Seq<u8>, mode: RangeType, cs: Seq<Seq<u8>>, ph: Phase, out: Seq<u8>) -> bool {
    let t = joined(cs);
    match start_pos(st, t) {
        None => out == Seq::<u8>::empty() && match scan(st, 0, t) {
            Scan::Partial(r) => ph == Phase::SeekStart(r as usize),
            Scan::Hit(_) => false,
        },
        Some(p) => p <= t.len() && if en.len() == 0 {
            ph == Phase::Copy && out == lead(st, mode) + t.subrange(p as int, t.len() as int)
        } else {
            match scan(en, 0, t.subrange(p as int, t.len() as int)) {
                Scan::Partial(r) => ph == Phase::SeekEnd(r as usize) && out == lead(st, mode)
                    + t.subrange(p as int, t.len() as int),
                Scan::Hit(j) => ph == Phase::Done && exists|cut: int|
                    p <= cut <= t.len() && cut_ok(cs, en, mode, (p + j) as int, cut) && out == lead(st, mode)
                        + #[trigger] t.subrange(p as int, cut),
            }
        },
    }
}

proof fn lemma_offset_prefix(cs: Seq<Seq<u8>>, i: int)
    requires
        0 <= i < cs.len(),
    ensures
        offset(cs, i) == offset(cs.drop_last(), i),
        offset(cs, cs.len() - 1) == joined(cs.drop_last()).len(),
{
    assert(cs.take(i) =~= cs.drop_last().take(i));
    assert(cs.take(cs.len() - 1) =~= cs.drop_last());
}

/// One more read while the start marker is still being looked for.
proof fn lemma_step_seeking(st: Seq<u8>, en: Seq<u8>, mode: RangeType, cs: Seq<Seq<u8>>, p1: Phase, o1: Seq<u8>)
    requires
        st.len() <= usize::MAX,
        en.len() <= usize::MAX,
        cs.len() > 0,
        described(st, en, mode, cs.drop_last(), p1, o1),
        start_pos(st, joined(cs.drop_last())) is None,
    ensures
        described(st, en, mode, cs, step(st, en, mode, p1, cs.last()).0, o1 + step(st, en, mode, p1, cs.last()).1),
{
    let c = cs.last();
    let t0 = joined(cs.drop_last());
    let t = joined(cs);
    assert(t == t0 + c);
    lemma_scan_concat(st, 0, t0, c);
    lemma_scan_bounds(st, 0, t0);
    let r = match scan(st, 0, t0) {
        Scan::Partial(r) => r,
        Scan::Hit(_) => 0,
    };
    assert(p1 == Phase::SeekStart(r as usize));
    lemma_scan_bounds(st, r, c);
    let o2 = step(st, en, mode, p1, c).1;
    match scan(st, r, c) {
        Scan::Partial(r2) => {
            assert(o1 + o2 =~= Seq::<u8>::empty());
        },
        Scan::Hit(j) => {
            let p = t0.len() + j;
            let rest = c.subrange(j as int, c.len() as int);
            assert(t.subrange(p as int, t.len() as int) =~= rest);
            if en.len() > 0 {
                lemma_scan_sound(en, rest);
                lemma_scan_bounds(en, 0, rest);
                match scan(en, 0, rest) {
                    Scan::Partial(r3) => {
                        assert(o1 + o2 =~= lead(st, mode) + t.subrange(p as int, t.len() as int));
                    },
                    Scan::Hit(j3) => {
                        let cutl: int = if mode.spec_includes_end() {
                            (j + j3) as int
                        } else {
                            j + j3 - en.len()
                        };
                        let cut = t0.len() + cutl;
                        assert(t.subrange(p as int, cut) =~= c.subrange(j as int, cutl));
                        assert(o1 + o2 =~= lead(st, mode) + t.subrange(p as int, cut));
                        assert(cut_ok(cs, en, mode, (p + j3) as int, cut));
                    },
                }
            } else {
                assert(o1 + o2 =~= lead(st, mode) + t.subrange(p as int, t.len() as int));
            }
        },
    }
}

/// One more read while the end marker is still being looked for.
proof fn lemma_step_emitting(st: Seq<u8>, en: Seq<u8>, mode: RangeType, cs: Seq<Seq<u8>>, p1: Phase, o1: Seq<u8>, p: nat, r: nat)
    requires
        st.len() <= usize::MAX,
        en.len() <= usize::MAX,
        cs.len() > 0,
        en.len() > 0,
        described(st, en, mode, cs.drop_last(), p1, o1),
        start_pos(st, joined(cs.drop_last())) == Some(p),
        start_pos(st, joined(cs)) == Some(p),
        p <= joined(cs.drop_last()).len(),
        scan(en, 0, joined(cs.drop_last()).subrange(p as int, joined(cs.drop_last()).len() as int)) == Scan::Partial(r),
    ensures
        described(st, en, mode, cs, step(st, en, mode, p1, cs.last()).0, o1 + step(st, en, mode, p1, cs.last()).1),
{
    let c = cs.last();
    let t0 = joined(cs.drop_last());
    let t = joined(cs);
    assert(t == t0 + c);
    let u0 = t0.subrange(p as int, t0.len() as int);
    assert(t.subrange(p as int, t.len() as int) =~= u0 + c);
    lemma_scan_concat(en, 0, u0, c);
    lemma_scan_bounds(en, 0, u0);
    assert(p1 == Phase::SeekEnd(r as usize));
    assert(c.subrange(0, c.len() as int) =~= c);
    lemma_scan_bounds(en, r, c);
    let o2 = step(st, en, mode, p1, c).1;
    match scan(en, r, c) {
        Scan::Partial(r2) => {
            assert(o1 + o2 =~= lead(st, mode) + t.subrange(p as int, t.len() as int));
        },
        Scan::Hit(j2) => {
            let q = t0.len() + j2;
            lemma_scan_sound(en, u0 + c);
            let cutl: int = if mode.spec_includes_end() {
                j2 as int
            } else if j2 - en.len() >= 0 {
                j2 - en.len()
            } else {
                0
            };
            let cut = t0.len() + cutl;
            assert(t.subrange(p as int, cut) =~= u0 + c.subrange(0, cutl));
            assert(o1 + o2 =~= lead(st, mode) + t.subrange(p as int, cut));
            lemma_offset_prefix(cs, 0);
            assert(offset(cs, cs.len() - 1) == t0.len());
            assert(cut_ok(cs, en, mode, q as int, cut));
        },
    }
}

/// One more read after the end marker was found.
proof fn lemma_step_done(st: Seq<u8>, en: Seq<u8>, mode: RangeType, cs: Seq<Seq<u8>>, p1: Phase, o1: Seq<u8>, p: nat, j: nat)
    requires
        st.len() <= usize::MAX,
        en.len() <= usize::MAX,
        cs.len() > 0,
        en.len() > 0,
        described(st, en, mode, cs.drop_last(), p1, o1),
        start_pos(st, joined(cs.drop_last())) == Some(p),
        start_pos(st, joined(cs)) == Some(p),
        p <= joined(cs.drop_last()).len(),
        scan(en, 0, joined(cs.drop_last()).subrange(p as int, joined(cs.drop_last()).len() as int)) == Scan::Hit(j),
    ensures
        described(st, en, mode, cs, step(st, en, mode, p1, cs.last()).0, o1 + step(st, en, mode, p1, cs.last()).1),
{
    let pcs = cs.drop_last();
    let c = cs.last();
    let t0 = joined(pcs);
    let t = joined(cs);
    assert(t == t0 + c);
    let u0 = t0.subrange(p as int, t0.len() as int);
    assert(t.subrange(p as int, t.len() as int) =~= u0 + c);
    lemma_scan_concat(en, 0, u0, c);
    assert(p1 == Phase::Done);
    let cut = choose|cut: int|
        p <= cut <= t0.len() && cut_ok(pcs, en, mode, (p + j) as int, cut) && o1 == lead(st, mode)
            + #[trigger] t0.subrange(p as int, cut);
    assert(t.subrange(p as int, cut) =~= t0.subrange(p as int, cut));
    assert(o1 + Seq::<u8>::empty() =~= o1);
    if !mode.spec_includes_end() && cut != p + j - en.len() {
        let i = choose|i: int| 0 <= i <= pcs.len() && #[trigger] offset(pcs, i) == cut;
        lemma_offset_prefix(cs, i);
        assert(offset(cs, i) == cut);
    }
    assert(cut_ok(cs, en, mode, (p + j) as int, cut));
}

/// Reading chunk after chunk produces what `described` tells over the input read so far.
pub proof fn lemma_run_described(st: Seq<u8>, en: Seq<u8>, mode: RangeType, cs: Seq<Seq<u8>>)
    requires
        st.len() <= usize::MAX,
        en.len() <= usize::MAX,
    ensures
        described(
            st,
            en,
            mode,
            cs,
            run_chunks(st, en, mode, initial_phase(st, en), cs).0,
            run_chunks(st, en, mode, initial_phase(st, en), cs).1,
        ),
    decreases cs.len(),
{
    let t = joined(cs);
    if cs.len() == 0 {
        assert(t.subrange(0, 0) =~= Seq::<u8>::empty());
        if st.len() == 0 {
            assert(lead(st, mode) =~= Seq::<u8>::empty());
        }
        assert(lead(st, mode) + Seq::<u8>::empty() =~= lead(st, mode));
    } else {
        let pcs = cs.drop_last();
        let c = cs.last();
        let t0 = joined(pcs);
        lemma_run_described(st, en, mode, pcs);
        let (p1, o1) = run_chunks(st, en, mode, initial_phase(st, en), pcs);
        assert(t == t0 + c);
        if st.len() > 0 {
            lemma_scan_concat(st, 0, t0, c);
            lemma_scan_bounds(st, 0, t0);
        }
        match start_pos(st, t0) {
            None => {
                lemma_step_seeking(st, en, mode, cs, p1, o1);
            },
            Some(p) => {
                assert(start_pos(st, t) == Some(p));
                if en.len() == 0 {
                    let o2 = step(st, en, mode, p1, c).1;
                    assert(t.subrange(p as int, t.len() as int) =~= t0.subrange(p as int, t0.len() as int) + c);
                    assert(o1 + o2 =~= lead(st, mode) + t.subrange(p as int, t.len() as int));
                } else {
                    match scan(en, 0, t0.subrange(p as int, t0.len() as int)) {
                        Scan::Partial(r) => {
                            lemma_step_emitting(st, en, mode, cs, p1, o1, p, r);
                        },
                        Scan::Hit(j) => {
                            lemma_step_done(st, en, mode, cs, p1, o1, p, j);
                        },
                    }
                }
            },
        }
    }
}

/// With both markers present, the output is the stretch of input that the
/// mode selects: from the start marker or just after it, to just after the end
/// marker or up to it. Leaving the end marker out is exact when no read begins
/// inside it; otherwise what an earlier read carried of it was already written.
pub proof fn lemma_bracketed(st: Seq<u8>, en: Seq<u8>, mode: RangeType, cs: Seq<Seq<u8>>, p: nat, j: nat)
    requires
        0 < st.len() <= usize::MAX,
        0 < en.len() <= usize::MAX,
        scan(st, 0, joined(cs)) == Scan::Hit(p),
        scan(en, 0, joined(cs).subrange(p as int, joined(cs).len() as int)) == Scan::Hit(j),
        mode.spec_includes_end() || !splits(cs, p + j - en.len(), (p + j) as int),
    ensures
        p + j <= joined(cs).len(),
        joined(cs).subrange(p - st.len(), p as int) == st,
        joined(cs).subrange(p + j - en.len(), (p + j) as int) == en,
        transduce(st, en, mode, cs) == joined(cs).subrange(
            if mode.spec_includes_start() { p - st.len() } else { p as int },
            if mode.spec_includes_end() { (p + j) as int } else { p + j - en.len() },
        ),
{
    let t = joined(cs);
    lemma_run_described(st, en, mode, cs);
    lemma_scan_sound(st, t);
    lemma_scan_bounds(st, 0, t);
    let u = t.subrange(p as int, t.len() as int);
    lemma_scan_sound(en, u);
    lemma_scan_bounds(en, 0, u);
    assert(t.subrange(p + j - en.len(), (p + j) as int) =~= u.subrange(j - en.len(), j as int));
    let out = transduce(st, en, mode, cs);
    let cut = choose|cut: int|
        p <= cut <= t.len() && cut_ok(cs, en, mode, (p + j) as int, cut) && out == lead(st, mode)
            + #[trigger] t.subrange(p as int, cut);
    if !mode.spec_includes_end() && cut != p + j - en.len() {
        let i = choose|i: int| 0 <= i <= cs.len() && #[trigger] offset(cs, i) == cut;
        assert(splits(cs, p + j - en.len(), (p + j) as int));
    }
    if mode.spec_includes_start() {
        assert(out =~= t.subrange(p - st.len(), cut));
    } else {
        assert(out =~= t.subrange(p as int, cut));
    }
}

/// A start marker that never completes in the input leaves the output empty.
pub proof fn lemma_start_missing(st: Seq<u8>, en: Seq<u8>, mode: RangeType, cs: Seq<Seq<u8>>)
    requires
        0 < st.len() <= usize::MAX,
        en.len() <= usize::MAX,
        scan(st, 0, joined(cs)) is Partial,
    ensures
        transduce(st, en, mode, cs) == Seq::<u8>::empty(),
{
    lemma_run_described(st, en, mode, cs);
}

/// An end marker that never completes after the start leaves everything
/// from the start on in the output.
pub proof fn lemma_end_missing(st: Seq<u8>, en: Seq<u8>, mode: RangeType, cs: Seq<Seq<u8>>, p: nat)
    requires
        st.len() <= usize::MAX,
        0 < en.len() <= usize::MAX,
        start_pos(st, joined(cs)) == Some(p),
        scan(en, 0, joined(cs).subrange(p as int, joined(cs).len() as int)) is Partial,
    ensures
        transduce(st, en, mode, cs) == lead(st, mode) + joined(cs).subrange(p as int, joined(cs).len() as int),
{
    lemma_run_described(st, en, mode, cs);
}

/// An empty end marker copies everything from the start to the end of the
/// input, whichever way the mode treats the end marker.
pub proof fn lemma_empty_end(st: Seq<u8>, mode: RangeType, cs: Seq<Seq<u8>>)
    requires
        st.len() <= usize::MAX,
    ensures
        transduce(st, Seq::empty(), mode, cs) == match start_pos(st, joined(cs)) {
            Some(p) => lead(st, mode) + joined(cs).subrange(p as int, joined(cs).len() as int),
            None => Seq::<u8>::empty(),
        },
{
    lemma_run_described(st, Seq::empty(), mode, cs);
}

/// An empty start marker starts the output at the first byte of input: the
/// output is a prefix of the input, the same whether or not the mode includes
/// the start marker.
pub proof fn lemma_empty_start(en: Seq<u8>, mode: RangeType, other: RangeType, cs: Seq<Seq<u8>>)
    requires
        en.len() <= usize::MAX,
        mode.spec_includes_end() == other.spec_includes_end(),
    ensures
        transduce(Seq::empty(), en, mode, cs) == joined(cs).take(transduce(Seq::empty(), en, mode, cs).len() as int),
        transduce(Seq::empty(), en, mode, cs) == transduce(Seq::empty(), en, other, cs),
{
    let st = Seq::<u8>::empty();
    let t = joined(cs);
    lemma_run_described(st, en, mode, cs);
    lemma_runs_agree(en, mode, other, initial_phase(st, en), cs);
    assert(lead(st, mode) =~= st);
    let out = transduce(st, en, mode, cs);
    if en.len() == 0 {
        assert(out =~= t.take(out.len() as int));
    } else {
        match scan(en, 0, t.subrange(0, t.len() as int)) {
            Scan::Partial(_) => {
                assert(out =~= t.take(out.len() as int));
            },
            Scan::Hit(j) => {
                let cut = choose|cut: int|
                    0 <= cut <= t.len() && cut_ok(cs, en, mode, j as int, cut) && out == lead(st, mode)
                        + #[trigger] t.subrange(0, cut);
                assert(out =~= t.take(out.len() as int));
            },
        }
    }
}

proof fn lemma_runs_agree(en: Seq<u8>, mode: RangeType, other: RangeType, ph: Phase, cs: Seq<Seq<u8>>)
    requires
        mode.spec_includes_end() == other.spec_includes_end(),
    ensures
        run_chunks(Seq::empty(), en, mode, ph, cs) == run_chunks(Seq::empty(), en, other, ph, cs),
    decreases cs.len(),
{
    if cs.len() > 0 {
        lemma_runs_agree(en, mode, other, ph, cs.drop_last());
    }
}

/// Where a read boundary falls does not change the output when the mode
/// includes the end marker: the match state carries over from read to read.
pub proof fn lemma_reads_do_not_matter(st: Seq<u8>, en: Seq<u8>, mode: RangeType, cs: Seq<Seq<u8>>, ds: Seq<Seq<u8>>)
    requires
        st.len() <= usize::MAX,
        en.len() <= usize::MAX,
        mode.spec_includes_end(),
        joined(cs) == joined(ds),
    ensures
        transduce(st, en, mode, cs) == transduce(st, en, mode, ds),
{
    lemma_run_described(st, en, mode, cs);
    lemma_run_described(st, en, mode, ds);
}

/// Two runs with the same markers and mode over the same reads end in the
/// same phase and write the same bytes; for a mode that includes the end
/// marker this holds even when the reads are cut differently.
pub proof fn lemma_deterministic(st: Seq<u8>, en: Seq<u8>, mode: RangeType, cs: Seq<Seq<u8>>, ds: Seq<Seq<u8>>)
    requires
        st.len() <= usize::MAX,
        en.len() <= usize::MAX,
        joined(cs) == joined(ds),
    ensures
        cs == ds ==> run_chunks(st, en, mode, initial_phase(st, en), cs) == run_chunks(
            st,
            en,
            mode,
            initial_phase(st, en),
            ds,
        ),
        mode.spec_includes_end() ==> transduce(st, en, mode, cs) == transduce(st, en, mode, ds),
{
    if mode.spec_includes_end() {
        lemma_reads_do_not_matter(st, en, mode, cs, ds);
    }
}

} // verus!
