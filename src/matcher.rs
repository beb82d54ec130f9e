use vstd::prelude::*;

verus! {

/// Result of scanning bytes for a marker with the reset-on-mismatch counter.
pub enum Scan {
    /// The marker completed; the position one past its last byte.
    Hit(nat),
    /// The marker did not complete; the progress counter after the last byte.
    Partial(nat),
}

/// Feeds the bytes of `s` one at a time, starting with progress `k`.
/// A matching byte advances the counter; any other byte resets it to zero
/// without being compared with the marker's first byte again.
pub open spec fn scan(m: Seq<u8>, k: nat, s: Seq<u8>) -> Scan
    decreases s.len(),
{
    if s.len() == 0 {
        Scan::Partial(k)
    } else {
        match scan(m, k, s.drop_last()) {
            Scan::Hit(j) => Scan::Hit(j),
            Scan::Partial(r) => if s.last() == m[r as int] {
                if r + 1 == m.len() {
                    Scan::Hit(s.len())
                } else {
                    Scan::Partial(r + 1)
                }
            } else {
                Scan::Partial(0)
            },
        }
    }
}

/// Scanning a concatenation is scanning the first part, then the second from
/// wherever the first left the counter.
pub open spec fn scan_then(m: Seq<u8>, k: nat, a: Seq<u8>, b: Seq<u8>) -> Scan {
    match scan(m, k, a) {
        Scan::Hit(j) => Scan::Hit(j),
        Scan::Partial(r) => match scan(m, r, b) {
            Scan::Hit(j) => Scan::Hit(a.len() + j),
            Scan::Partial(r2) => Scan::Partial(r2),
        },
    }
}

/// The counter stays below the marker's length, and a hit lies inside the input.
pub proof fn lemma_scan_bounds(m: Seq<u8>, k: nat, s: Seq<u8>)
    requires
        k < m.len(),
    ensures
        match scan(m, k, s) {
            Scan::Hit(j) => 1 <= j <= s.len(),
            Scan::Partial(r) => r < m.len(),
        },
    decreases s.len(),
{
    if s.len() > 0 {
        lemma_scan_bounds(m, k, s.drop_last());
    }
}

/// Splitting the input between two reads does not change what the scan finds.
pub proof fn lemma_scan_concat(m: Seq<u8>, k: nat, a: Seq<u8>, b: Seq<u8>)
    requires
        k < m.len(),
    ensures
        scan(m, k, a + b) == scan_then(m, k, a, b),
    decreases b.len(),
{
    lemma_scan_bounds(m, k, a);
    if b.len() == 0 {
        assert(a + b =~= a);
    } else {
        lemma_scan_concat(m, k, a, b.drop_last());
        assert((a + b).drop_last() =~= a + b.drop_last());
        if let Scan::Partial(r) = scan(m, k, a) {
            lemma_scan_bounds(m, r, b.drop_last());
        }
    }
}

/// A hit ends a complete occurrence of the marker when the scan starts from zero.
pub proof fn lemma_scan_sound(m: Seq<u8>, s: Seq<u8>)
    requires
        0 < m.len(),
    ensures
        match scan(m, 0, s) {
            Scan::Hit(j) => m.len() <= j && s.subrange(j - m.len(), j as int) == m,
            Scan::Partial(r) => r <= s.len() && s.subrange(s.len() - r, s.len() as int)
                == m.subrange(0, r as int),
        },
    decreases s.len(),
{
    if s.len() > 0 {
        let p = s.drop_last();
        lemma_scan_sound(m, p);
        lemma_scan_bounds(m, 0, p);
        match scan(m, 0, p) {
            Scan::Hit(j) => {
                assert(s.subrange(j - m.len(), j as int) =~= p.subrange(j - m.len(), j as int));
            },
            Scan::Partial(r) => {
                if s.last() == m[r as int] {
                    assert(s.subrange(s.len() - (r + 1) as int, s.len() as int) =~= p.subrange(
                        p.len() - r,
                        p.len() as int,
                    ).push(s.last()));
                    assert(m.subrange(0, r + 1 as int) =~= m.subrange(0, r as int).push(m[r as int]));
                } else {
                    assert(s.subrange(s.len() as int, s.len() as int) =~= m.subrange(0, 0));
                }
            },
        }
    }
}

/// Scans `chunk[from..]` for `m`, continuing from progress `k`.
/// A hit is reported as a position in `chunk`.
pub fn scan_from(m: &[u8], k: usize, chunk: &[u8], from: usize) -> (r: (bool, usize))
    requires
        k < m@.len(),
        from <= chunk@.len(),
    ensures
        match scan(m@, k as nat, chunk@.subrange(from as int, chunk@.len() as int)) {
            Scan::Hit(j) => r.0 && r.1 == from + j,
            Scan::Partial(p) => !r.0 && r.1 == p,
        },
{
    let ghost s = chunk@.subrange(from as int, chunk@.len() as int);
    let mut counter: usize = k;
    let mut i: usize = from;
    while i < chunk.len()
        invariant
            from <= i <= chunk@.len(),
            k < m@.len(),
            s == chunk@.subrange(from as int, chunk@.len() as int),
            scan(m@, k as nat, s.take(i - from)) == Scan::Partial(counter as nat),
            counter < m@.len(),
        decreases chunk@.len() - i,
    {
        let ghost t = s.take(i + 1 - from);
        assert(t.drop_last() =~= s.take(i - from));
        assert(t.last() == chunk@[i as int]);
        if chunk[i] == m[counter] {
            counter = counter + 1;
            if counter == m.len() {
                proof {
                    lemma_scan_concat(m@, k as nat, t, s.skip(i + 1 - from));
                    assert(t + s.skip(i + 1 - from) =~= s);
                }
                return (true, i + 1);
            }
        } else {
            counter = 0;
        }
        i = i + 1;
    }
    assert(s.take(i - from) =~= s);
    (false, counter)
}

/// Looks for the start marker in one chunk, continuing from progress `k`
/// carried over from earlier chunks.
pub fn find_start(start: &[u8], k: usize, chunk: &[u8]) -> (r: (bool, usize))
    requires
        k < start@.len(),
    ensures
        match scan(start@, k as nat, chunk@) {
            Scan::Hit(j) => r.0 && r.1 == j,
            Scan::Partial(p) => !r.0 && r.1 == p,
        },
{
    assert(chunk@.subrange(0, chunk@.len() as int) =~= chunk@);
    scan_from(start, k, chunk, 0)
}

} // verus!
