//! The chunked streaming search: it looks at the source one bounded window at a time, and
//! lets consecutive windows overlap so that no occurrence that straddles two of them is
//! missed.
//!
//! The search itself never reads.  A [`Scanner`] says which bytes it wants next and is fed
//! what was read there; whoever owns the source runs that loop.

use vstd::prelude::*;
use crate::matcher::{as_ints, Matcher};
use crate::literal::{
    ascending, lemma_occurs_in_window, lemma_successive_complete, lemma_successive_sound,
    lemma_successive_spaced, occurs_at, shifted, successive, unshadowed,
};

verus! {

/// The number of bytes asked for in one read.
pub const CHUNK_SIZE: usize = 1024;

/// How many occurrences a search is after.
#[derive(Clone, Copy, Debug, PartialEq, Eq, Structural)]
pub enum Mode {
    /// Stop at the first occurrence.
    First,
    /// Report every occurrence found.
    All,
}

/// Where the window that starts at `at` ends in a source of `len` bytes: a full chunk
/// further, or at the end of the source when that comes first.
pub open spec fn window_end(len: int, at: int) -> int {
    if at + CHUNK_SIZE <= len {
        at + CHUNK_SIZE
    } else {
        len
    }
}

/// The bytes that a read at `at` returns: the window that starts there.
pub open spec fn window(data: Seq<u8>, at: int) -> Seq<u8> {
    data.subrange(at, window_end(data.len() as int, at))
}

/// The offsets that the search reports when it starts a window at `at` and goes on to the
/// end of `data`: the successive occurrences within that window, then those of the window
/// that starts `pat.len() - 1` bytes before this one's end, and so on while a window is at
/// least as long as the pattern.
pub open spec fn windowed(data: Seq<u8>, pat: Seq<u8>, at: int) -> Seq<int>
    decreases data.len() - at,
{
    let end = window_end(data.len() as int, at);
    if at < 0 || pat.len() == 0 || end - at < pat.len() {
        Seq::empty()
    } else {
        shifted(successive(window(data, at), pat, 0), at) + windowed(
            data,
            pat,
            end - pat.len() + 1,
        )
    }
}

/// The offsets that a search for every occurrence of `pat` reports on the source `data`.
pub open spec fn chunked_matches(data: Seq<u8>, pat: Seq<u8>) -> Seq<int> {
    windowed(data, pat, 0)
}

/// The offsets that a search reports in the given mode: all of them, or only the first.
pub open spec fn reported(data: Seq<u8>, pat: Seq<u8>, mode: Mode) -> Seq<int> {
    match mode {
        Mode::All => chunked_matches(data, pat),
        Mode::First => chunked_matches(data, pat).take(
            if chunked_matches(data, pat).len() > 0 {
                1
            } else {
                0
            },
        ),
    }
}

/// Every offset reported from `at` on is an occurrence that starts at or after `at`, and
/// the offsets ascend.
pub proof fn lemma_windowed_sound(data: Seq<u8>, pat: Seq<u8>, at: int)
    ensures
        forall|i: int|
            0 <= i < windowed(data, pat, at).len() ==> at <= #[trigger] windowed(data, pat, at)[i]
                && occurs_at(data, pat, windowed(data, pat, at)[i]),
        ascending(windowed(data, pat, at)),
    decreases data.len() - at,
{
    let len = data.len() as int;
    let end = window_end(len, at);
    let k = pat.len() as int;
    if at < 0 || k == 0 || end - at < k {
    } else {
        let next = end - k + 1;
        let here = successive(window(data, at), pat, 0);
        let head = shifted(here, at);
        let tail = windowed(data, pat, next);
        let all = windowed(data, pat, at);
        assert(all == head + tail);
        lemma_windowed_sound(data, pat, next);
        lemma_successive_sound(window(data, at), pat, 0);
        lemma_successive_spaced(window(data, at), pat, 0);
        assert forall|i: int| 0 <= i < head.len() implies at <= #[trigger] head[i] && head[i] + k
            <= end && occurs_at(data, pat, head[i]) by {
            assert(head[i] == here[i] + at);
            lemma_occurs_in_window(data, pat, at, end, here[i]);
        }
        assert forall|i: int| 0 <= i < all.len() implies at <= #[trigger] all[i] && occurs_at(
            data,
            pat,
            all[i],
        ) by {
            if i < head.len() {
                assert(all[i] == head[i]);
            } else {
                assert(all[i] == tail[i - head.len()]);
            }
        }
        assert forall|i: int, j: int| 0 <= i < j < all.len() implies all[i] < all[j] by {
            if j < head.len() {
                assert(all[i] == head[i] && all[j] == head[j]);
                assert(here[i] < here[j]);
            } else if i < head.len() {
                assert(all[i] == head[i]);
                assert(all[j] == tail[j - head.len()]);
            } else {
                assert(all[i] == tail[i - head.len()]);
                assert(all[j] == tail[j - head.len()]);
            }
        }
    }
}

/// An occurrence at or after `at` that no earlier occurrence reaches into is reported,
/// wherever the windows fall.
pub proof fn lemma_windowed_complete(data: Seq<u8>, pat: Seq<u8>, at: int, p: int)
    requires
        0 < pat.len() <= CHUNK_SIZE,
        0 <= at <= p,
        occurs_at(data, pat, p),
        unshadowed(data, pat, 0, p),
    ensures
        windowed(data, pat, at).contains(p),
    decreases data.len() - at,
{
    let len = data.len() as int;
    let end = window_end(len, at);
    let k = pat.len() as int;
    let here = successive(window(data, at), pat, 0);
    let head = shifted(here, at);
    let next = end - k + 1;
    let tail = windowed(data, pat, next);
    let all = windowed(data, pat, at);
    if p + k <= end {
        assert(all == head + tail);
        let w = window(data, at);
        lemma_occurs_in_window(data, pat, at, end, p - at);
        assert forall|q: int| 0 <= q < p - at && p - at < q + k implies !occurs_at(w, pat, q) by {
            lemma_occurs_in_window(data, pat, at, end, q);
            assert(!occurs_at(data, pat, at + q));
        }
        lemma_successive_complete(w, pat, 0, p - at);
        let i = choose|i: int| 0 <= i < here.len() && here[i] == p - at;
        assert(head[i] == p);
        assert(all[i] == p);
    } else {
        assert(end == at + CHUNK_SIZE);
        assert(all == head + tail);
        lemma_windowed_complete(data, pat, next, p);
        let j = choose|j: int| 0 <= j < tail.len() && tail[j] == p;
        assert(all[head.len() + j] == p);
    }
}

/// Nothing is reported from a place where fewer bytes are left than the pattern has.
pub proof fn lemma_windowed_short(data: Seq<u8>, pat: Seq<u8>, at: int)
    requires
        data.len() - at < pat.len() || pat.len() > CHUNK_SIZE,
    ensures
        windowed(data, pat, at) =~= Seq::empty(),
{
}

/// What a scan has done so far, as plain mathematical values.
pub struct ScanState {
    /// The bytes looked for.
    pub pattern: Seq<u8>,
    /// The length of the source.
    pub source_len: int,
    /// Whether the scan stops at the first occurrence.
    pub mode: Mode,
    /// Where the next read starts.
    pub cursor: int,
    /// Every start before this offset has been examined.
    pub frontier: int,
    /// Whether the last bytes of the source have been asked for again after a short read.
    pub tail_tried: bool,
    /// Whether the scan is over.
    pub finished: bool,
    /// The offsets reported so far.
    pub found: Seq<int>,
}

/// The state of a scan before its first read.
pub open spec fn start_state(pattern: Seq<u8>, source_len: int, mode: Mode) -> ScanState {
    ScanState {
        pattern,
        source_len,
        mode,
        cursor: 0,
        frontier: 0,
        tail_tried: false,
        finished: false,
        found: Seq::empty(),
    }
}

/// The offsets among `hits` whose start has not been examined before.
pub open spec fn fresh(hits: Seq<int>, frontier: int) -> Seq<int> {
    hits.filter(|o: int| o >= frontier)
}

/// The state after the scan in state `s` is fed `chunk`, the bytes read at its cursor.
///
/// An empty chunk ends the scan.  A chunk shorter than the pattern cannot hold a new
/// occurrence: once, the scan moves to the last `pattern.len()` bytes of the source and
/// reads again; after that, or when the source is shorter than the pattern, it ends.
/// Any other chunk is searched, the occurrences with an unexamined start are reported, and
/// the cursor moves to `pattern.len() - 1` bytes before the chunk's end; in the mode that
/// wants one offset, the first one reported ends the scan.
pub open spec fn step(s: ScanState, chunk: Seq<u8>) -> ScanState {
    let n = chunk.len() as int;
    let k = s.pattern.len() as int;
    if s.finished {
        s
    } else if n == 0 {
        ScanState { finished: true, ..s }
    } else if n < k {
        if s.tail_tried || s.source_len < k {
            ScanState { finished: true, ..s }
        } else {
            ScanState { cursor: s.source_len - k, tail_tried: true, ..s }
        }
    } else {
        let hits = fresh(shifted(successive(chunk, s.pattern, 0), s.cursor), s.frontier);
        if s.mode == Mode::First && hits.len() > 0 {
            ScanState { found: s.found.push(hits[0]), finished: true, ..s }
        } else {
            let next = s.cursor + n - k + 1;
            ScanState {
                found: s.found + hits,
                cursor: next,
                frontier: if s.frontier < next {
                    next
                } else {
                    s.frontier
                },
                ..s
            }
        }
    }
}

/// Keeping the fresh offsets one hit at a time.
pub proof fn lemma_fresh_push(hits: Seq<int>, o: int, frontier: int)
    ensures
        fresh(hits.push(o), frontier) == if o >= frontier {
            fresh(hits, frontier).push(o)
        } else {
            fresh(hits, frontier)
        },
        fresh(Seq::<int>::empty(), frontier) == Seq::<int>::empty(),
{
    reveal(Seq::filter);
    assert(hits.push(o).drop_last() =~= hits);
}

/// Offsets that all lie at or after the frontier are all fresh; offsets that all lie
/// before it are all stale.
pub proof fn lemma_fresh_all_or_none(hits: Seq<int>, frontier: int)
    ensures
        (forall|i: int| 0 <= i < hits.len() ==> hits[i] >= frontier) ==> fresh(hits, frontier)
            == hits,
        (forall|i: int| 0 <= i < hits.len() ==> hits[i] < frontier) ==> fresh(hits, frontier)
            == Seq::<int>::empty(),
    decreases hits.len(),
{
    reveal(Seq::filter);
    if hits.len() > 0 {
        lemma_fresh_all_or_none(hits.drop_last(), frontier);
        assert(hits.drop_last().push(hits.last()) =~= hits);
    } else {
        assert(hits =~= Seq::<int>::empty());
    }
}

/// The offsets of a scan as mathematical integers.
pub open spec fn offsets_of(found: Seq<u64>) -> Seq<int> {
    Seq::new(found.len(), |i: int| found[i] as int)
}

/// What the owner of the source is to do next.
#[derive(Clone, Copy, Debug, PartialEq, Eq, Structural)]
pub enum Step {
    /// Read up to `len` bytes at `offset` and feed them to the scanner; fewer bytes, or
    /// none, are to be fed only where the source ends.
    Read { offset: u64, len: usize },
    /// The scan is over.
    Finished,
}

/// A scan in progress over a source of known length.
pub struct Scanner {
    matcher: Matcher,
    source_len: u64,
    mode: Mode,
    cursor: u64,
    frontier: u64,
    tail_tried: bool,
    finished: bool,
    found: Vec<u64>,
}

impl View for Scanner {
    type V = ScanState;

    closed spec fn view(&self) -> ScanState {
        ScanState {
            pattern: self.matcher@,
            source_len: self.source_len as int,
            mode: self.mode,
            cursor: self.cursor as int,
            frontier: self.frontier as int,
            tail_tried: self.tail_tried,
            finished: self.finished,
            found: offsets_of(self.found@),
        }
    }
}

impl Scanner {
    #[verifier::type_invariant]
    spec fn well_formed(self) -> bool {
        &&& self.cursor <= self.source_len
        &&& self.frontier <= self.source_len
    }

    /// Starts a scan for the pattern of `matcher` over a source of `source_len` bytes.
    pub fn new(matcher: Matcher, source_len: u64, mode: Mode) -> (scanner: Scanner)
        ensures
            scanner@ == start_state(matcher@, source_len as int, mode),
    {
        let scanner = Scanner {
            matcher,
            source_len,
            mode,
            cursor: 0,
            frontier: 0,
            tail_tried: false,
            finished: false,
            found: Vec::new(),
        };
        proof {
            assert(offsets_of(scanner.found@) =~= Seq::<int>::empty());
        }
        scanner
    }

    /// Says what to read next, or that the scan is over.
    pub fn next_step(&self) -> (next: Step)
        ensures
            next == if self@.finished {
                Step::Finished
            } else {
                Step::Read { offset: self@.cursor as u64, len: CHUNK_SIZE }
            },
            0 <= self@.cursor <= self@.source_len <= u64::MAX,
    {
        proof {
            use_type_invariant(self);
        }
        if self.finished {
            Step::Finished
        } else {
            Step::Read { offset: self.cursor, len: CHUNK_SIZE }
        }
    }

    /// Takes `chunk`, the bytes that were read at the cursor, and moves the scan on.
    ///
    /// The chunk must lie within the source.  A scan that is over stays as it is.
    pub fn feed(&mut self, chunk: &[u8])
        requires
            old(self)@.finished || old(self)@.cursor + chunk@.len() <= old(self)@.source_len,
        ensures
            final(self)@ == step(old(self)@, chunk@),
    {
        proof {
            use_type_invariant(&*self);
        }
        let ghost before = self@;
        let n: usize = chunk.len();
        let k: usize = self.matcher.len();
        if self.finished {
            return ;
        }
        if n == 0 {
            self.finished = true;
            return ;
        }
        if n < k {
            if self.tail_tried || self.source_len < k as u64 {
                self.finished = true;
            } else {
                self.cursor = self.source_len - k as u64;
                self.tail_tried = true;
            }
            return ;
        }
        let hits = self.matcher.find_in(chunk);
        let cursor: u64 = self.cursor;
        let frontier: u64 = self.frontier;
        let first_only: bool = self.mode == Mode::First;
        let ghost in_chunk = successive(chunk@, before.pattern, 0);
        let ghost all_hits = shifted(in_chunk, cursor as int);
        proof {
            lemma_successive_sound(chunk@, before.pattern, 0);
            lemma_fresh_push(Seq::<int>::empty(), 0, frontier as int);
            assert(all_hits.take(0) =~= Seq::<int>::empty());
            assert(before.found + Seq::<int>::empty() =~= before.found);
        }
        let mut found: Vec<u64> = Vec::new();
        core::mem::swap(&mut self.found, &mut found);
        let mut stopped: bool = false;
        let mut i: usize = 0;
        while i < hits.len() && !stopped
            invariant
                i <= hits.len(),
                as_ints(hits@) == in_chunk,
                all_hits == shifted(in_chunk, cursor as int),
                cursor + n <= u64::MAX,
                forall|j: int|
                    0 <= j < in_chunk.len() ==> 0 <= #[trigger] in_chunk[j] && in_chunk[j] + k
                        <= n,
                !stopped ==> offsets_of(found@) == before.found + fresh(
                    all_hits.take(i as int),
                    frontier as int,
                ),
                !stopped && first_only ==> fresh(all_hits.take(i as int), frontier as int).len()
                    == 0,
                stopped ==> first_only && fresh(all_hits, frontier as int).len() > 0
                    && offsets_of(found@) == before.found.push(
                    fresh(all_hits, frontier as int)[0],
                ),
            decreases hits.len() - i, if stopped { 0int } else { 1int },
        {
            let ghost seen = fresh(all_hits.take(i as int), frontier as int);
            let ghost old_found = found@;
            assert(as_ints(hits@)[i as int] == in_chunk[i as int]);
            let at: u64 = cursor + hits[i] as u64;
            proof {
                assert(all_hits[i as int] == at);
                assert(all_hits.take(i + 1) =~= all_hits.take(i as int).push(at as int));
                lemma_fresh_push(all_hits.take(i as int), at as int, frontier as int);
            }
            if at >= frontier {
                found.push(at);
                proof {
                    assert(offsets_of(found@) =~= offsets_of(old_found).push(at as int));
                    assert(before.found + seen.push(at as int) =~= (before.found + seen).push(
                        at as int,
                    ));
                }
                if first_only {
                    stopped = true;
                    proof {
                        assert(seen =~= Seq::<int>::empty());
                        let rest = all_hits.skip(i + 1);
                        assert(all_hits =~= all_hits.take(i + 1) + rest);
                        Seq::<int>::filter_distributes_over_add(
                            all_hits.take(i + 1),
                            rest,
                            |o: int| o >= frontier as int,
                        );
                        assert(fresh(all_hits.take(i + 1), frontier as int) =~= seq![at as int]);
                        assert(fresh(all_hits, frontier as int)[0] == at);
                    }
                }
            }
            i = i + 1;
        }
        core::mem::swap(&mut self.found, &mut found);
        if stopped {
            self.finished = true;
            return ;
        }
        proof {
            assert(all_hits.take(hits.len() as int) =~= all_hits);
        }
        let next: u64 = cursor + (n - k) as u64 + 1;
        self.cursor = next;
        if self.frontier < next {
            self.frontier = next;
        }
    }

    /// The offsets reported so far, in the order in which they were found.
    pub fn offsets(&self) -> (found: &Vec<u64>)
        ensures
            offsets_of(found@) == self@.found,
    {
        &self.found
    }

    /// Ends the scan and hands out the offsets reported.
    pub fn into_offsets(self) -> (found: Vec<u64>)
        ensures
            offsets_of(found@) == self@.found,
    {
        self.found
    }
}

} // verus!
