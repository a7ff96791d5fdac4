//! Running a scan to its end: what any faithful run of the scanner reports, and the run
//! over bytes that are already in memory.

use vstd::prelude::*;
use vstd::slice::slice_subrange;
use crate::guarantees::{lemma_occurrence_is_reported, lemma_reported_are_occurrences};
use crate::literal::{
    ascending, lemma_successive_sound, occurs_at, shifted, successive, unshadowed,
};
use crate::matcher::{engine_accepts, escaped, Matcher, SearchError};
use crate::pattern::Pattern;
use crate::scanner::{
    chunked_matches, lemma_fresh_all_or_none, offsets_of, reported, start_state, step,
    window, window_end, windowed, Mode, ScanState, Scanner, Step, CHUNK_SIZE,
};

verus! {

/// The cursor and the frontier lie within the source, and there is something to look for.
pub open spec fn in_range(s: ScanState) -> bool {
    &&& 0 <= s.cursor <= s.source_len
    &&& 0 <= s.frontier <= s.source_len
    &&& s.pattern.len() > 0
}

/// A bound on the number of reads that a scan still has before it.
pub open spec fn reads_left(s: ScanState) -> int {
    if s.finished {
        0
    } else {
        1 + (s.source_len - s.cursor) + if s.tail_tried {
            0
        } else {
            s.source_len + 2
        }
    }
}

/// Each faithful read brings the scan closer to its end and keeps it within the source.
pub proof fn lemma_step_progress(s: ScanState, data: Seq<u8>)
    requires
        in_range(s),
        !s.finished,
        s.source_len == data.len(),
    ensures
        in_range(step(s, window(data, s.cursor))),
        step(s, window(data, s.cursor)).source_len == s.source_len,
        step(s, window(data, s.cursor)).pattern == s.pattern,
        step(s, window(data, s.cursor)).mode == s.mode,
        0 <= reads_left(step(s, window(data, s.cursor))) < reads_left(s),
{
}

/// The state in which a scan ends when every read returns the bytes of `data` at the
/// cursor, a full chunk of them or as many as are left.
pub open spec fn run(s: ScanState, data: Seq<u8>) -> ScanState
    decreases reads_left(s),
{
    if s.finished || !in_range(s) || s.source_len != data.len() {
        s
    } else {
        run(step(s, window(data, s.cursor)), data)
    }
}

/// The offsets that a scan adds when it goes on from a window boundary at `at`.
pub open spec fn still_to_report(data: Seq<u8>, pat: Seq<u8>, mode: Mode, at: int) -> Seq<int> {
    match mode {
        Mode::All => windowed(data, pat, at),
        Mode::First => windowed(data, pat, at).take(
            if windowed(data, pat, at).len() > 0 {
                1
            } else {
                0
            },
        ),
    }
}

/// A scan that has only moved from window to window so far ends, and by then it has
/// reported what the windows from its cursor on hold and nothing else.  The second look at
/// the last bytes of the source, after a short read, adds no offset: every start in them
/// was examined before.
pub proof fn lemma_run_reports(s: ScanState, data: Seq<u8>)
    requires
        in_range(s),
        !s.finished,
        !s.tail_tried,
        s.frontier == s.cursor,
        s.source_len == data.len(),
    ensures
        run(s, data).finished,
        run(s, data).found == s.found + still_to_report(data, s.pattern, s.mode, s.cursor),
    decreases data.len() - s.cursor,
{
    let len = data.len() as int;
    let k = s.pattern.len() as int;
    let pat = s.pattern;
    let at = s.cursor;
    let chunk = window(data, at);
    let n = chunk.len() as int;
    let s1 = step(s, chunk);
    assert(run(s, data) == run(s1, data));
    if n == 0 {
        assert(s.found + still_to_report(data, pat, s.mode, at) =~= s.found);
    } else if n < k {
        assert(s.found + still_to_report(data, pat, s.mode, at) =~= s.found);
        if s.source_len >= k {
            let chunk1 = window(data, s1.cursor);
            let s2 = step(s1, chunk1);
            assert(run(s1, data) == run(s2, data));
            if k <= CHUNK_SIZE {
                let here = successive(chunk1, pat, 0);
                let hits = shifted(here, s1.cursor);
                lemma_successive_sound(chunk1, pat, 0);
                assert forall|i: int| 0 <= i < hits.len() implies hits[i] < s1.frontier by {
                    assert(hits[i] == here[i] + s1.cursor);
                }
                lemma_fresh_all_or_none(hits, s1.frontier);
                assert(s2.found =~= s.found);
                let chunk2 = window(data, s2.cursor);
                let s3 = step(s2, chunk2);
                assert(run(s2, data) == run(s3, data));
                assert(s3.finished);
            }
        }
    } else {
        let end = window_end(len, at);
        let here = successive(chunk, pat, 0);
        let hits = shifted(here, at);
        let next = end - k + 1;
        lemma_successive_sound(chunk, pat, 0);
        assert forall|i: int| 0 <= i < hits.len() implies hits[i] >= s.frontier by {
            assert(hits[i] == here[i] + at);
        }
        lemma_fresh_all_or_none(hits, s.frontier);
        assert(windowed(data, pat, at) == hits + windowed(data, pat, next));
        if s.mode == Mode::First && hits.len() > 0 {
            assert(still_to_report(data, pat, s.mode, at) =~= seq![hits[0]]);
            assert(s1.found =~= s.found + seq![hits[0]]);
        } else {
            lemma_run_reports(s1, data);
            if s.mode == Mode::First {
                assert(windowed(data, pat, at) =~= windowed(data, pat, next));
                assert(s1.found =~= s.found);
            } else {
                assert(s.found + hits + windowed(data, pat, next) =~= s.found + (hits + windowed(
                    data,
                    pat,
                    next,
                )));
            }
        }
    }
}

/// Any run of the scanner in which each read returns the bytes of the source at the
/// cursor reports exactly the offsets of [`reported`].
pub proof fn lemma_faithful_run(data: Seq<u8>, pat: Seq<u8>, mode: Mode)
    requires
        pat.len() > 0,
    ensures
        run(start_state(pat, data.len() as int, mode), data).finished,
        run(start_state(pat, data.len() as int, mode), data).found == reported(data, pat, mode),
{
    let s = start_state(pat, data.len() as int, mode);
    lemma_run_reports(s, data);
    assert(s.found + still_to_report(data, pat, mode, 0) =~= reported(data, pat, mode));
}

/// Scans `data` for the pattern of `matcher`, window by window, and returns the offsets
/// found: all of them, or only the first, as `mode` says.
pub fn scan(matcher: Matcher, data: &[u8], mode: Mode) -> (found: Vec<u64>)
    ensures
        offsets_of(found@) == reported(data@, matcher@, mode),
{
    let ghost pat = matcher@;
    let _k: usize = matcher.len();
    let mut scanner = Scanner::new(matcher, data.len() as u64, mode);
    let ghost start = scanner@;
    proof {
        lemma_faithful_run(data@, pat, mode);
    }
    loop
        invariant
            in_range(scanner@),
            scanner@.source_len == data@.len(),
            run(scanner@, data@) == run(start, data@),
        ensures
            scanner@.finished,
            run(scanner@, data@) == run(start, data@),
        decreases reads_left(scanner@),
    {
        match scanner.next_step() {
            Step::Finished => {
                break ;
            },
            Step::Read { offset, len } => {
                let from: usize = offset as usize;
                let to: usize = if data.len() - from >= len {
                    from + len
                } else {
                    data.len()
                };
                let chunk = slice_subrange(data, from, to);
                proof {
                    lemma_step_progress(scanner@, data@);
                    assert(chunk@ == window(data@, scanner@.cursor));
                }
                scanner.feed(chunk);
            },
        }
    }
    scanner.into_offsets()
}

/// Searches `data` for every occurrence of `pattern` that the chunked scan reports.
///
/// The offsets come back in ascending order and each is a place where the pattern occurs
/// in full; an occurrence that no earlier occurrence reaches into is always among them,
/// if the pattern fits in one chunk.  `InvalidPattern` is returned exactly when the engine
/// does not accept the escaped form of the pattern, whatever the source holds; otherwise a
/// source without a reported occurrence gives `NotFound`, and any other source gives its
/// offsets.
pub fn search_regex(data: &[u8], pattern: &Pattern) -> (result: Result<Vec<u64>, SearchError>)
    ensures
        result is Ok <==> engine_accepts(escaped(pattern@)) && chunked_matches(
            data@,
            pattern@,
        ).len() > 0,
        (result matches Err(e) && e == SearchError::InvalidPattern) <==> !engine_accepts(
            escaped(pattern@),
        ),
        (result matches Err(e) && e == SearchError::NotFound) <==> engine_accepts(
            escaped(pattern@),
        ) && chunked_matches(data@, pattern@).len() == 0,
        match result {
            Ok(found) => {
                &&& found@.len() > 0
                &&& offsets_of(found@) == chunked_matches(data@, pattern@)
                &&& ascending(offsets_of(found@))
                &&& forall|i: int|
                    0 <= i < found@.len() ==> occurs_at(data@, pattern@, #[trigger] found@[i] as int)
                &&& forall|p: int|
                    pattern@.len() <= CHUNK_SIZE && occurs_at(data@, pattern@, p) && unshadowed(
                        data@,
                        pattern@,
                        0,
                        p,
                    ) ==> offsets_of(found@).contains(p)
            },
            Err(_) => true,
        },
{
    match Matcher::new(pattern) {
        Err(_) => Err(SearchError::InvalidPattern),
        Ok(matcher) => {
            let found = scan(matcher, data, Mode::All);
            if found.len() == 0 {
                Err(SearchError::NotFound)
            } else {
                proof {
                    lemma_reported_are_occurrences(data@, pattern@);
                    assert forall|i: int| 0 <= i < found@.len() implies occurs_at(
                        data@,
                        pattern@,
                        #[trigger] found@[i] as int,
                    ) by {
                        assert(offsets_of(found@)[i] == found@[i] as int);
                    }
                    assert forall|p: int|
                        pattern@.len() <= CHUNK_SIZE && occurs_at(data@, pattern@, p)
                            && unshadowed(data@, pattern@, 0, p) implies offsets_of(
                        found@,
                    ).contains(p) by {
                        if pattern@.len() > 0 {
                            lemma_occurrence_is_reported(data@, pattern@, p);
                        }
                    }
                }
                Ok(found)
            }
        },
    }
}

/// Searches `data` for `pattern` and stops at the first occurrence reported.
///
/// `InvalidPattern` is returned exactly when the engine does not accept the escaped form
/// of the pattern, whatever the source holds.  Otherwise the offset returned is the first
/// of those that [`search_regex`] would return, and `NotFound` says that there is none.
pub fn search_first(data: &[u8], pattern: &Pattern) -> (result: Result<u64, SearchError>)
    ensures
        result is Ok <==> engine_accepts(escaped(pattern@)) && chunked_matches(
            data@,
            pattern@,
        ).len() > 0,
        (result matches Err(e) && e == SearchError::InvalidPattern) <==> !engine_accepts(
            escaped(pattern@),
        ),
        (result matches Err(e) && e == SearchError::NotFound) <==> engine_accepts(
            escaped(pattern@),
        ) && chunked_matches(data@, pattern@).len() == 0,
        result matches Ok(at) ==> at == chunked_matches(data@, pattern@)[0],
{
    match Matcher::new(pattern) {
        Err(_) => Err(SearchError::InvalidPattern),
        Ok(matcher) => {
            let found = scan(matcher, data, Mode::First);
            if found.len() == 0 {
                Err(SearchError::NotFound)
            } else {
                proof {
                    let all = chunked_matches(data@, pattern@);
                    assert(offsets_of(found@).len() == found@.len());
                    assert(all.len() > 0);
                    assert(all.take(1)[0] == all[0]);
                    assert(offsets_of(found@)[0] == found@[0] as int);
                }
                Ok(found[0])
            }
        },
    }
}

} // verus!
