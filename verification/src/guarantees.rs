//! What the chunked search finds, stated of the offsets it reports and proved from their
//! definition.

use vstd::prelude::*;
use crate::literal::{ascending, occurs_at, unshadowed};
use crate::scanner::{
    chunked_matches, lemma_windowed_complete, lemma_windowed_short, lemma_windowed_sound,
    CHUNK_SIZE,
};

verus! {

/// All the places where `pat` occurs in `data`.
pub open spec fn occurrences(data: Seq<u8>, pat: Seq<u8>) -> Set<int> {
    Set::new(|p: int| occurs_at(data, pat, p))
}

/// No two occurrences of `pat` in `data` share a byte.
pub open spec fn occurrences_disjoint(data: Seq<u8>, pat: Seq<u8>) -> bool {
    forall|p: int, q: int|
        p < q && occurs_at(data, pat, p) && occurs_at(data, pat, q) ==> p + pat.len() <= q
}

/// Every offset reported is a place where the pattern occurs in full, so never one that
/// would run past the end of the source; and the offsets come in ascending order, so none
/// is reported twice.
pub proof fn lemma_reported_are_occurrences(data: Seq<u8>, pat: Seq<u8>)
    ensures
        forall|i: int|
            0 <= i < chunked_matches(data, pat).len() ==> occurs_at(
                data,
                pat,
                #[trigger] chunked_matches(data, pat)[i],
            ),
        ascending(chunked_matches(data, pat)),
        chunked_matches(data, pat).no_duplicates(),
{
    lemma_windowed_sound(data, pat, 0);
    let r = chunked_matches(data, pat);
    assert forall|i: int, j: int| 0 <= i < r.len() && 0 <= j < r.len() && i != j implies r[i]
        != r[j] by {
        if i < j {
            assert(r[i] < r[j]);
        } else {
            assert(r[j] < r[i]);
        }
    }
}

/// An occurrence at `p` that no earlier occurrence reaches into is reported, wherever `p`
/// lies with respect to the chunk boundaries.  The pattern must fit in one chunk.
pub proof fn lemma_occurrence_is_reported(data: Seq<u8>, pat: Seq<u8>, p: int)
    requires
        0 < pat.len() <= CHUNK_SIZE,
        occurs_at(data, pat, p),
        unshadowed(data, pat, 0, p),
    ensures
        chunked_matches(data, pat).contains(p),
{
    lemma_windowed_complete(data, pat, 0, p);
}

/// Among the occurrences up to `p` there is a first one.
proof fn lemma_first_occurrence(data: Seq<u8>, pat: Seq<u8>, p: int) -> (q: int)
    requires
        occurs_at(data, pat, p),
    ensures
        0 <= q <= p,
        occurs_at(data, pat, q),
        forall|r: int| r < q ==> !occurs_at(data, pat, r),
    decreases p,
{
    if exists|r: int| r < p && occurs_at(data, pat, r) {
        let r = choose|r: int| r < p && occurs_at(data, pat, r);
        lemma_first_occurrence(data, pat, r)
    } else {
        p
    }
}

/// A source that holds the pattern anywhere gives at least one offset, and the first
/// offset reported is the first place where the pattern occurs.
pub proof fn lemma_found_when_present(data: Seq<u8>, pat: Seq<u8>, p: int)
    requires
        0 < pat.len() <= CHUNK_SIZE,
        occurs_at(data, pat, p),
    ensures
        chunked_matches(data, pat).len() > 0,
        occurs_at(data, pat, chunked_matches(data, pat)[0]),
        forall|r: int| r < chunked_matches(data, pat)[0] ==> !occurs_at(data, pat, r),
{
    let q = lemma_first_occurrence(data, pat, p);
    lemma_windowed_complete(data, pat, 0, q);
    lemma_windowed_sound(data, pat, 0);
    let found = chunked_matches(data, pat);
    let i = choose|i: int| 0 <= i < found.len() && found[i] == q;
    if i > 0 {
        assert(found[0] < found[i]);
        assert(occurs_at(data, pat, found[0]));
    }
}

/// A pattern whose last byte is the last byte of the source is found: the search does not
/// come back empty, and it reports that very offset unless an earlier occurrence reaches
/// into it.
pub proof fn lemma_found_at_end(data: Seq<u8>, pat: Seq<u8>)
    requires
        0 < pat.len() <= CHUNK_SIZE,
        occurs_at(data, pat, data.len() - pat.len()),
    ensures
        chunked_matches(data, pat).len() > 0,
        unshadowed(data, pat, 0, data.len() - pat.len()) ==> chunked_matches(
            data,
            pat,
        ).contains(data.len() - pat.len()),
{
    let p = data.len() - pat.len();
    lemma_found_when_present(data, pat, p);
    if unshadowed(data, pat, 0, p) {
        lemma_windowed_complete(data, pat, 0, p);
    }
}

/// A pattern longer than the source is not found, and neither is one longer than a chunk.
pub proof fn lemma_not_found_when_longer(data: Seq<u8>, pat: Seq<u8>)
    requires
        pat.len() > data.len() || pat.len() > CHUNK_SIZE,
    ensures
        chunked_matches(data, pat).len() == 0,
{
    lemma_windowed_short(data, pat, 0);
}

/// When the occurrences of the pattern do not overlap one another, the search reports
/// each of them exactly once, in ascending order: as many offsets as there are
/// occurrences.
pub proof fn lemma_all_reported_when_disjoint(data: Seq<u8>, pat: Seq<u8>)
    requires
        0 < pat.len() <= CHUNK_SIZE,
        occurrences_disjoint(data, pat),
    ensures
        forall|p: int| chunked_matches(data, pat).contains(p) <==> occurs_at(data, pat, p),
        ascending(chunked_matches(data, pat)),
        chunked_matches(data, pat).to_set() == occurrences(data, pat),
        occurrences(data, pat).finite(),
        chunked_matches(data, pat).len() == occurrences(data, pat).len(),
{
    let found = chunked_matches(data, pat);
    lemma_reported_are_occurrences(data, pat);
    assert forall|p: int| found.contains(p) <==> occurs_at(data, pat, p) by {
        if occurs_at(data, pat, p) {
            assert(unshadowed(data, pat, 0, p));
            lemma_windowed_complete(data, pat, 0, p);
        }
        if found.contains(p) {
            let i = choose|i: int| 0 <= i < found.len() && found[i] == p;
            assert(occurs_at(data, pat, found[i]));
        }
    }
    assert(found.to_set() =~= occurrences(data, pat));
    found.unique_seq_to_set();
    vstd::seq_lib::seq_to_set_is_finite(found);
}

} // verus!
