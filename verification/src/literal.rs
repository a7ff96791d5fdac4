//! What it means for a byte string to occur in another, and the successive occurrences
//! that a left-to-right search reports.

use vstd::prelude::*;

verus! {

/// `pat` occurs in `hay` at index `p`: the bytes `hay[p .. p + pat.len()]` exist and equal
/// `pat`.
pub open spec fn occurs_at(hay: Seq<u8>, pat: Seq<u8>, p: int) -> bool {
    &&& 0 <= p
    &&& p + pat.len() <= hay.len()
    &&& hay.subrange(p, p + pat.len()) =~= pat
}

/// No occurrence of `pat` starts before `p` and still reaches into `hay[p ..]`, looking no
/// further back than `from`.
pub open spec fn unshadowed(hay: Seq<u8>, pat: Seq<u8>, from: int, p: int) -> bool {
    forall|q: int| from <= q < p && p < q + pat.len() ==> !occurs_at(hay, pat, q)
}

/// The starts of the successive non-overlapping occurrences of `pat` in `hay`, searching
/// from index `from`: the leftmost occurrence at or after `from`, then the leftmost one at
/// or after its end, and so on.
pub open spec fn successive(hay: Seq<u8>, pat: Seq<u8>, from: int) -> Seq<int>
    decreases hay.len() - from,
{
    if pat.len() == 0 || from < 0 || from + pat.len() > hay.len() {
        Seq::empty()
    } else if occurs_at(hay, pat, from) {
        seq![from] + successive(hay, pat, from + pat.len())
    } else {
        successive(hay, pat, from + 1)
    }
}

/// Each index of `s` moved up by `by`.
pub open spec fn shifted(s: Seq<int>, by: int) -> Seq<int> {
    Seq::new(s.len(), |i: int| s[i] + by)
}

/// Each element is less than the one after it.
pub open spec fn ascending(s: Seq<int>) -> bool {
    forall|i: int, j: int| 0 <= i < j < s.len() ==> s[i] < s[j]
}

/// Every index reported is an occurrence at or after `from`.
pub proof fn lemma_successive_sound(hay: Seq<u8>, pat: Seq<u8>, from: int)
    ensures
        forall|i: int|
            0 <= i < successive(hay, pat, from).len() ==> from <= #[trigger] successive(
                hay,
                pat,
                from,
            )[i] && occurs_at(hay, pat, successive(hay, pat, from)[i]),
    decreases hay.len() - from,
{
    if pat.len() == 0 || from < 0 || from + pat.len() > hay.len() {
    } else if occurs_at(hay, pat, from) {
        lemma_successive_sound(hay, pat, from + pat.len());
        let s = successive(hay, pat, from);
        let rest = successive(hay, pat, from + pat.len());
        assert forall|i: int| 0 <= i < s.len() implies from <= #[trigger] s[i] && occurs_at(
            hay,
            pat,
            s[i],
        ) by {
            if i > 0 {
                assert(s[i] == rest[i - 1]);
            }
        }
    } else {
        lemma_successive_sound(hay, pat, from + 1);
        assert(successive(hay, pat, from) == successive(hay, pat, from + 1));
    }
}

/// The occurrences reported do not overlap: each starts at or after the end of the one
/// before it.
pub proof fn lemma_successive_spaced(hay: Seq<u8>, pat: Seq<u8>, from: int)
    ensures
        forall|i: int, j: int|
            0 <= i < j < successive(hay, pat, from).len() ==> #[trigger] successive(
                hay,
                pat,
                from,
            )[i] + pat.len() <= #[trigger] successive(hay, pat, from)[j],
        ascending(successive(hay, pat, from)),
    decreases hay.len() - from,
{
    if pat.len() == 0 || from < 0 || from + pat.len() > hay.len() {
    } else if occurs_at(hay, pat, from) {
        lemma_successive_spaced(hay, pat, from + pat.len());
        lemma_successive_sound(hay, pat, from + pat.len());
        let s = successive(hay, pat, from);
        let rest = successive(hay, pat, from + pat.len());
        assert forall|i: int, j: int| 0 <= i < j < s.len() implies #[trigger] s[i] + pat.len()
            <= #[trigger] s[j] by {
            assert(s[j] == rest[j - 1]);
            if i > 0 {
                assert(s[i] == rest[i - 1]);
            }
        }
    } else {
        lemma_successive_spaced(hay, pat, from + 1);
    }
}

/// An occurrence at or after `from` that no earlier occurrence reaches into is reported.
pub proof fn lemma_successive_complete(hay: Seq<u8>, pat: Seq<u8>, from: int, p: int)
    requires
        pat.len() > 0,
        0 <= from <= p,
        occurs_at(hay, pat, p),
        unshadowed(hay, pat, from, p),
    ensures
        successive(hay, pat, from).contains(p),
    decreases p - from,
{
    let s = successive(hay, pat, from);
    if from == p {
        assert(s[0] == p);
    } else if occurs_at(hay, pat, from) {
        assert(from + pat.len() <= p);
        lemma_successive_complete(hay, pat, from + pat.len(), p);
        let rest = successive(hay, pat, from + pat.len());
        let i = choose|i: int| 0 <= i < rest.len() && rest[i] == p;
        assert(s[i + 1] == p);
    } else {
        lemma_successive_complete(hay, pat, from + 1, p);
    }
}

/// An occurrence inside a window of `hay` is an occurrence in `hay`, and the other way
/// round when it fits in the window.
pub proof fn lemma_occurs_in_window(hay: Seq<u8>, pat: Seq<u8>, lo: int, hi: int, m: int)
    requires
        0 <= lo <= hi <= hay.len(),
    ensures
        occurs_at(hay.subrange(lo, hi), pat, m) <==> (0 <= m && lo + m + pat.len() <= hi
            && occurs_at(hay, pat, lo + m)),
{
    let w = hay.subrange(lo, hi);
    let k = pat.len() as int;
    if 0 <= m && lo + m + k <= hi {
        assert(w.subrange(m, m + k) =~= hay.subrange(lo + m, lo + m + k));
    }
}

} // verus!
