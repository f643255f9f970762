//! Choosing which grammar-engine suggestions to apply, so that the edits
//! applied never overlap.
use vstd::prelude::*;

verus! {

/// A suggested edit as the engine reports it: the character span it would
/// replace, and whether it offers any replacement at all.
#[derive(Clone, Copy, PartialEq, Eq, Structural, Debug)]
pub struct SuggestionSpan {
    pub start: usize,
    pub end: usize,
    pub has_replacement: bool,
}

/// The span can be applied to a text of `len` characters on its own.
pub open spec fn applicable(s: SuggestionSpan, len: nat) -> bool {
    s.has_replacement && s.start <= s.end && s.end <= len
}

/// Whether suggestion `k` is applied: it is applicable and starts no earlier
/// than the end of the last suggestion applied before it (first wins).
pub open spec fn chosen(spans: Seq<SuggestionSpan>, len: nat, k: int) -> bool
    decreases k, 1int,
{
    0 <= k < spans.len() && applicable(spans[k], len) && spans[k].start >= frontier(spans, len, k)
}

/// The end of the last suggestion applied among the first `k`, or 0.
pub open spec fn frontier(spans: Seq<SuggestionSpan>, len: nat, k: int) -> nat
    decreases k, 0int,
{
    if k <= 0 {
        0
    } else if chosen(spans, len, k - 1) {
        spans[k - 1].end as nat
    } else {
        frontier(spans, len, k - 1)
    }
}

/// Marks the suggestions to apply to a text of `text_len` characters: those
/// with a replacement and a span inside the text, taken in the given order,
/// each skipped when it starts before the end of the last one taken (so the
/// spans taken never overlap and come in ascending order, as the engine's
/// apply step needs).
pub fn select_suggestions(spans: &Vec<SuggestionSpan>, text_len: usize) -> (r: Vec<bool>)
    ensures
        r.len() == spans.len(),
        forall|k: int| 0 <= k < r.len() ==> r[k] == chosen(spans@, text_len as nat, k),
{
    let mut out: Vec<bool> = Vec::new();
    let mut last_end: usize = 0;
    let mut k: usize = 0;
    while k < spans.len()
        invariant
            k <= spans.len(),
            out.len() == k,
            last_end == frontier(spans@, text_len as nat, k as int),
            forall|q: int| 0 <= q < k ==> out[q] == chosen(spans@, text_len as nat, q),
        decreases spans.len() - k,
    {
        let s = spans[k];
        let take = s.has_replacement && s.start <= s.end && s.end <= text_len && s.start
            >= last_end;
        assert(take == chosen(spans@, text_len as nat, k as int));
        assert(frontier(spans@, text_len as nat, k + 1) == if take {
            s.end as nat
        } else {
            frontier(spans@, text_len as nat, k as int)
        });
        out.push(take);
        if take {
            last_end = s.end;
        }
        k = k + 1;
    }
    out
}

proof fn lemma_frontier_grows(spans: Seq<SuggestionSpan>, len: nat, i: int, k: int)
    requires
        0 <= i <= k,
    ensures
        frontier(spans, len, i) <= frontier(spans, len, k),
    decreases k - i,
{
    if i < k {
        lemma_frontier_grows(spans, len, i, k - 1);
        if chosen(spans, len, k - 1) {
            assert(frontier(spans, len, k - 1) <= spans[k - 1].start);
        }
    }
}

/// The suggestions chosen never overlap: each chosen span ends no later than
/// any later chosen span starts, and all lie inside the text.
pub proof fn lemma_chosen_disjoint(spans: Seq<SuggestionSpan>, len: nat, i: int, j: int)
    requires
        0 <= i < j < spans.len(),
        chosen(spans, len, i),
        chosen(spans, len, j),
    ensures
        spans[i].end <= spans[j].start,
        spans[i].start <= spans[i].end <= len,
        spans[j].start <= spans[j].end <= len,
{
    lemma_frontier_grows(spans, len, i + 1, j);
}

} // verus!
