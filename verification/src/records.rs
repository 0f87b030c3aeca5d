use vstd::prelude::*;

verus! {

/// Most history entries kept.
pub const HISTORY_LIMIT: usize = 100;

/// The last 100 entries of a history (all of them when there are fewer).
pub open spec fn recent<T>(h: Seq<T>) -> Seq<T> {
    if h.len() > 100 {
        h.subrange(h.len() - 100, h.len() as int)
    } else {
        h
    }
}

/// Drops the oldest entries so that at most the last 100 remain.
pub fn keep_recent<T>(history: &mut Vec<T>)
    ensures
        final(history)@ == recent(old(history)@),
{
    let ghost h0 = history@;
    while history.len() > HISTORY_LIMIT
        invariant
            history@.len() >= 100 ==> history@ == h0.subrange(h0.len() - history@.len(), h0.len() as int),
            history@.len() < 100 ==> history@ == h0,
            history@.len() <= h0.len(),
        decreases history@.len(),
    {
        let ghost before = history@;
        history.remove(0);
        assert(history@ =~= h0.subrange(h0.len() - history@.len(), h0.len() as int));
    }
    proof {
        if h0.len() <= 100 {
            assert(history@ == h0) by {
                if history@.len() >= 100 {
                    assert(h0.subrange(0, h0.len() as int) =~= h0);
                }
            }
        }
    }
}

/// Keeping the recent entries after adding one keeps that entry last.
pub proof fn lemma_recent_push<T>(h: Seq<T>, e: T)
    ensures
        recent(h.push(e)).len() > 0,
        recent(h.push(e)).last() == e,
{
}

} // verus!
