use vstd::prelude::*;

verus! {

/// One step of the xorshift64 generator (shifts 13, 7, 17).
pub open spec fn xorshift(s: u64) -> u64 {
    let a = s ^ (s << 13u64);
    let b = a ^ (a >> 7u64);
    b ^ (b << 17u64)
}

/// One xorshift64 step on a state, as the generators of every game compute it.
pub fn xorshift_step(state: u64) -> (n: u64)
    ensures
        n == xorshift(state),
{
    let mut s = state;
    s ^= s << 13u64;
    s ^= s >> 7u64;
    s ^= s << 17u64;
    s
}

/// `s` with the elements at `i` and `j` exchanged.
pub open spec fn swapped<T>(s: Seq<T>, i: int, j: int) -> Seq<T> {
    s.update(i, s[j]).update(j, s[i])
}

/// The Fisher-Yates passes for indices `i`, `i - 1`, ..., 1 from generator
/// state `st`: each pass draws the next xorshift value `x` and swaps index
/// `i` with index `x % (i + 1)`. Gives the sequence and the final state.
pub open spec fn shuffle_from<T>(s: Seq<T>, st: u64, i: int) -> (Seq<T>, u64)
    decreases i,
{
    if i < 1 {
        (s, st)
    } else {
        let st2 = xorshift(st);
        let j = (st2 % ((i + 1) as u64)) as int;
        shuffle_from(swapped(s, i, j), st2, i - 1)
    }
}

/// A shuffle keeps the length and the elements, and keeps a sequence
/// without repeated elements free of repetitions.
pub proof fn lemma_shuffle_permutes<T>(s: Seq<T>, st: u64, i: int)
    requires
        i < s.len(),
        s.len() <= u64::MAX,
    ensures
        shuffle_from(s, st, i).0.len() == s.len(),
        forall|x: T| #[trigger] shuffle_from(s, st, i).0.contains(x) <==> s.contains(x),
        (forall|a: int, b: int| 0 <= a < b < s.len() ==> s[a] != s[b]) ==> forall|a: int, b: int|
            0 <= a < b < s.len() ==> #[trigger] shuffle_from(s, st, i).0[a] != #[trigger] shuffle_from(
                s,
                st,
                i,
            ).0[b],
    decreases i,
{
    if i >= 1 {
        let st2 = xorshift(st);
        let j = (st2 % ((i + 1) as u64)) as int;
        let t = swapped(s, i, j);
        assert(0 <= j <= i);
        assert forall|x: T| #[trigger] t.contains(x) <==> s.contains(x) by {
            if s.contains(x) {
                let k = choose|k: int| 0 <= k < s.len() && s[k] == x;
                if k == i {
                    assert(t[j] == x);
                } else if k == j {
                    assert(t[i] == x);
                } else {
                    assert(t[k] == x);
                }
            }
            if t.contains(x) {
                let k = choose|k: int| 0 <= k < t.len() && t[k] == x;
                if k == i {
                    assert(s[j] == x);
                } else if k == j {
                    assert(s[i] == x);
                } else {
                    assert(s[k] == x);
                }
            }
        }
        if forall|a: int, b: int| 0 <= a < b < s.len() ==> s[a] != s[b] {
            assert forall|a: int, b: int| 0 <= a < b < t.len() implies t[a] != t[b] by {
                let sa = if a == i {
                    j
                } else if a == j {
                    i
                } else {
                    a
                };
                let sb = if b == i {
                    j
                } else if b == j {
                    i
                } else {
                    b
                };
                assert(t[a] == s[sa]);
                assert(t[b] == s[sb]);
                if sa < sb {
                    assert(s[sa] != s[sb]);
                } else {
                    assert(s[sb] != s[sa]);
                }
            }
        }
        lemma_shuffle_permutes(t, st2, i - 1);
    }
}

} // verus!
