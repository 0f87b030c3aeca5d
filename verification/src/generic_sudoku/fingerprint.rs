use vstd::prelude::*;
use vstd::string::StringExecFns;
use crate::generic_sudoku::config::{BoardPlacement, PuzzleConfig};
use crate::text::{digit_char, push_decimal};

verus! {

/// (a0, a1) comes before or equals (b0, b1) in lexicographic order.
pub open spec fn pair_le(a: (usize, usize), b: (usize, usize)) -> bool {
    a.0 < b.0 || (a.0 == b.0 && a.1 <= b.1)
}

/// The sequence is in lexicographic order.
pub open spec fn pairs_sorted(s: Seq<(usize, usize)>) -> bool {
    forall|i: int, j: int| 0 <= i < j < s.len() ==> pair_le(#[trigger] s[i], #[trigger] s[j])
}

/// `x` put into `s` after every element at most `x`.
pub open spec fn insert_pair(s: Seq<(usize, usize)>, x: (usize, usize)) -> Seq<(usize, usize)>
    decreases s.len(),
{
    if s.len() == 0 {
        seq![x]
    } else if pair_le(s[0], x) {
        seq![s[0]] + insert_pair(s.drop_first(), x)
    } else {
        seq![x] + s
    }
}

/// The elements of `s` in lexicographic order (insertion sort).
pub open spec fn sort_pairs(s: Seq<(usize, usize)>) -> Seq<(usize, usize)>
    decreases s.len(),
{
    if s.len() == 0 {
        Seq::empty()
    } else {
        insert_pair(sort_pairs(s.drop_last()), s.last())
    }
}

/// The (meta_row, meta_col) pairs of the placements, in order.
pub open spec fn placement_pairs(b: Seq<BoardPlacement>) -> Seq<(usize, usize)> {
    Seq::new(b.len(), |i: int| (b[i].meta_row, b[i].meta_col))
}

/// ASCII decimal digits of `n`, without leading zeros.
pub open spec fn dec_bytes(n: nat) -> Seq<u8>
    decreases n,
{
    if n < 10 {
        seq![(48 + n) as u8]
    } else {
        dec_bytes(n / 10).push((48 + n % 10) as u8)
    }
}

/// The text "(a, b)" as ASCII bytes.
pub open spec fn pair_bytes(p: (usize, usize)) -> Seq<u8> {
    seq![40u8] + dec_bytes(p.0 as nat) + seq![44u8, 32u8] + dec_bytes(p.1 as nat) + seq![41u8]
}

/// The pairs as "(a, b)" texts separated by ", ".
pub open spec fn items_bytes(s: Seq<(usize, usize)>) -> Seq<u8>
    decreases s.len(),
{
    if s.len() == 0 {
        Seq::empty()
    } else if s.len() == 1 {
        pair_bytes(s[0])
    } else {
        items_bytes(s.drop_last()) + seq![44u8, 32u8] + pair_bytes(s.last())
    }
}

/// The debug text of a list of pairs, "[(a, b), (c, d)]", as ASCII bytes.
pub open spec fn list_bytes(s: Seq<(usize, usize)>) -> Seq<u8> {
    seq![91u8] + items_bytes(s) + seq![93u8]
}

/// FNV-1a offset basis.
pub const FNV_OFFSET: u64 = 0xcbf29ce484222325;
/// FNV-1a prime.
pub const FNV_PRIME: u64 = 0x100000001b3;

/// One FNV-1a step: xor in the byte, then multiply by the prime modulo 2^64.
pub open spec fn fnv_step(h: u64, b: u8) -> u64 {
    (((h ^ (b as u64)) as nat * FNV_PRIME as nat) % 0x1_0000_0000_0000_0000) as u64
}

/// FNV-1a hash of the first `n` bytes.
pub open spec fn fnv_upto(bytes: Seq<u8>, n: int) -> u64
    decreases n,
{
    if n <= 0 {
        FNV_OFFSET
    } else {
        fnv_step(fnv_upto(bytes, n - 1), bytes[n - 1])
    }
}

/// The lowercase hexadecimal digit for 0..=15.
pub open spec fn hex_char(d: nat) -> char {
    if d < 10 {
        digit_char(d)
    } else if d == 10 {
        'a'
    } else if d == 11 {
        'b'
    } else if d == 12 {
        'c'
    } else if d == 13 {
        'd'
    } else if d == 14 {
        'e'
    } else {
        'f'
    }
}

/// The last `n` hexadecimal digits of `h`, zero-padded to `n` digits.
pub open spec fn hex_digits(h: nat, n: nat) -> Seq<char>
    decreases n,
{
    if n == 0 {
        Seq::empty()
    } else {
        hex_digits(h / 16, (n - 1) as nat).push(hex_char(h % 16))
    }
}

/// The fingerprint of a list of placements: the FNV-1a hash of the debug
/// text of the sorted (meta_row, meta_col) pairs, as 16 hex digits.
pub open spec fn fingerprint_of(b: Seq<BoardPlacement>) -> Seq<char> {
    let bytes = list_bytes(sort_pairs(placement_pairs(b)));
    hex_digits(fnv_upto(bytes, bytes.len() as int) as nat, 16)
}

/// Inserting into a sorted sequence keeps it sorted and adds the element.
proof fn lemma_insert_pair(s: Seq<(usize, usize)>, x: (usize, usize))
    requires
        pairs_sorted(s),
    ensures
        pairs_sorted(insert_pair(s, x)),
        insert_pair(s, x).to_multiset() =~= s.to_multiset().insert(x),
        insert_pair(s, x).len() == s.len() + 1,
        forall|y: (usize, usize)| #[trigger] insert_pair(s, x).contains(y) ==> y == x || s.contains(y),
    decreases s.len(),
{
    broadcast use vstd::seq_lib::group_to_multiset_ensures;

    let r = insert_pair(s, x);
    if s.len() == 0 {
        assert(seq![x] =~= Seq::<(usize, usize)>::empty().push(x));
    } else if pair_le(s[0], x) {
        let t = s.drop_first();
        assert forall|i: int, j: int| 0 <= i < j < t.len() implies pair_le(#[trigger] t[i], #[trigger] t[j]) by {
            assert(t[i] == s[i + 1] && t[j] == s[j + 1]);
        }
        lemma_insert_pair(t, x);
        let u = insert_pair(t, x);
        assert(r == seq![s[0]] + u);
        assert forall|i: int, j: int| 0 <= i < j < r.len() implies pair_le(#[trigger] r[i], #[trigger] r[j]) by {
            if i == 0 {
                assert(r[j] == u[j - 1]);
                assert(u.contains(u[j - 1]));
                if u[j - 1] != x {
                    assert(t.contains(u[j - 1]));
                    let k = choose|k: int| 0 <= k < t.len() && t[k] == u[j - 1];
                    assert(s[k + 1] == t[k]);
                }
            } else {
                assert(r[i] == u[i - 1] && r[j] == u[j - 1]);
            }
        }
        assert(s =~= seq![s[0]] + t);
        vstd::seq_lib::lemma_multiset_commutative(seq![s[0]], t);
        vstd::seq_lib::lemma_multiset_commutative(seq![s[0]], u);
        assert(seq![s[0]] =~= Seq::<(usize, usize)>::empty().push(s[0]));
        assert forall|y: (usize, usize)| #[trigger] r.contains(y) implies y == x || s.contains(y) by {
            let k = choose|k: int| 0 <= k < r.len() && r[k] == y;
            if k > 0 {
                assert(u[k - 1] == y);
                assert(u.contains(y));
                if y != x {
                    let m = choose|m: int| 0 <= m < t.len() && t[m] == y;
                    assert(s[m + 1] == y);
                }
            } else {
                assert(s[0] == y);
            }
        }
    } else {
        assert forall|i: int, j: int| 0 <= i < j < r.len() implies pair_le(#[trigger] r[i], #[trigger] r[j]) by {
            if i == 0 {
                assert(r[j] == s[j - 1]);
                assert(pair_le(s[0], s[j - 1]) || j - 1 == 0);
            } else {
                assert(r[i] == s[i - 1] && r[j] == s[j - 1]);
            }
        }
        vstd::seq_lib::lemma_multiset_commutative(seq![x], s);
        assert(seq![x] =~= Seq::<(usize, usize)>::empty().push(x));
        assert forall|y: (usize, usize)| #[trigger] r.contains(y) implies y == x || s.contains(y) by {
            let k = choose|k: int| 0 <= k < r.len() && r[k] == y;
            if k > 0 {
                assert(s[k - 1] == y);
            }
        }
    }
}

/// The sorted sequence is sorted and holds the same elements.
proof fn lemma_sort_pairs(s: Seq<(usize, usize)>)
    ensures
        pairs_sorted(sort_pairs(s)),
        sort_pairs(s).to_multiset() =~= s.to_multiset(),
        sort_pairs(s).len() == s.len(),
    decreases s.len(),
{
    broadcast use vstd::seq_lib::group_to_multiset_ensures;

    if s.len() > 0 {
        lemma_sort_pairs(s.drop_last());
        lemma_insert_pair(sort_pairs(s.drop_last()), s.last());
        assert(s =~= s.drop_last().push(s.last()));
    }
}

/// Two sorted sequences with the same elements are equal.
proof fn lemma_sorted_unique(a: Seq<(usize, usize)>, b: Seq<(usize, usize)>)
    requires
        pairs_sorted(a),
        pairs_sorted(b),
        a.to_multiset() =~= b.to_multiset(),
    ensures
        a == b,
    decreases a.len(),
{
    broadcast use vstd::seq_lib::group_to_multiset_ensures;
    broadcast use vstd::multiset::group_multiset_axioms;

    assert(a.len() == b.len()) by {
        assert(a.to_multiset().len() == b.to_multiset().len());
    }
    if a.len() > 0 {
        assert(a.to_multiset().count(a[0]) > 0) by {
            assert(a.contains(a[0]));
        }
        assert(b.contains(a[0]));
        assert(b.to_multiset().count(b[0]) > 0) by {
            assert(b.contains(b[0]));
        }
        assert(a.contains(b[0]));
        let i = choose|i: int| 0 <= i < b.len() && b[i] == a[0];
        let j = choose|j: int| 0 <= j < a.len() && a[j] == b[0];
        assert(pair_le(b[0], b[i]) || i == 0);
        assert(pair_le(a[0], a[j]) || j == 0);
        assert(a[0] == b[0]);
        let a1 = a.drop_first();
        let b1 = b.drop_first();
        assert(a.remove(0) =~= a1);
        assert(b.remove(0) =~= b1);
        assert forall|x: int, y: int| 0 <= x < y < a1.len() implies pair_le(#[trigger] a1[x], #[trigger] a1[y]) by {
            assert(a1[x] == a[x + 1] && a1[y] == a[y + 1]);
        }
        assert forall|x: int, y: int| 0 <= x < y < b1.len() implies pair_le(#[trigger] b1[x], #[trigger] b1[y]) by {
            assert(b1[x] == b[x + 1] && b1[y] == b[y + 1]);
        }
        lemma_sorted_unique(a1, b1);
        assert forall|k: int| 0 <= k < a.len() implies a[k] == b[k] by {
            if k > 0 {
                assert(a[k] == a1[k - 1] && b[k] == b1[k - 1]);
            }
        }
        assert(a =~= b);
    }
}

/// The fingerprint does not depend on the order of the boards: two lists
/// holding the same placements, in any order, have the same fingerprint.
pub proof fn lemma_fingerprint_order_free(a: Seq<BoardPlacement>, b: Seq<BoardPlacement>)
    requires
        placement_pairs(a).to_multiset() =~= placement_pairs(b).to_multiset(),
    ensures
        fingerprint_of(a) == fingerprint_of(b),
{
    lemma_sort_pairs(placement_pairs(a));
    lemma_sort_pairs(placement_pairs(b));
    lemma_sorted_unique(sort_pairs(placement_pairs(a)), sort_pairs(placement_pairs(b)));
}

/// Inserting after the elements at most `x` is inserting at the first
/// position whose element is greater than `x`.
proof fn lemma_insert_pair_at(s: Seq<(usize, usize)>, x: (usize, usize), k: int)
    requires
        0 <= k <= s.len(),
        forall|j: int| 0 <= j < k ==> pair_le(#[trigger] s[j], x),
        k < s.len() ==> !pair_le(s[k], x),
    ensures
        insert_pair(s, x) == s.insert(k, x),
    decreases s.len(),
{
    if s.len() == 0 {
        assert(s.insert(k, x) =~= seq![x]);
    } else if k == 0 {
        assert(s.insert(0, x) =~= seq![x] + s);
    } else {
        let t = s.drop_first();
        assert forall|j: int| 0 <= j < k - 1 implies pair_le(#[trigger] t[j], x) by {
            assert(t[j] == s[j + 1]);
        }
        lemma_insert_pair_at(t, x, k - 1);
        assert(s.insert(k, x) =~= seq![s[0]] + t.insert(k - 1, x));
    }
}

/// Inserts `x` into the sorted vector after every element at most `x`.
fn insert_sorted_pair(v: &mut Vec<(usize, usize)>, x: (usize, usize))
    ensures
        final(v)@ == insert_pair(old(v)@, x),
{
    let mut k: usize = 0;
    while k < v.len() && (v[k].0 < x.0 || (v[k].0 == x.0 && v[k].1 <= x.1))
        invariant
            k <= v@.len(),
            v@ == old(v)@,
            forall|j: int| 0 <= j < k ==> pair_le(#[trigger] v@[j], x),
        decreases v@.len() - k,
    {
        k += 1;
    }
    proof {
        lemma_insert_pair_at(v@, x, k as int);
    }
    v.insert(k, x);
}

/// Appends the ASCII decimal digits of `n`.
fn push_dec_bytes(v: &mut Vec<u8>, n: u64)
    ensures
        final(v)@ == old(v)@ + dec_bytes(n as nat),
    decreases n,
{
    if n >= 10 {
        push_dec_bytes(v, n / 10);
    }
    v.push((48 + n % 10) as u8);
    assert(final(v)@ =~= old(v)@ + dec_bytes(n as nat));
}

/// Appends the text "(a, b)".
fn push_pair_bytes(v: &mut Vec<u8>, p: (usize, usize))
    ensures
        final(v)@ == old(v)@ + pair_bytes(p),
{
    v.push(40u8);
    push_dec_bytes(v, p.0 as u64);
    v.push(44u8);
    v.push(32u8);
    push_dec_bytes(v, p.1 as u64);
    v.push(41u8);
    assert(final(v)@ =~= old(v)@ + pair_bytes(p));
}

/// The debug text "[(a, b), (c, d)]" of the pairs, as ASCII bytes.
fn debug_bytes(s: &Vec<(usize, usize)>) -> (b: Vec<u8>)
    ensures
        b@ == list_bytes(s@),
{
    let mut out: Vec<u8> = Vec::new();
    out.push(91u8);
    let mut i: usize = 0;
    while i < s.len()
        invariant
            i <= s@.len(),
            out@ == seq![91u8] + items_bytes(s@.subrange(0, i as int)),
        decreases s@.len() - i,
    {
        proof {
            let t = s@.subrange(0, i + 1);
            assert(t.drop_last() =~= s@.subrange(0, i as int));
            assert(t.last() == s@[i as int]);
        }
        if i > 0 {
            out.push(44u8);
            out.push(32u8);
        }
        push_pair_bytes(&mut out, s[i]);
        proof {
            let t = s@.subrange(0, i + 1);
            if i == 0 {
                assert(t[0] == s@[0]);
            }
            assert(out@ =~= seq![91u8] + items_bytes(t));
        }
        i += 1;
    }
    out.push(93u8);
    assert(s@.subrange(0, s@.len() as int) =~= s@);
    assert(out@ =~= list_bytes(s@));
    out
}

/// Appends the hexadecimal digit `d` (0..=15).
fn push_hex_digit(s: &mut String, d: u64)
    requires
        d < 16,
    ensures
        final(s)@ == old(s)@.push(hex_char(d as nat)),
{
    if d < 10 {
        let mut t = String::new();
        push_decimal(&mut t, d);
        s.append(t.as_str());
        assert(s@ =~= old(s)@.push(hex_char(d as nat)));
        return;
    }
    let t: &str = if d == 10 {
        "a"
    } else if d == 11 {
        "b"
    } else if d == 12 {
        "c"
    } else if d == 13 {
        "d"
    } else if d == 14 {
        "e"
    } else {
        "f"
    };
    proof {
        reveal_strlit("a");
        reveal_strlit("b");
        reveal_strlit("c");
        reveal_strlit("d");
        reveal_strlit("e");
        reveal_strlit("f");
    }
    s.append(t);
    assert(s@ =~= old(s)@.push(hex_char(d as nat)));
}

/// Appends the last `n` hexadecimal digits of `h`, zero-padded.
fn push_hex(s: &mut String, h: u64, n: u64)
    ensures
        final(s)@ == old(s)@ + hex_digits(h as nat, n as nat),
    decreases n,
{
    if n > 0 {
        push_hex(s, h / 16, n - 1);
        push_hex_digit(s, h % 16);
    }
    assert(final(s)@ =~= old(s)@ + hex_digits(h as nat, n as nat));
}

impl PuzzleConfig {
    /// A key for the layout that does not depend on the order of the
    /// boards: the (meta_row, meta_col) pairs are sorted, written as the
    /// debug text "[(r, c), ...]", hashed with 64-bit FNV-1a, and the hash
    /// is given as 16 lowercase hex digits.
    pub fn fingerprint(&self) -> (f: String)
        ensures
            f@ == fingerprint_of(self.boards@),
    {
        let ghost pairs = placement_pairs(self.boards@);
        let mut sorted: Vec<(usize, usize)> = Vec::new();
        let mut i: usize = 0;
        while i < self.boards.len()
            invariant
                i <= self.boards@.len(),
                pairs == placement_pairs(self.boards@),
                sorted@ == sort_pairs(pairs.subrange(0, i as int)),
            decreases self.boards@.len() - i,
        {
            let p = (self.boards[i].meta_row, self.boards[i].meta_col);
            proof {
                let t = pairs.subrange(0, i + 1);
                assert(t.drop_last() =~= pairs.subrange(0, i as int));
                assert(t.last() == p);
            }
            insert_sorted_pair(&mut sorted, p);
            i += 1;
        }
        assert(pairs.subrange(0, i as int) =~= pairs);
        let bytes = debug_bytes(&sorted);
        let mut hash: u64 = FNV_OFFSET;
        let mut k: usize = 0;
        while k < bytes.len()
            invariant
                k <= bytes@.len(),
                hash == fnv_upto(bytes@, k as int),
            decreases bytes@.len() - k,
        {
            hash ^= bytes[k] as u64;
            hash = hash.wrapping_mul(FNV_PRIME);
            k += 1;
        }
        let mut out = String::new();
        push_hex(&mut out, hash, 16);
        out
    }
}

} // verus!
