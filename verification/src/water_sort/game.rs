use vstd::prelude::*;
use vstd::multiset::Multiset;

verus! {

/// Units a bottle holds when full.
pub const BOTTLE_CAPACITY: usize = 4;

/// A bottle: a stack of colour units, bottom first.
#[derive(Clone, Debug)]
pub struct Bottle {
    pub units: Vec<u8>,
}

/// Length of the run of colour `c` ending at position `n` of `u`.
pub open spec fn run_len(u: Seq<u8>, c: u8, n: int) -> nat
    decreases n,
{
    if n <= 0 {
        0
    } else if u[n - 1] == c {
        1 + run_len(u, c, n - 1)
    } else {
        0
    }
}

/// Number of units of the top colour lying together on top.
pub open spec fn top_run(u: Seq<u8>) -> nat {
    if u.len() == 0 {
        0
    } else {
        run_len(u, u.last(), u.len() as int)
    }
}

/// Every unit has the colour of the bottom unit (true when empty).
pub open spec fn pure(u: Seq<u8>) -> bool {
    forall|i: int| 0 <= i < u.len() ==> #[trigger] u[i] == u[0]
}

/// Full and of one colour.
pub open spec fn complete_bottle(u: Seq<u8>) -> bool {
    u.len() >= 4 && pure(u)
}

/// The bottles as sequences of units.
pub open spec fn model(bottles: Seq<Bottle>) -> Seq<Seq<u8>> {
    Seq::new(bottles.len(), |i: int| bottles[i].units@)
}

/// Every bottle is empty or complete.
pub open spec fn solved(m: Seq<Seq<u8>>) -> bool {
    forall|i: int| 0 <= i < m.len() ==> #[trigger] m[i].len() == 0 || complete_bottle(m[i])
}

/// A pour from `src` to `dst` is allowed: two different bottles, the source
/// not empty and not complete, the destination not full, and the
/// destination empty or topped with the source's top colour.
pub open spec fn pour_ok(m: Seq<Seq<u8>>, src: int, dst: int) -> bool {
    &&& src != dst
    &&& 0 <= src < m.len()
    &&& 0 <= dst < m.len()
    &&& m[src].len() > 0
    &&& m[dst].len() < 4
    &&& !complete_bottle(m[src])
    &&& (m[dst].len() == 0 || m[src].last() == m[dst].last())
}

/// Units a pour moves: the top run of the source, at most the free space.
pub open spec fn pour_amount(m: Seq<Seq<u8>>, src: int, dst: int) -> int {
    if top_run(m[src]) < 4 - m[dst].len() {
        top_run(m[src]) as int
    } else {
        4 - m[dst].len()
    }
}

/// The bottles after a pour.
pub open spec fn poured(m: Seq<Seq<u8>>, src: int, dst: int) -> Seq<Seq<u8>> {
    let n = pour_amount(m, src, dst);
    let c = m[src].last();
    m.update(src, m[src].subrange(0, m[src].len() - n)).update(
        dst,
        m[dst] + Seq::new(n as nat, |i: int| c),
    )
}

/// Every unit in every bottle, as a multiset of colours.
pub open spec fn all_units(m: Seq<Seq<u8>>) -> Multiset<u8>
    decreases m.len(),
{
    if m.len() == 0 {
        Multiset::empty()
    } else {
        all_units(m.drop_last()).add(m.last().to_multiset())
    }
}

proof fn lemma_all_units_update(m: Seq<Seq<u8>>, i: int, v: Seq<u8>)
    requires
        0 <= i < m.len(),
    ensures
        all_units(m.update(i, v)).add(m[i].to_multiset()) =~= all_units(m).add(v.to_multiset()),
    decreases m.len(),
{
    broadcast use vstd::multiset::group_multiset_axioms;

    let u = m.update(i, v);
    assert(all_units(u) == all_units(u.drop_last()).add(u.last().to_multiset()));
    assert(all_units(m) == all_units(m.drop_last()).add(m.last().to_multiset()));
    if i == m.len() - 1 {
        assert(u.drop_last() =~= m.drop_last());
        assert(u.last() == v);
    } else {
        lemma_all_units_update(m.drop_last(), i, v);
        assert(u.drop_last() =~= m.drop_last().update(i, v));
        assert(u.last() == m.last());
        assert(m.drop_last()[i] == m[i]);
    }
    assert forall|x: u8| #[trigger] all_units(u).add(m[i].to_multiset()).count(x) == all_units(m).add(v.to_multiset()).count(x) by {
        if i == m.len() - 1 {
            assert(all_units(u).count(x) == all_units(m.drop_last()).count(x) + v.to_multiset().count(x));
        } else {
            assert(all_units(m.drop_last().update(i, v)).add(m[i].to_multiset()).count(x) == all_units(m.drop_last()).add(v.to_multiset()).count(x));
        }
    }
}

/// A bottle holding four units of one colour is finished: no pour takes
/// from it, whatever the destination.
pub proof fn lemma_finished_bottle_stays(m: Seq<Seq<u8>>, src: int, dst: int)
    requires
        0 <= src < m.len(),
        m[src].len() == 4,
        forall|i: int| 0 <= i < 4 ==> #[trigger] m[src][i] == m[src][0],
    ensures
        !pour_ok(m, src, dst),
{
    assert(complete_bottle(m[src]));
}

/// A pour moves units between bottles: no colour unit is lost or made.
pub proof fn lemma_pour_keeps_units(m: Seq<Seq<u8>>, src: int, dst: int)
    requires
        pour_ok(m, src, dst),
    ensures
        all_units(poured(m, src, dst)) =~= all_units(m),
{
    broadcast use vstd::multiset::group_multiset_axioms;

    let n = pour_amount(m, src, dst);
    let c = m[src].last();
    let len = m[src].len() as int;
    lemma_run_len(m[src], c, len);
    let p = m[src].subrange(0, len - n);
    let top = Seq::new(n as nat, |k: int| c);
    assert(m[src] =~= p + top);
    vstd::seq_lib::lemma_multiset_commutative(p, top);
    vstd::seq_lib::lemma_multiset_commutative(m[dst], top);
    let m1 = m.update(src, p);
    lemma_all_units_update(m, src, p);
    lemma_all_units_update(m1, dst, m[dst] + top);
    assert(m1[dst] == m[dst]);
    let m2 = m1.update(dst, m[dst] + top);
    assert(poured(m, src, dst) == m2);
    assert forall|x: u8| #[trigger] all_units(m2).count(x) == all_units(m).count(x) by {
        assert(all_units(m1).add(m[src].to_multiset()).count(x) == all_units(m).add(p.to_multiset()).count(x));
        assert(all_units(m2).add(m[dst].to_multiset()).count(x) == all_units(m1).add((m[dst] + top).to_multiset()).count(x));
        assert((p + top).to_multiset().count(x) == p.to_multiset().count(x) + top.to_multiset().count(x));
        assert((m[dst] + top).to_multiset().count(x) == m[dst].to_multiset().count(x) + top.to_multiset().count(x));
    }
}

proof fn lemma_run_len(u: Seq<u8>, c: u8, n: int)
    requires
        0 <= n <= u.len(),
    ensures
        run_len(u, c, n) <= n,
        forall|i: int| n - run_len(u, c, n) <= i < n ==> #[trigger] u[i] == c,
    decreases n,
{
    if n > 0 {
        lemma_run_len(u, c, n - 1);
    }
}

/// A run stops at a unit of another colour.
proof fn lemma_run_stops(u: Seq<u8>, c: u8, n: int)
    requires
        0 <= n <= u.len(),
        run_len(u, c, n) < n,
    ensures
        u[n - run_len(u, c, n) - 1] != c,
    decreases n,
{
    if u[n - 1] == c {
        lemma_run_stops(u, c, n - 1);
    }
}

/// Rules of a pour between two different bottles: nothing pours from an
/// empty bottle, into a full one, or onto a different colour; a bottle
/// holding fewer than four units may always pour into an empty bottle or
/// onto its own top colour in a bottle with room.
pub proof fn lemma_pour_rules(m: Seq<Seq<u8>>, src: int, dst: int)
    requires
        0 <= src < m.len(),
        0 <= dst < m.len(),
        src != dst,
    ensures
        m[src].len() == 0 ==> !pour_ok(m, src, dst),
        m[dst].len() >= 4 ==> !pour_ok(m, src, dst),
        m[src].len() > 0 && m[dst].len() > 0 && m[src][m[src].len() - 1] != m[dst][m[dst].len() - 1] ==> !pour_ok(
            m,
            src,
            dst,
        ),
        0 < m[src].len() < 4 && m[dst].len() == 0 ==> pour_ok(m, src, dst),
        0 < m[src].len() < 4 && 0 < m[dst].len() < 4 && m[src][m[src].len() - 1] == m[dst][m[dst].len() - 1]
            ==> pour_ok(m, src, dst),
{
}

/// What an allowed pour does: it moves at least one unit; the units the
/// source loses from its top, all of the source's top colour, are the units
/// the destination gains on its top, the destination stays within four
/// units, and the pour stops only when the destination is full or the
/// source's top colour is used up. Every other bottle is unchanged.
pub proof fn lemma_pour_moves_top_run(m: Seq<Seq<u8>>, src: int, dst: int)
    requires
        pour_ok(m, src, dst),
    ensures
        ({
            let after = poured(m, src, dst);
            let n = m[src].len() - after[src].len();
            let c = m[src][m[src].len() - 1];
            &&& 1 <= n <= m[src].len()
            &&& after[src] == m[src].subrange(0, m[src].len() - n)
            &&& after[dst] == m[dst] + m[src].subrange(m[src].len() - n, m[src].len() as int)
            &&& forall|i: int| m[src].len() - n <= i < m[src].len() ==> #[trigger] m[src][i] == c
            &&& after[dst].len() <= 4
            &&& (after[dst].len() == 4 || after[src].len() == 0 || after[src][after[src].len() - 1] != c)
            &&& after.len() == m.len()
            &&& forall|k: int| 0 <= k < m.len() && k != src && k != dst ==> #[trigger] after[k] == m[k]
        }),
{
    let u = m[src];
    let len = u.len() as int;
    let c = u.last();
    let n = pour_amount(m, src, dst);
    lemma_run_len(u, c, len);
    assert(run_len(u, c, len) >= 1);
    let after = poured(m, src, dst);
    assert(after[src] == u.subrange(0, len - n));
    assert(m[dst] + Seq::new(n as nat, |i: int| c) =~= m[dst] + u.subrange(len - n, len));
    if after[dst].len() < 4 && after[src].len() > 0 {
        assert(n == run_len(u, c, len));
        lemma_run_stops(u, c, len);
        assert(after[src][after[src].len() - 1] == u[len - n - 1]);
    }
}

impl Bottle {
    pub fn new() -> (b: Self)
        ensures
            b.units@.len() == 0,
    {
        Bottle { units: Vec::new() }
    }

    pub fn from_units(units: Vec<u8>) -> (b: Self)
        ensures
            b.units@ == units@,
    {
        Bottle { units }
    }

    pub fn is_empty(&self) -> (e: bool)
        ensures
            e == (self.units@.len() == 0),
    {
        self.units.len() == 0
    }

    /// Holds at least the capacity.
    pub fn is_full(&self) -> (f: bool)
        ensures
            f == (self.units@.len() >= 4),
    {
        self.units.len() >= BOTTLE_CAPACITY
    }

    pub fn len(&self) -> (n: usize)
        ensures
            n == self.units@.len(),
    {
        self.units.len()
    }

    /// Room left below the capacity.
    pub fn free_space(&self) -> (n: usize)
        requires
            self.units@.len() <= 4,
        ensures
            n == 4 - self.units@.len(),
    {
        BOTTLE_CAPACITY - self.units.len()
    }

    /// Colour of the top unit.
    pub fn top_color(&self) -> (c: Option<u8>)
        ensures
            c == if self.units@.len() == 0 {
                None::<u8>
            } else {
                Some(self.units@.last())
            },
    {
        if self.units.len() == 0 {
            None
        } else {
            Some(self.units[self.units.len() - 1])
        }
    }

    /// Number of units of the top colour lying together on top.
    pub fn top_count(&self) -> (n: usize)
        ensures
            n == top_run(self.units@),
    {
        if self.is_empty() {
            return 0;
        }
        let top = self.units[self.units.len() - 1];
        let mut count: usize = 0;
        let mut k = self.units.len();
        while k > 0
            invariant
                k <= self.units@.len(),
                top == self.units@.last(),
                count + k == self.units@.len(),
                self.units@.len() <= usize::MAX,
                count + run_len(self.units@, top, k as int) == top_run(self.units@),
            decreases k,
        {
            if self.units[k - 1] == top {
                count += 1;
                k -= 1;
            } else {
                return count;
            }
        }
        count
    }

    /// Every unit has the same colour (true when empty).
    pub fn is_pure(&self) -> (p: bool)
        ensures
            p == pure(self.units@),
    {
        if self.is_empty() {
            return true;
        }
        let first = self.units[0];
        let mut i: usize = 0;
        while i < self.units.len()
            invariant
                i <= self.units@.len(),
                first == self.units@[0],
                forall|j: int| 0 <= j < i ==> #[trigger] self.units@[j] == first,
            decreases self.units@.len() - i,
        {
            if self.units[i] != first {
                return false;
            }
            i += 1;
        }
        true
    }

    /// Full and of one colour.
    pub fn is_complete(&self) -> (c: bool)
        ensures
            c == complete_bottle(self.units@),
    {
        self.is_full() && self.is_pure()
    }

    /// Puts a unit on top.
    pub fn push(&mut self, color: u8)
        ensures
            final(self).units@ == old(self).units@.push(color),
    {
        self.units.push(color);
    }

    /// Takes the top unit off.
    pub fn pop(&mut self) -> (c: Option<u8>)
        ensures
            old(self).units@.len() == 0 ==> c is None && final(self).units@ == old(self).units@,
            old(self).units@.len() > 0 ==> c == Some(old(self).units@.last()) && final(self).units@
                == old(self).units@.drop_last(),
    {
        self.units.pop()
    }

    /// A copy of the bottle.
    pub fn duplicate(&self) -> (b: Self)
        ensures
            b.units@ == self.units@,
    {
        let mut v: Vec<u8> = Vec::new();
        let mut i: usize = 0;
        while i < self.units.len()
            invariant
                i <= self.units@.len(),
                v@ == self.units@.subrange(0, i as int),
            decreases self.units@.len() - i,
        {
            v.push(self.units[i]);
            assert(v@ =~= self.units@.subrange(0, i + 1));
            i += 1;
        }
        assert(v@ =~= self.units@);
        Bottle { units: v }
    }
}


/// The puzzle: bottles, number of colours, moves made.
#[derive(Clone, Debug)]
pub struct GameState {
    pub bottles: Vec<Bottle>,
    pub num_colors: usize,
    pub moves: u32,
}

impl GameState {
    pub fn new(bottles: Vec<Bottle>, num_colors: usize) -> (g: Self)
        ensures
            model(g.bottles@) == model(bottles@),
            g.num_colors == num_colors,
            g.moves == 0,
    {
        GameState { bottles, num_colors, moves: 0 }
    }

    /// The bottles as sequences of units.
    pub open spec fn view_bottles(&self) -> Seq<Seq<u8>> {
        model(self.bottles@)
    }

    /// True iff every bottle is empty or complete.
    pub fn is_solved(&self) -> (s: bool)
        ensures
            s == solved(self.view_bottles()),
    {
        let mut i: usize = 0;
        while i < self.bottles.len()
            invariant
                i <= self.bottles@.len(),
                forall|j: int| 0 <= j < i ==> #[trigger] self.view_bottles()[j].len() == 0 || complete_bottle(
                    self.view_bottles()[j],
                ),
            decreases self.bottles@.len() - i,
        {
            if !(self.bottles[i].is_empty() || self.bottles[i].is_complete()) {
                assert(!(self.view_bottles()[i as int].len() == 0 || complete_bottle(self.view_bottles()[i as int])));
                return false;
            }
            i += 1;
        }
        true
    }

    /// True iff a pour from `src` to `dst` is allowed.
    pub fn can_pour(&self, src: usize, dst: usize) -> (ok: bool)
        ensures
            ok == pour_ok(self.view_bottles(), src as int, dst as int),
    {
        if src == dst || src >= self.bottles.len() || dst >= self.bottles.len() {
            return false;
        }
        let s = &self.bottles[src];
        let d = &self.bottles[dst];
        if s.is_empty() || d.is_full() {
            return false;
        }
        if s.is_complete() {
            return false;
        }
        if d.is_empty() {
            return true;
        }
        s.top_color() == d.top_color()
    }

    /// Pours the top run of `src` onto `dst`, as much as fits, and counts a
    /// move. Returns the units poured; 0 (nothing changes) when the pour is
    /// not allowed.
    pub fn pour(&mut self, src: usize, dst: usize) -> (n: usize)
        requires
            pour_ok(old(self).view_bottles(), src as int, dst as int) ==> old(self).moves < u32::MAX,
        ensures
            !pour_ok(old(self).view_bottles(), src as int, dst as int) ==> n == 0 && final(self).view_bottles()
                == old(self).view_bottles() && final(self).moves == old(self).moves,
            pour_ok(old(self).view_bottles(), src as int, dst as int) ==> {
                &&& n == pour_amount(old(self).view_bottles(), src as int, dst as int)
                &&& final(self).view_bottles() == poured(old(self).view_bottles(), src as int, dst as int)
                &&& final(self).moves == old(self).moves + 1
            },
            final(self).num_colors == old(self).num_colors,
    {
        if !self.can_pour(src, dst) {
            return 0;
        }
        let ghost m = self.view_bottles();
        let src_top = self.bottles[src].top_color().unwrap();
        let src_count = self.bottles[src].top_count();
        let dst_space = self.bottles[dst].free_space();
        let to_pour = if src_count < dst_space {
            src_count
        } else {
            dst_space
        };
        proof {
            lemma_run_len(m[src as int], m[src as int].last(), m[src as int].len() as int);
        }
        let mut k: usize = 0;
        while k < to_pour
            invariant
                k <= to_pour,
                to_pour <= m[src as int].len(),
                src < self.bottles@.len(),
                self.bottles@.len() == m.len(),
                forall|j: int| 0 <= j < m.len() && j != src ==> #[trigger] self.bottles@[j].units@ == m[j],
                self.bottles@[src as int].units@ == m[src as int].subrange(0, m[src as int].len() - k),
                self.moves == old(self).moves,
                self.num_colors == old(self).num_colors,
            decreases to_pour - k,
        {
            let mut b = self.bottles[src].duplicate();
            b.pop();
            self.bottles.set(src, b);
            assert(self.bottles@[src as int].units@ =~= m[src as int].subrange(0, m[src as int].len() - (k + 1)));
            k += 1;
        }
        let ghost mid = self.view_bottles();
        let mut k: usize = 0;
        while k < to_pour
            invariant
                k <= to_pour,
                dst < self.bottles@.len(),
                src != dst,
                self.bottles@.len() == m.len(),
                forall|j: int| 0 <= j < m.len() && j != dst ==> #[trigger] self.bottles@[j].units@ == mid[j],
                mid.len() == m.len(),
                mid[dst as int] == m[dst as int],
                self.bottles@[dst as int].units@ == m[dst as int] + Seq::new(k as nat, |i: int| src_top),
                self.moves == old(self).moves,
                self.num_colors == old(self).num_colors,
            decreases to_pour - k,
        {
            let mut b = self.bottles[dst].duplicate();
            b.push(src_top);
            self.bottles.set(dst, b);
            assert(self.bottles@[dst as int].units@ =~= m[dst as int] + Seq::new((k + 1) as nat, |i: int| src_top));
            k += 1;
        }
        self.moves += 1;
        assert(self.view_bottles() =~= poured(m, src as int, dst as int));
        to_pour
    }

    /// The bottles' units sorted (lexicographically), so that states that
    /// differ only by the order of the bottles compare equal.
    pub fn canonical(&self) -> (c: Vec<Vec<u8>>)
        ensures
            uviews(c@).to_multiset() == self.view_bottles().to_multiset(),
            sorted_lex(uviews(c@)),
    {
        let mut sorted: Vec<Vec<u8>> = Vec::new();
        assert(uviews(sorted@) =~= self.view_bottles().subrange(0, 0));
        let mut i: usize = 0;
        while i < self.bottles.len()
            invariant
                i <= self.bottles@.len(),
                uviews(sorted@).to_multiset() == self.view_bottles().subrange(0, i as int).to_multiset(),
                sorted_lex(uviews(sorted@)),
            decreases self.bottles@.len() - i,
        {
            let u = self.bottles[i].duplicate().units;
            insert_sorted(&mut sorted, u);
            proof {
                let vb = self.view_bottles();
                assert(vb.subrange(0, i + 1) =~= vb.subrange(0, i as int).push(vb[i as int]));
                vstd::seq_lib::to_multiset_build(vb.subrange(0, i as int), vb[i as int]);
            }
            i += 1;
        }
        assert(self.view_bottles().subrange(0, self.bottles@.len() as int) =~= self.view_bottles());
        sorted
    }

    /// A copy of the state.
    pub fn duplicate(&self) -> (g: Self)
        ensures
            g.view_bottles() == self.view_bottles(),
            g.num_colors == self.num_colors,
            g.moves == self.moves,
    {
        let mut v: Vec<Bottle> = Vec::new();
        let mut i: usize = 0;
        while i < self.bottles.len()
            invariant
                i <= self.bottles@.len(),
                v@.len() == i,
                forall|j: int| 0 <= j < i ==> #[trigger] v@[j].units@ == self.bottles@[j].units@,
            decreases self.bottles@.len() - i,
        {
            v.push(self.bottles[i].duplicate());
            i += 1;
        }
        assert(model(v@) =~= model(self.bottles@));
        GameState { bottles: v, num_colors: self.num_colors, moves: self.moves }
    }
}

/// The units of each vector.
pub open spec fn uviews(v: Seq<Vec<u8>>) -> Seq<Seq<u8>> {
    Seq::new(v.len(), |i: int| v[i]@)
}

/// Each element is lexicographically at most every later one.
pub open spec fn sorted_lex(s: Seq<Seq<u8>>) -> bool {
    forall|i: int, j: int| 0 <= i < j < s.len() ==> lex_le(#[trigger] s[i], #[trigger] s[j])
}

/// `a` comes before or equals `b` in lexicographic order.
pub open spec fn lex_le(a: Seq<u8>, b: Seq<u8>) -> bool
    decreases a.len(),
{
    if a.len() == 0 {
        true
    } else if b.len() == 0 {
        false
    } else if a[0] != b[0] {
        a[0] < b[0]
    } else {
        lex_le(a.drop_first(), b.drop_first())
    }
}


/// Lexicographic order is total.
pub proof fn lemma_lex_total(a: Seq<u8>, b: Seq<u8>)
    ensures
        lex_le(a, b) || lex_le(b, a),
    decreases a.len(),
{
    if a.len() > 0 && b.len() > 0 && a[0] == b[0] {
        lemma_lex_total(a.drop_first(), b.drop_first());
    }
}

/// Lexicographic order is transitive.
pub proof fn lemma_lex_trans(a: Seq<u8>, b: Seq<u8>, c: Seq<u8>)
    requires
        lex_le(a, b),
        lex_le(b, c),
    ensures
        lex_le(a, c),
    decreases a.len(),
{
    if a.len() > 0 && b.len() > 0 && c.len() > 0 && a[0] == b[0] && b[0] == c[0] {
        lemma_lex_trans(a.drop_first(), b.drop_first(), c.drop_first());
    }
}

/// Comparing after an equal prefix of length `i`.
proof fn lemma_lex_skip(a: Seq<u8>, b: Seq<u8>, i: int)
    requires
        0 <= i <= a.len(),
        i <= b.len(),
        forall|k: int| 0 <= k < i ==> #[trigger] a[k] == b[k],
    ensures
        lex_le(a, b) == lex_le(a.skip(i), b.skip(i)),
    decreases i,
{
    if i > 0 {
        lemma_lex_skip(a.drop_first(), b.drop_first(), i - 1);
        assert(a.drop_first().skip(i - 1) =~= a.skip(i));
        assert(b.drop_first().skip(i - 1) =~= b.skip(i));
    } else {
        assert(a.skip(0) =~= a);
        assert(b.skip(0) =~= b);
    }
}

/// True iff `a` comes before or equals `b` lexicographically.
fn lex_le_exec(a: &Vec<u8>, b: &Vec<u8>) -> (r: bool)
    ensures
        r == lex_le(a@, b@),
{
    let mut i: usize = 0;
    while i < a.len() && i < b.len()
        invariant
            i <= a@.len(),
            i <= b@.len(),
            forall|k: int| 0 <= k < i ==> #[trigger] a@[k] == b@[k],
        decreases a@.len() - i,
    {
        if a[i] != b[i] {
            proof {
                lemma_lex_skip(a@, b@, i as int);
            }
            return a[i] < b[i];
        }
        i += 1;
    }
    proof {
        lemma_lex_skip(a@, b@, i as int);
    }
    i == a.len()
}

/// Inserts `x` after every element that is lexicographically at most `x`,
/// keeping the vector sorted.
fn insert_sorted(v: &mut Vec<Vec<u8>>, x: Vec<u8>)
    requires
        sorted_lex(uviews(old(v)@)),
    ensures
        sorted_lex(uviews(final(v)@)),
        uviews(final(v)@).to_multiset() == uviews(old(v)@).to_multiset().insert(x@),
{
    let ghost d = uviews(v@);
    let mut pos: usize = 0;
    while pos < v.len() && lex_le_exec(&v[pos], &x)
        invariant
            pos <= v@.len(),
            d == uviews(v@),
            forall|k: int| 0 <= k < pos ==> lex_le(#[trigger] d[k], x@),
        decreases v@.len() - pos,
    {
        pos += 1;
    }
    let ghost xv = x@;
    v.insert(pos, x);
    assert(uviews(v@) =~= d.insert(pos as int, xv));
    proof {
        vstd::seq_lib::to_multiset_insert(d, pos as int, xv);
        let e = uviews(v@);
        assert forall|i: int, j: int| 0 <= i < j < e.len() implies lex_le(e[i], e[j]) by {
            if j < pos {
                assert(lex_le(d[i], d[j]));
            } else if j == pos {
                assert(lex_le(d[i], xv));
            } else if i < pos {
                assert(lex_le(d[i], xv));
                if pos < d.len() {
                    lemma_lex_total(d[pos as int], xv);
                    assert(lex_le(xv, d[pos as int]));
                    if pos as int != j - 1 {
                        assert(lex_le(d[pos as int], d[j - 1]));
                        lemma_lex_trans(xv, d[pos as int], d[j - 1]);
                    }
                    lemma_lex_trans(d[i], xv, d[j - 1]);
                }
            } else if i == pos {
                lemma_lex_total(d[pos as int], xv);
                if pos as int != j - 1 {
                    assert(lex_le(d[pos as int], d[j - 1]));
                    lemma_lex_trans(xv, d[pos as int], d[j - 1]);
                }
            } else {
                assert(lex_le(d[i - 1], d[j - 1]));
            }
        }
    }
}

} // verus!
