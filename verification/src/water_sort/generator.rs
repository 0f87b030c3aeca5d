use vstd::prelude::*;
use crate::entropy::get_seed;
use crate::water_sort::game::{Bottle, GameState, BOTTLE_CAPACITY, model, solved};
use crate::water_sort::solver::{is_solvable, solves, Move, MAX_STATES};
use crate::water_sort::search::gives_up;
use crate::xorshift::{xorshift, xorshift_step, shuffle_from, lemma_shuffle_permutes};
use crate::text::str_eq;

verus! {

/// Pseudo-random generator (xorshift64) used to deal puzzles.
pub struct Rng {
    pub state: u64,
}

impl Rng {
    /// A generator seeded with `seed`; a zero seed becomes 1.
    pub fn new(seed: u64) -> (r: Self)
        ensures
            r.state == if seed == 0 {
                1
            } else {
                seed
            },
    {
        Rng { state: if seed == 0 { 1 } else { seed } }
    }

    /// Advances the state by one xorshift64 step and returns it.
    pub fn next(&mut self) -> (n: u64)
        ensures
            n == xorshift(old(self).state),
            final(self).state == n,
    {
        self.state = xorshift_step(self.state);
        self.state
    }

    /// The next value reduced modulo `max`.
    pub fn range(&mut self, max: usize) -> (v: usize)
        requires
            max > 0,
        ensures
            final(self).state == xorshift(old(self).state),
            v == final(self).state % (max as u64),
            v < max,
    {
        (self.next() % max as u64) as usize
    }

    /// Fisher-Yates shuffle: for i from the last index down to 1, swaps
    /// index i with index `range(i + 1)`.
    pub fn shuffle<T: Copy>(&mut self, v: &mut Vec<T>)
        ensures
            (final(v)@, final(self).state) == shuffle_from(old(v)@, old(self).state, old(v)@.len() - 1),
    {
        let n = v.len();
        if n == 0 {
            return;
        }
        let mut i = n - 1;
        while i >= 1
            invariant
                i < n,
                v@.len() == n,
                shuffle_from(v@, self.state, i as int) == shuffle_from(
                    old(v)@,
                    old(self).state,
                    n - 1,
                ),
            decreases i,
        {
            let j = self.range(i + 1);
            let a = v[i];
            let b = v[j];
            v.set(i, b);
            v.set(j, a);
            i -= 1;
        }
    }
}

/// Difficulty: the number of colours.
#[derive(Clone, Copy, Debug, PartialEq, Eq, Structural)]
pub enum Difficulty {
    Easy,
    Medium,
    Hard,
}

/// Colours for a difficulty.
pub open spec fn colors_of(d: Difficulty) -> usize {
    match d {
        Difficulty::Easy => 4,
        Difficulty::Medium => 7,
        Difficulty::Hard => 10,
    }
}

impl Difficulty {
    /// Number of colours: 4, 7 or 10.
    pub fn num_colors(self) -> (n: usize)
        ensures
            n == colors_of(self),
    {
        match self {
            Difficulty::Easy => 4,
            Difficulty::Medium => 7,
            Difficulty::Hard => 10,
        }
    }

    /// Number of empty bottles: always 2.
    pub fn num_empty(self) -> (n: usize)
        ensures
            n == 2,
    {
        2
    }
}

/// The difficulty named by `s` ("easy", "hard"); anything else is Medium.
pub fn difficulty_from_str(s: &str) -> (d: Difficulty)
    ensures
        d == if s@ == "easy"@ {
            Difficulty::Easy
        } else if s@ == "hard"@ {
            Difficulty::Hard
        } else {
            Difficulty::Medium
        },
{
    if str_eq(s, "easy") {
        Difficulty::Easy
    } else if str_eq(s, "hard") {
        Difficulty::Hard
    } else {
        Difficulty::Medium
    }
}

/// Four units of each colour 1..=n, colour by colour.
pub open spec fn pool_of(n: int) -> Seq<u8> {
    Seq::new((4 * n) as nat, |i: int| (i / 4 + 1) as u8)
}

/// The bottles dealt from a shuffled pool: bottle i holds units 4i..4i+4
/// of the pool for each colour, then `empties` empty bottles.
pub open spec fn dealt(pool: Seq<u8>, colors: int, empties: int) -> Seq<Seq<u8>> {
    Seq::new(
        (colors + empties) as nat,
        |i: int|
            if i < colors {
                pool.subrange(4 * i, 4 * i + 4)
            } else {
                Seq::empty()
            },
    )
}

/// One deal: four units of each colour, shuffled, poured four to a bottle,
/// then two empty bottles.
pub fn deal(difficulty: Difficulty, rng: &mut Rng) -> (g: GameState)
    ensures
        ({
            let n = colors_of(difficulty) as int;
            let (sh, st) = shuffle_from(pool_of(n), old(rng).state, 4 * n - 1);
            &&& g.view_bottles() == dealt(sh, n, 2)
            &&& final(rng).state == st
        }),
        g.num_colors == colors_of(difficulty),
        g.moves == 0,
{
    let num_colors = difficulty.num_colors();
    let num_empty = difficulty.num_empty();
    let num_bottles = num_colors + num_empty;
    let mut pool: Vec<u8> = Vec::with_capacity(num_colors * BOTTLE_CAPACITY);
    let mut color: u8 = 1;
    while color as usize <= num_colors
        invariant
            1 <= color <= 11,
            num_colors <= 10,
            color as usize <= num_colors + 1,
            pool@ == pool_of((color - 1) as int),
        decreases num_colors + 1 - color as usize,
    {
        let mut k: usize = 0;
        while k < BOTTLE_CAPACITY
            invariant
                k <= 4,
                1 <= color <= 10,
                pool@.len() == 4 * (color - 1) + k,
                forall|i: int| 0 <= i < pool@.len() ==> #[trigger] pool@[i] == (i / 4 + 1) as u8,
            decreases 4 - k,
        {
            pool.push(color);
            k += 1;
        }
        assert(pool@ =~= pool_of(color as int));
        color += 1;
    }
    let ghost st0 = rng.state;
    proof {
        lemma_shuffle_permutes(pool@, st0, pool@.len() - 1);
    }
    rng.shuffle(&mut pool);
    let ghost sh = pool@;
    assert(sh.len() == 4 * num_colors);
    let mut bottles: Vec<Bottle> = Vec::with_capacity(num_bottles);
    let mut i: usize = 0;
    while i < num_colors
        invariant
            i <= num_colors,
            num_colors <= 10,
            pool@ == sh,
            sh.len() == 4 * num_colors,
            bottles@.len() == i,
            forall|j: int| 0 <= j < i ==> #[trigger] bottles@[j].units@ == sh.subrange(4 * j, 4 * j + 4),
        decreases num_colors - i,
    {
        let start = i * BOTTLE_CAPACITY;
        let end = start + BOTTLE_CAPACITY;
        let mut units: Vec<u8> = Vec::new();
        let mut k = start;
        while k < end
            invariant
                start <= k <= end,
                end == start + 4,
                end <= sh.len(),
                pool@ == sh,
                units@ == sh.subrange(start as int, k as int),
            decreases end - k,
        {
            units.push(pool[k]);
            assert(units@ =~= sh.subrange(start as int, k + 1));
            k += 1;
        }
        bottles.push(Bottle::from_units(units));
        i += 1;
    }
    let mut e: usize = 0;
    while e < num_empty
        invariant
            e <= num_empty,
            num_empty == 2,
            num_colors <= 10,
            sh.len() == 4 * num_colors,
            bottles@.len() == num_colors + e,
            forall|j: int| 0 <= j < num_colors ==> #[trigger] bottles@[j].units@ == sh.subrange(4 * j, 4 * j + 4),
            forall|j: int| num_colors <= j < bottles@.len() ==> #[trigger] bottles@[j].units@.len() == 0,
        decreases num_empty - e,
    {
        bottles.push(Bottle::new());
        e += 1;
    }
    let ghost b = bottles@;
    let g = GameState::new(bottles, num_colors);
    assert forall|j: int| 0 <= j < b.len() implies #[trigger] model(b)[j] == dealt(sh, num_colors as int, 2)[j] by {
        if j < num_colors {
            assert(b[j].units@ == sh.subrange(4 * j, 4 * j + 4));
        } else {
            assert(b[j].units@.len() == 0);
        }
    }
    assert(model(b) =~= dealt(sh, num_colors as int, 2));
    g
}

/// One attempt at a puzzle: a deal that is kept only when it is not
/// already solved and the solver finds a way to solve it. Callers repeat
/// the attempt with the same generator until one is kept.
pub fn try_generate(difficulty: Difficulty, rng: &mut Rng) -> (r: Option<GameState>)
    ensures
        ({
            let n = colors_of(difficulty) as int;
            let (sh, st) = shuffle_from(pool_of(n), old(rng).state, 4 * n - 1);
            &&& final(rng).state == st
            &&& solved(dealt(sh, n, 2)) ==> r is None
            &&& !solved(dealt(sh, n, 2)) && (exists|ms: Seq<Move>| #[trigger] solves(dealt(sh, n, 2), ms)) && !gives_up(
                dealt(sh, n, 2),
                MAX_STATES as int,
            ) ==> r is Some
            &&& r matches Some(g) ==> {
                &&& g.view_bottles() == dealt(sh, n, 2)
                &&& !solved(g.view_bottles())
                &&& exists|ms: Seq<Move>| solves(g.view_bottles(), ms)
                &&& g.num_colors == n
                &&& g.moves == 0
            }
        }),
{
    let state = deal(difficulty, rng);
    if state.is_solved() {
        return None;
    }
    if is_solvable(&state) {
        Some(state)
    } else {
        None
    }
}

/// The generator state before try `k` of a puzzle with `n` colours, from
/// the state `st`: each try shuffles the pool of units once.
pub open spec fn try_state(n: int, st: u64, k: nat) -> u64
    decreases k,
{
    if k == 0 {
        st
    } else {
        shuffle_from(pool_of(n), try_state(n, st, (k - 1) as nat), 4 * n - 1).1
    }
}

/// The bottles dealt by try `k`.
pub open spec fn try_deal(n: int, st: u64, k: nat) -> Seq<Seq<u8>> {
    dealt(shuffle_from(pool_of(n), try_state(n, st, k), 4 * n - 1).0, n, 2)
}

/// A deal that a try may pass over: already solved, solved by no sequence of
/// pours, or one on which the search gives up. Every other deal is kept.
pub open spec fn may_pass(m: Seq<Seq<u8>>) -> bool {
    solved(m) || !(exists|ms: Seq<Move>| #[trigger] solves(m, ms)) || gives_up(m, MAX_STATES as int)
}

/// Try `k` from the state `st` is the first kept: its deal is `m`, neither
/// solved nor unsolvable, every earlier deal was one a try may pass over,
/// and `st2` is the state after it.
pub open spec fn kept_at(n: int, st: u64, k: nat, m: Seq<Seq<u8>>, st2: u64) -> bool {
    &&& k < u64::MAX
    &&& m == try_deal(n, st, k)
    &&& !solved(m)
    &&& exists|ms: Seq<Move>| solves(m, ms)
    &&& forall|j: nat| j < k ==> #[trigger] may_pass(try_deal(n, st, j))
    &&& st2 == try_state(n, st, k + 1)
}

/// Every one of the `u64::MAX` tries from the state `st` deals bottles that a
/// try may pass over.
pub open spec fn all_tries_pass(n: int, st: u64) -> bool {
    forall|k: nat| k < u64::MAX ==> #[trigger] may_pass(try_deal(n, st, k))
}

/// A puzzle for `difficulty`: deals are tried with the generator `rng`
/// until one is kept (see `try_generate`), at most `u64::MAX` times. The
/// puzzle is the deal of the first try kept; every earlier deal was one a
/// try may pass over, and None comes only when every try passed.
pub fn generate_with(difficulty: Difficulty, rng: &mut Rng) -> (r: Option<GameState>)
    ensures
        ({
            let n = colors_of(difficulty) as int;
            &&& r is None ==> final(rng).state == try_state(n, old(rng).state, u64::MAX as nat) && forall|k: nat|
                k < u64::MAX ==> #[trigger] may_pass(try_deal(n, old(rng).state, k))
            &&& r matches Some(g) ==> exists|k: nat| #[trigger] kept_at(n, old(rng).state, k, g.view_bottles(), final(rng).state)
            &&& r matches Some(g) ==> g.num_colors == n && g.moves == 0
        }),
{
    let ghost n = colors_of(difficulty) as int;
    let ghost st0 = rng.state;
    let mut tries: u64 = 0;
    while tries < u64::MAX
        invariant
            n == colors_of(difficulty) as int,
            rng.state == try_state(n, st0, tries as nat),
            st0 == old(rng).state,
            forall|j: nat| j < tries ==> #[trigger] may_pass(try_deal(n, st0, j)),
        decreases u64::MAX - tries,
    {
        let ghost k = tries as nat;
        let r = try_generate(difficulty, rng);
        proof {
            assert(try_state(n, st0, k + 1) == shuffle_from(pool_of(n), try_state(n, st0, k), 4 * n - 1).1);
        }
        if let Some(g) = r {
            proof {
                assert(g.view_bottles() == try_deal(n, st0, k));
                assert(rng.state == try_state(n, st0, k + 1));
                assert(forall|j: nat| j < k ==> #[trigger] may_pass(try_deal(n, st0, j)));
                assert(kept_at(n, st0, k, g.view_bottles(), rng.state));
                assert(st0 == old(rng).state);
                assert(n == colors_of(difficulty) as int);
                assert(kept_at(colors_of(difficulty) as int, old(rng).state, k, g.view_bottles(), rng.state));
            }
            return Some(g);
        }
        proof {
            assert(may_pass(try_deal(n, st0, k)));
            assert forall|j: nat| j < tries + 1 implies #[trigger] may_pass(try_deal(n, st0, j)) by {
                if j < tries {
                }
            }
        }
        tries += 1;
    }
    None
}

/// A puzzle for `difficulty` from a fresh seed; see `generate_with`.
pub fn generate(difficulty: Difficulty) -> (r: Option<GameState>)
    ensures
        r matches Some(g) ==> {
            &&& !solved(g.view_bottles())
            &&& exists|ms: Seq<Move>| solves(g.view_bottles(), ms)
            &&& g.num_colors == colors_of(difficulty)
            &&& g.moves == 0
        },
        r matches Some(g) ==> exists|st: u64, k: nat|
            k < u64::MAX && g.view_bottles() == #[trigger] try_deal(colors_of(difficulty) as int, st, k) && forall|j: nat|
                j < k ==> #[trigger] may_pass(try_deal(colors_of(difficulty) as int, st, j)),
        r is None ==> exists|st: u64| #[trigger] all_tries_pass(colors_of(difficulty) as int, st),
{
    let mut rng = Rng::new(get_seed());
    let ghost st = rng.state;
    let r = generate_with(difficulty, &mut rng);
    proof {
        if r is None {
            assert(all_tries_pass(colors_of(difficulty) as int, st));
        }
    }
    r
}

} // verus!
