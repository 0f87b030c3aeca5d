use vstd::prelude::*;
use crate::entropy::get_seed;
use crate::xorshift::{xorshift, xorshift_step};

verus! {

/// Axial hex coordinate.
#[derive(Clone, Copy, Debug, PartialEq, Eq, Structural, Hash)]
pub struct Hex {
    pub q: i32,
    pub r: i32,
}

/// The six axial directions, in the order of their indices 0..=5.
#[derive(Clone, Copy, Debug, PartialEq, Eq, Structural)]
pub enum Direction {
    E,
    NE,
    NW,
    W,
    SW,
    SE,
}

/// Change of `q` for one step in direction `d`.
pub open spec fn dq(d: Direction) -> int {
    match d {
        Direction::E => 1,
        Direction::NE => 1,
        Direction::NW => 0,
        Direction::W => -1,
        Direction::SW => -1,
        Direction::SE => 0,
    }
}

/// Change of `r` for one step in direction `d`.
pub open spec fn dr(d: Direction) -> int {
    match d {
        Direction::E => 0,
        Direction::NE => -1,
        Direction::NW => -1,
        Direction::W => 0,
        Direction::SW => 1,
        Direction::SE => 1,
    }
}

/// Index of a direction: E, NE, NW, W, SW, SE are 0 to 5.
pub open spec fn dir_index(d: Direction) -> int {
    match d {
        Direction::E => 0,
        Direction::NE => 1,
        Direction::NW => 2,
        Direction::W => 3,
        Direction::SW => 4,
        Direction::SE => 5,
    }
}

/// The direction with index `i` (0..6), counter-clockwise from east.
pub open spec fn direction_at(i: int) -> Direction {
    if i == 0 {
        Direction::E
    } else if i == 1 {
        Direction::NE
    } else if i == 2 {
        Direction::NW
    } else if i == 3 {
        Direction::W
    } else if i == 4 {
        Direction::SW
    } else {
        Direction::SE
    }
}

/// Coordinates whose absolute values and sum a 32-bit board computes
/// without overflow.
pub open spec fn coords_ok(q: int, r: int) -> bool {
    &&& i32::MIN < q <= i32::MAX
    &&& i32::MIN < r <= i32::MAX
    &&& i32::MIN < q + r <= i32::MAX
}

/// One step from `h` in direction `d` stays within 32-bit coordinates.
pub open spec fn can_step(h: Hex, d: Direction) -> bool {
    coords_ok(h.q + dq(d), h.r + dr(d))
}

impl Hex {
    pub fn new(q: i32, r: i32) -> (h: Self)
        ensures
            h.q == q,
            h.r == r,
    {
        Hex { q, r }
    }

    /// The neighbour in direction `dir`.
    pub fn step(self, dir: Direction) -> (h: Hex)
        requires
            i32::MIN <= self.q + dq(dir) <= i32::MAX,
            i32::MIN <= self.r + dr(dir) <= i32::MAX,
        ensures
            h.q == self.q + dq(dir),
            h.r == self.r + dr(dir),
    {
        let (a, b) = dir.delta();
        Hex::new(self.q + a, self.r + b)
    }
}

impl Direction {
    /// The (q, r) change of one step.
    pub fn delta(self) -> (d: (i32, i32))
        ensures
            d.0 == dq(self),
            d.1 == dr(self),
    {
        match self {
            Direction::E => (1, 0),
            Direction::NE => (1, -1),
            Direction::NW => (0, -1),
            Direction::W => (-1, 0),
            Direction::SW => (-1, 1),
            Direction::SE => (0, 1),
        }
    }

    /// The direction with index `i`, if `i < 6`.
    pub fn from_index(i: usize) -> (d: Option<Direction>)
        ensures
            d is Some <==> i < 6,
            d matches Some(x) ==> dir_index(x) == i && x == direction_at(i as int),
    {
        match i {
            0 => Some(Direction::E),
            1 => Some(Direction::NE),
            2 => Some(Direction::NW),
            3 => Some(Direction::W),
            4 => Some(Direction::SW),
            5 => Some(Direction::SE),
            _ => None,
        }
    }
}

/// A board position: empty, or a tile that slides in one direction.
#[derive(Clone, Copy, Debug, PartialEq, Eq, Structural)]
pub enum Cell {
    Empty,
    Tile(Direction),
}

/// What playing a position did.
#[derive(Clone, Copy, Debug, PartialEq, Eq, Structural)]
pub enum Move {
    Removed,
    Blocked,
    Empty,
}

/// The board entry `c` is at coordinates (q, r).
pub open spec fn hit(c: (Hex, Cell), q: int, r: int) -> bool {
    c.0.q == q && c.0.r == r
}

/// Index of the first entry at (q, r); -1 when there is none.
pub open spec fn find(cells: Seq<(Hex, Cell)>, q: int, r: int) -> int
    decreases cells.len(),
{
    if cells.len() == 0 {
        -1
    } else if hit(cells[0], q, r) {
        0
    } else {
        let k = find(cells.drop_first(), q, r);
        if k < 0 {
            -1
        } else {
            k + 1
        }
    }
}

/// The cell of the first entry at (q, r), if any.
pub open spec fn lookup(cells: Seq<(Hex, Cell)>, q: int, r: int) -> Option<Cell> {
    let k = find(cells, q, r);
    if k < 0 {
        None
    } else {
        Some(cells[k].1)
    }
}

/// The entries with the first one at (q, r) holding `c` instead.
pub open spec fn with_cell(cells: Seq<(Hex, Cell)>, q: int, r: int, c: Cell) -> Seq<(Hex, Cell)> {
    let k = find(cells, q, r);
    if k < 0 {
        cells
    } else {
        cells.update(k, (cells[k].0, c))
    }
}

/// (q, r) lies on the hexagon of the given radius.
pub open spec fn on_board_at(radius: int, q: int, r: int) -> bool {
    &&& -radius <= q <= radius
    &&& -radius <= r <= radius
    &&& -radius <= q + r <= radius
}

/// Progress along direction `d`: grows by 2 at each step and is at most
/// twice the radius on the board.
pub open spec fn dot(q: int, r: int, d: Direction) -> int {
    match d {
        Direction::E => 2 * q + r,
        Direction::NE => q - r,
        Direction::NW => -q - 2 * r,
        Direction::W => -2 * q - r,
        Direction::SW => r - q,
        Direction::SE => q + 2 * r,
    }
}

/// Walking from (q, r) in direction `d`, every position met before leaving
/// the board holds an empty cell.
pub open spec fn clear_walk(cells: Seq<(Hex, Cell)>, radius: int, q: int, r: int, d: Direction) -> bool
    decreases 2 * radius + 2 - dot(q, r, d),
{
    if !on_board_at(radius, q, r) {
        true
    } else if lookup(cells, q, r) != Some(Cell::Empty) {
        false
    } else {
        clear_walk(cells, radius, q + dq(d), r + dr(d), d)
    }
}

/// Walking from (q, r) in direction `d`: the number of empty cells met
/// before a non-empty one or the edge of the board.
pub open spec fn empty_run(cells: Seq<(Hex, Cell)>, radius: int, q: int, r: int, d: Direction) -> int
    decreases 2 * radius + 2 - dot(q, r, d),
{
    if !on_board_at(radius, q, r) {
        0
    } else if lookup(cells, q, r) != Some(Cell::Empty) {
        0
    } else {
        1 + empty_run(cells, radius, q + dq(d), r + dr(d), d)
    }
}

/// The direction of the tile at `h`, if there is one.
pub open spec fn tile_at(cells: Seq<(Hex, Cell)>, h: Hex) -> Option<Direction> {
    match lookup(cells, h.q as int, h.r as int) {
        Some(Cell::Tile(d)) => Some(d),
        _ => None,
    }
}

/// There is a tile at `h` and its path off the board is clear.
pub open spec fn slides_off(cells: Seq<(Hex, Cell)>, radius: int, h: Hex) -> bool {
    tile_at(cells, h) matches Some(d) && clear_walk(cells, radius, h.q + dq(d), h.r + dr(d), d)
}

/// `k` steps are one step and `k - 1` more.
proof fn lemma_one_step_more(k: int, x: int)
    by (nonlinear_arith)
    requires
        k >= 1,
    ensures
        k * x == x + (k - 1) * x,
{
}

/// A walk that stays clear from an on-board start finds every on-board
/// position `k` steps along it empty.
proof fn lemma_walk_empty(cells: Seq<(Hex, Cell)>, radius: int, q: int, r: int, d: Direction, k: nat)
    requires
        clear_walk(cells, radius, q, r, d),
        on_board_at(radius, q, r),
        on_board_at(radius, q + k * dq(d), r + k * dr(d)),
    ensures
        lookup(cells, q + k * dq(d), r + k * dr(d)) == Some(Cell::Empty),
    decreases k,
{
    assert(lookup(cells, q, r) == Some(Cell::Empty));
    if k == 0 {
        assert(0 * dq(d) == 0 && 0 * dr(d) == 0);
    } else {
        let k1 = (k - 1) as nat;
        lemma_one_step_more(k as int, dq(d));
        lemma_one_step_more(k as int, dr(d));
        assert(on_board_at(radius, q + dq(d), r + dr(d))) by {
            match d {
                Direction::E => {},
                Direction::NE => {},
                Direction::NW => {},
                Direction::W => {},
                Direction::SW => {},
                Direction::SE => {},
            }
        }
        lemma_walk_empty(cells, radius, q + dq(d), r + dr(d), d, k1);
    }
}

/// A tile slides off only over empty positions: when the tile at `h`,
/// pointing in direction `d`, slides off, every on-board position `k >= 1`
/// steps from `h` in direction `d` is empty (a tile anywhere on the path,
/// whatever its direction, blocks the slide).
pub proof fn lemma_slide_path_empty(cells: Seq<(Hex, Cell)>, radius: int, h: Hex, d: Direction, k: nat)
    requires
        tile_at(cells, h) == Some(d),
        slides_off(cells, radius, h),
        k >= 1,
        on_board_at(radius, h.q + dq(d), h.r + dr(d)),
        on_board_at(radius, h.q + k * dq(d), h.r + k * dr(d)),
    ensures
        lookup(cells, h.q + k * dq(d), h.r + k * dr(d)) == Some(Cell::Empty),
{
    let k1 = (k - 1) as nat;
    lemma_one_step_more(k as int, dq(d));
    lemma_one_step_more(k as int, dr(d));
    lemma_walk_empty(cells, radius, h.q + dq(d), h.r + dr(d), d, k1);
}

/// The board after playing `hexes` in order, each of which slides off;
/// None when one of them does not.
pub open spec fn clear_after(cells: Seq<(Hex, Cell)>, radius: int, hexes: Seq<Hex>) -> Option<Seq<(Hex, Cell)>>
    decreases hexes.len(),
{
    if hexes.len() == 0 {
        Some(cells)
    } else if slides_off(cells, radius, hexes[0]) {
        clear_after(
            with_cell(cells, hexes[0].q as int, hexes[0].r as int, Cell::Empty),
            radius,
            hexes.drop_first(),
        )
    } else {
        None
    }
}

/// No entry holds a tile.
pub open spec fn all_empty(cells: Seq<(Hex, Cell)>) -> bool {
    forall|i: int| 0 <= i < cells.len() ==> #[trigger] cells[i].1 == Cell::Empty
}

/// Number of entries among the first `n` that hold a tile.
pub open spec fn tiles_upto(cells: Seq<(Hex, Cell)>, n: int) -> nat
    decreases n,
{
    if n <= 0 {
        0
    } else {
        tiles_upto(cells, n - 1) + if cells[n - 1].1 is Tile {
            1nat
        } else {
            0nat
        }
    }
}

/// The first `n` entries hold no tile exactly when none of them is a tile,
/// and at most `n` of them are tiles.
proof fn lemma_tiles_upto_zero(cells: Seq<(Hex, Cell)>, n: int)
    requires
        0 <= n <= cells.len(),
    ensures
        tiles_upto(cells, n) <= n,
        (tiles_upto(cells, n) == 0) <==> (forall|i: int| 0 <= i < n ==> #[trigger] cells[i].1 == Cell::Empty),
    decreases n,
{
    if n > 0 {
        lemma_tiles_upto_zero(cells, n - 1);
        if tiles_upto(cells, n) == 0 {
            assert forall|i: int| 0 <= i < n implies #[trigger] cells[i].1 == Cell::Empty by {
                if i < n - 1 {
                    assert(cells[i].1 == Cell::Empty);
                } else {
                    assert(!(cells[n - 1].1 is Tile));
                }
            }
        }
        if forall|i: int| 0 <= i < n ==> #[trigger] cells[i].1 == Cell::Empty {
            assert(cells[n - 1].1 == Cell::Empty);
        }
    }
}

/// Putting a tile on an empty entry adds one to the count of every prefix
/// that holds it.
proof fn lemma_tiles_upto_place(cells: Seq<(Hex, Cell)>, k: int, h: Hex, d: Direction, n: int)
    requires
        0 <= k < cells.len(),
        cells[k].1 == Cell::Empty,
        0 <= n <= cells.len(),
    ensures
        tiles_upto(cells.update(k, (h, Cell::Tile(d))), n) == tiles_upto(cells, n) + if k < n {
            1nat
        } else {
            0nat
        },
    decreases n,
{
    if n > 0 {
        lemma_tiles_upto_place(cells, k, h, d, n - 1);
    }
}

/// Two lists with the same positions in the same order find a position at
/// the same index.
proof fn lemma_find_same_hexes(a: Seq<(Hex, Cell)>, b: Seq<(Hex, Cell)>, q: int, r: int)
    requires
        a.len() == b.len(),
        forall|i: int| 0 <= i < a.len() ==> (#[trigger] a[i]).0 == b[i].0,
    ensures
        find(a, q, r) == find(b, q, r),
{
    lemma_find(a, q, r);
    lemma_find(b, q, r);
    let fa = find(a, q, r);
    if fa == -1 {
        assert forall|j: int| 0 <= j < b.len() implies !hit(#[trigger] b[j], q, r) by {
            assert(!hit(a[j], q, r));
        }
    } else {
        assert(hit(b[fa], q, r)) by {
            assert(a[fa].0 == b[fa].0);
        }
        assert forall|j: int| 0 <= j < fa implies !hit(#[trigger] b[j], q, r) by {
            assert(!hit(a[j], q, r));
            assert(a[j].0 == b[j].0);
        }
        lemma_find_is(b, q, r, fa);
    }
}

/// Playing positions in turn: when every one of `hexes` slides off in turn
/// (`clear_after` is Some), the `k`-th play finds a tile at `hexes[k]` with a
/// clear path, on the board the first `k` plays leave, so `play` removes
/// it (its Removed case), leaving that board with `hexes[k]` emptied.
pub proof fn lemma_plays_in_turn(cells: Seq<(Hex, Cell)>, radius: int, hexes: Seq<Hex>, k: int)
    requires
        clear_after(cells, radius, hexes) is Some,
        0 <= k < hexes.len(),
    ensures
        clear_after(cells, radius, hexes.take(k)) is Some,
        slides_off(clear_after(cells, radius, hexes.take(k)).unwrap(), radius, hexes[k]),
        clear_after(cells, radius, hexes.take(k + 1)) == Some(
            with_cell(clear_after(cells, radius, hexes.take(k)).unwrap(), hexes[k].q as int, hexes[k].r as int, Cell::Empty),
        ),
    decreases hexes.len(),
{
    let h0 = hexes[0];
    let next = with_cell(cells, h0.q as int, h0.r as int, Cell::Empty);
    if k == 0 {
        assert(hexes.take(0) =~= Seq::<Hex>::empty());
        assert(hexes.take(1).drop_first() =~= Seq::<Hex>::empty());
        assert(hexes.take(1)[0] == h0);
        assert(clear_after(next, radius, Seq::<Hex>::empty()) == Some(next));
        assert(clear_after(cells, radius, hexes.take(1)) == clear_after(next, radius, hexes.take(1).drop_first()));
    } else {
        lemma_plays_in_turn(next, radius, hexes.drop_first(), k - 1);
        assert(hexes.take(k).drop_first() =~= hexes.drop_first().take(k - 1));
        assert(hexes.take(k + 1).drop_first() =~= hexes.drop_first().take(k));
        assert(hexes.take(k)[0] == h0);
        assert(hexes.take(k + 1)[0] == h0);
        assert(hexes.drop_first()[k - 1] == hexes[k]);
    }
}

/// A board is won (every position empty) exactly when its tile count is
/// zero; the count is exact while the board has fewer than 2^32 entries.
pub proof fn lemma_won_iff_no_tiles(cells: Seq<(Hex, Cell)>)
    requires
        cells.len() <= u32::MAX,
    ensures
        all_empty(cells) <==> tiles_upto(cells, cells.len() as int) as u32 == 0,
{
    lemma_tiles_upto_zero(cells, cells.len() as int);
}

/// A stuck board (some tile left, none free to leave) is not won, and a
/// board without tiles is never stuck.
pub proof fn lemma_stuck_not_won(cells: Seq<(Hex, Cell)>, radius: int)
    ensures
        ((exists|i: int| 0 <= i < cells.len() && (#[trigger] cells[i]).1 is Tile) && !exists|i: int|
            0 <= i < cells.len() && #[trigger] free_tile(cells, radius, cells[i])) ==> !all_empty(cells),
        all_empty(cells) ==> !((exists|i: int| 0 <= i < cells.len() && (#[trigger] cells[i]).1 is Tile) && !exists|i: int|
            0 <= i < cells.len() && #[trigger] free_tile(cells, radius, cells[i])),
{
    if exists|i: int| 0 <= i < cells.len() && (#[trigger] cells[i]).1 is Tile {
        let i = choose|i: int| 0 <= i < cells.len() && (#[trigger] cells[i]).1 is Tile;
        if all_empty(cells) {
            assert(cells[i].1 == Cell::Empty);
        }
    }
}

/// `a` comes before `b`: smaller q, or equal q and smaller r.
pub open spec fn hex_before(a: Hex, b: Hex) -> bool {
    a.q < b.q || (a.q == b.q && a.r < b.r)
}

/// The entries are exactly the positions of the hexagon of the given
/// radius, in increasing (q, r) order.
pub open spec fn is_board(cells: Seq<(Hex, Cell)>, radius: int) -> bool {
    &&& forall|i: int| 0 <= i < cells.len() ==> on_board_at(radius, #[trigger] cells[i].0.q as int, cells[i].0.r as int)
    &&& forall|i: int, j: int| 0 <= i < j < cells.len() ==> hex_before(#[trigger] cells[i].0, #[trigger] cells[j].0)
    &&& forall|q: int, r: int| on_board_at(radius, q, r) ==> #[trigger] find(cells, q, r) >= 0
}

/// The empty hexagon of the given radius: its positions in increasing
/// (q, r) order, each empty.
pub open spec fn empty_board(radius: int) -> Seq<(Hex, Cell)> {
    choose|c: Seq<(Hex, Cell)>| is_board(c, radius) && all_empty(c)
}

/// The first of the six directions tried in turn, from index `off + k`
/// on (counted modulo 6), whose path off the board from `hex` is clear.
pub open spec fn first_clear(cells: Seq<(Hex, Cell)>, radius: int, hex: Hex, off: int, k: int) -> Option<Direction>
    decreases 6 - k,
{
    if k >= 6 {
        None
    } else {
        let d = direction_at((off + k) % 6);
        if clear_walk(cells, radius, hex.q + dq(d), hex.r + dr(d), d) {
            Some(d)
        } else {
            first_clear(cells, radius, hex, off, k + 1)
        }
    }
}

/// One try of the generator: a random position; when it is empty, a
/// random first direction, and a tile put there pointing in the first
/// direction from it whose path is clear. Gives the board, the positions
/// placed so far and the generator state after the try.
pub open spec fn gen_step(radius: int, cells: Seq<(Hex, Cell)>, order: Seq<Hex>, st: u64) -> (
    Seq<(Hex, Cell)>,
    Seq<Hex>,
    u64,
) {
    let st1 = xorshift(st);
    let idx = (st1 % (cells.len() as u64)) as int;
    if cells[idx].1 == Cell::Empty {
        let hex = cells[idx].0;
        let st2 = xorshift(st1);
        match first_clear(cells, radius, hex, (st2 % 6) as int, 0) {
            Some(d) => (with_cell(cells, hex.q as int, hex.r as int, Cell::Tile(d)), order.push(hex), st2),
            None => (cells, order, st2),
        }
    } else {
        (cells, order, st1)
    }
}

/// The generator's tries from try number `attempts` on, while fewer than
/// `target` tiles are placed and fewer than `max` tries are made.
pub open spec fn gen_run(
    radius: int,
    target: int,
    cells: Seq<(Hex, Cell)>,
    order: Seq<Hex>,
    st: u64,
    attempts: int,
    max: int,
) -> (Seq<(Hex, Cell)>, Seq<Hex>, u64)
    decreases max - attempts,
{
    if order.len() < target && attempts < max {
        let next = gen_step(radius, cells, order, st);
        gen_run(radius, target, next.0, next.1, next.2, attempts + 1, max)
    } else {
        (cells, order, st)
    }
}

/// A position of one board lies on the other, at some index.
proof fn lemma_board_has(a: Seq<(Hex, Cell)>, b: Seq<(Hex, Cell)>, radius: int, i: int) -> (k: int)
    requires
        is_board(a, radius),
        is_board(b, radius),
        0 <= i < a.len(),
    ensures
        0 <= k < b.len(),
        b[k].0 == a[i].0,
{
    let h = a[i].0;
    assert(on_board_at(radius, h.q as int, h.r as int));
    assert(find(b, h.q as int, h.r as int) >= 0);
    lemma_find(b, h.q as int, h.r as int);
    find(b, h.q as int, h.r as int)
}

/// Two boards of one radius list the same positions up to index `i`.
proof fn lemma_board_prefix(a: Seq<(Hex, Cell)>, b: Seq<(Hex, Cell)>, radius: int, i: int)
    requires
        is_board(a, radius),
        is_board(b, radius),
        0 <= i <= a.len(),
        i <= b.len(),
    ensures
        forall|j: int| 0 <= j < i ==> (#[trigger] a[j]).0 == b[j].0,
    decreases i,
{
    if i > 0 {
        let m = i - 1;
        lemma_board_prefix(a, b, radius, m);
        if a[m].0 != b[m].0 {
            let k = lemma_board_has(a, b, radius, m);
            let k2 = lemma_board_has(b, a, radius, m);
            if k < m {
                assert(a[k].0 == b[k].0);
                assert(hex_before(a[k].0, a[m].0));
            } else if k2 < m {
                assert(a[k2].0 == b[k2].0);
                assert(hex_before(b[k2].0, b[m].0));
            } else {
                assert(hex_before(b[m].0, b[k].0));
                assert(hex_before(a[m].0, a[k2].0));
            }
        }
    }
}

/// Two empty boards of one radius are the same list.
pub proof fn lemma_board_unique(a: Seq<(Hex, Cell)>, b: Seq<(Hex, Cell)>, radius: int)
    requires
        is_board(a, radius),
        is_board(b, radius),
        all_empty(a),
        all_empty(b),
    ensures
        a == b,
{
    if a.len() > b.len() {
        lemma_board_prefix(a, b, radius, b.len() as int);
        let k = lemma_board_has(a, b, radius, b.len() as int);
        assert(a[k].0 == b[k].0);
        assert(hex_before(a[k].0, a[b.len() as int].0));
    } else if b.len() > a.len() {
        lemma_board_prefix(b, a, radius, a.len() as int);
        let k = lemma_board_has(b, a, radius, a.len() as int);
        assert(b[k].0 == a[k].0);
        assert(hex_before(b[k].0, b[a.len() as int].0));
    }
    lemma_board_prefix(a, b, radius, a.len() as int);
    assert forall|j: int| 0 <= j < a.len() implies a[j] == b[j] by {
        assert(a[j].0 == b[j].0);
        assert(a[j].1 == Cell::Empty);
        assert(b[j].1 == Cell::Empty);
    }
    assert(a =~= b);
}

/// Every entry's hex lies on the hexagon of the given radius.
pub open spec fn hexes_on(cells: Seq<(Hex, Cell)>, radius: int) -> bool {
    forall|i: int| 0 <= i < cells.len() ==> on_board_at(radius, #[trigger] cells[i].0.q as int, cells[i].0.r as int)
}

/// Writing a cell keeps the entries' hexes.
pub proof fn lemma_with_cell_hexes(cells: Seq<(Hex, Cell)>, q: int, r: int, c: Cell)
    ensures
        with_cell(cells, q, r, c).len() == cells.len(),
        forall|i: int| 0 <= i < cells.len() ==> (#[trigger] with_cell(cells, q, r, c)[i]).0 == cells[i].0,
{
    lemma_find(cells, q, r);
}

/// A tile found at `h` on a board whose hexes lie within a radius of at
/// most 0x3FFF_FFFF can take a step in its direction.
pub proof fn lemma_tile_can_step(cells: Seq<(Hex, Cell)>, radius: int, h: Hex)
    requires
        0 <= radius <= 0x3FFF_FFFF,
        hexes_on(cells, radius),
    ensures
        tile_at(cells, h) matches Some(d) ==> can_step(h, d),
        forall|i: int| 0 <= i < cells.len() ==> #[trigger] steppable(cells[i]),
{
    lemma_find(cells, h.q as int, h.r as int);
    let k = find(cells, h.q as int, h.r as int);
    if k >= 0 {
        assert(on_board_at(radius, cells[k].0.q as int, cells[k].0.r as int));
    }
    assert forall|i: int| 0 <= i < cells.len() implies #[trigger] steppable(cells[i]) by {
        assert(on_board_at(radius, cells[i].0.q as int, cells[i].0.r as int));
    }
}

/// `find` gives the first entry at (q, r), and -1 exactly when none is.
pub(crate) proof fn lemma_find(cells: Seq<(Hex, Cell)>, q: int, r: int)
    ensures
        -1 <= find(cells, q, r) < cells.len(),
        find(cells, q, r) == -1 <==> forall|j: int| 0 <= j < cells.len() ==> !hit(#[trigger] cells[j], q, r),
        find(cells, q, r) >= 0 ==> hit(cells[find(cells, q, r)], q, r),
        forall|j: int| 0 <= j < find(cells, q, r) ==> !hit(#[trigger] cells[j], q, r),
    decreases cells.len(),
{
    if cells.len() > 0 {
        let t = cells.drop_first();
        lemma_find(t, q, r);
        assert forall|j: int| 1 <= j < cells.len() implies cells[j] == #[trigger] t[j - 1] by {}
        if !hit(cells[0], q, r) && find(t, q, r) == -1 {
            assert forall|j: int| 0 <= j < cells.len() implies !hit(#[trigger] cells[j], q, r) by {
                if j > 0 {
                    assert(t[j - 1] == cells[j]);
                }
            }
        }
        if !hit(cells[0], q, r) && find(t, q, r) >= 0 {
            let k = find(t, q, r);
            assert(t[k] == cells[k + 1]);
            assert forall|j: int| 0 <= j < k + 1 implies !hit(#[trigger] cells[j], q, r) by {
                if j > 0 {
                    assert(t[j - 1] == cells[j]);
                }
            }
        }
    }
}

/// An entry at (q, r) with nothing there before it is the one `find` gives.
proof fn lemma_find_is(cells: Seq<(Hex, Cell)>, q: int, r: int, k: int)
    requires
        0 <= k < cells.len(),
        hit(cells[k], q, r),
        forall|j: int| 0 <= j < k ==> !hit(#[trigger] cells[j], q, r),
    ensures
        find(cells, q, r) == k,
{
    lemma_find(cells, q, r);
    let f = find(cells, q, r);
    assert(f != -1) by {
        assert(hit(cells[k], q, r));
    }
    if f < k {
        assert(!hit(cells[f], q, r));
    } else if f > k {
        assert(!hit(cells[k], q, r));
    }
}

/// Changing what an entry holds does not move any position.
proof fn lemma_find_keeps(cells: Seq<(Hex, Cell)>, k: int, c: Cell, q: int, r: int)
    requires
        0 <= k < cells.len(),
    ensures
        find(cells.update(k, (cells[k].0, c)), q, r) == find(cells, q, r),
{
    let u = cells.update(k, (cells[k].0, c));
    lemma_find(cells, q, r);
    lemma_find(u, q, r);
    assert forall|j: int| 0 <= j < cells.len() implies hit(#[trigger] u[j], q, r) == hit(cells[j], q, r) by {}
    let f = find(cells, q, r);
    if f >= 0 {
        assert forall|j: int| 0 <= j < f implies !hit(#[trigger] u[j], q, r) by {
            assert(!hit(cells[j], q, r));
        }
        lemma_find_is(u, q, r, f);
    } else {
        assert forall|j: int| 0 <= j < u.len() implies !hit(#[trigger] u[j], q, r) by {
            assert(!hit(cells[j], q, r));
        }
    }
}

/// One step in direction `d` adds 2 to the progress along `d`.
proof fn lemma_dot_step(q: int, r: int, d: Direction)
    ensures
        dot(q + dq(d), r + dr(d), d) == dot(q, r, d) + 2,
{
}

/// On a board with no tile, every walk is clear.
proof fn lemma_empty_walk(cells: Seq<(Hex, Cell)>, radius: int, q: int, r: int, d: Direction)
    requires
        is_board(cells, radius),
        all_empty(cells),
    ensures
        clear_walk(cells, radius, q, r, d),
    decreases 2 * radius + 2 - dot(q, r, d),
{
    if on_board_at(radius, q, r) {
        lemma_find(cells, q, r);
        assert(find(cells, q, r) >= 0);
        assert(cells[find(cells, q, r)].1 == Cell::Empty);
        lemma_dot_step(q, r, d);
        lemma_empty_walk(cells, radius, q + dq(d), r + dr(d), d);
    }
}

/// A walk that starts past (hq, hr) in its direction never meets it, so
/// changing what the entry at (hq, hr) holds does not change the walk.
proof fn lemma_walk_unchanged(
    cells: Seq<(Hex, Cell)>,
    k: int,
    x: Cell,
    radius: int,
    q: int,
    r: int,
    d: Direction,
    hq: int,
    hr: int,
)
    requires
        0 <= k < cells.len(),
        find(cells, hq, hr) == k,
        dot(q, r, d) > dot(hq, hr, d),
    ensures
        clear_walk(cells.update(k, (cells[k].0, x)), radius, q, r, d) == clear_walk(cells, radius, q, r, d),
    decreases 2 * radius + 2 - dot(q, r, d),
{
    let u = cells.update(k, (cells[k].0, x));
    if on_board_at(radius, q, r) {
        lemma_find_keeps(cells, k, x, q, r);
        lemma_find(cells, q, r);
        lemma_find(cells, hq, hr);
        let f = find(cells, q, r);
        if f == k {
            assert(hit(cells[k], q, r));
            assert(hit(cells[k], hq, hr));
        }
        assert(lookup(u, q, r) == lookup(cells, q, r));
        lemma_dot_step(q, r, d);
        lemma_walk_unchanged(cells, k, x, radius, q + dq(d), r + dr(d), d, hq, hr);
    }
}

/// Placing a tile on an empty position whose path off the board is clear
/// makes a tile that slides off and leaves the board as it was.
proof fn lemma_place_then_remove(cells: Seq<(Hex, Cell)>, radius: int, h: Hex, d: Direction)
    requires
        lookup(cells, h.q as int, h.r as int) == Some(Cell::Empty),
        clear_walk(cells, radius, h.q + dq(d), h.r + dr(d), d),
    ensures
        slides_off(with_cell(cells, h.q as int, h.r as int, Cell::Tile(d)), radius, h),
        with_cell(with_cell(cells, h.q as int, h.r as int, Cell::Tile(d)), h.q as int, h.r as int, Cell::Empty)
            == cells,
{
    let k = find(cells, h.q as int, h.r as int);
    lemma_find(cells, h.q as int, h.r as int);
    let placed = with_cell(cells, h.q as int, h.r as int, Cell::Tile(d));
    assert(placed == cells.update(k, (cells[k].0, Cell::Tile(d))));
    lemma_find_keeps(cells, k, Cell::Tile(d), h.q as int, h.r as int);
    assert(tile_at(placed, h) == Some(d));
    lemma_dot_step(h.q as int, h.r as int, d);
    lemma_walk_unchanged(cells, k, Cell::Tile(d), radius, h.q + dq(d), h.r + dr(d), d, h.q as int, h.r as int);
    assert(with_cell(placed, h.q as int, h.r as int, Cell::Empty) =~= cells);
}

/// The board as generated: the positions of `base`, with the tiles such
/// that playing them in the given order clears the board back to `base`.
proof fn lemma_clear_after_push(
    cells: Seq<(Hex, Cell)>,
    radius: int,
    order: Seq<Hex>,
    h: Hex,
    d: Direction,
    base: Seq<(Hex, Cell)>,
)
    requires
        clear_after(cells, radius, order.reverse()) == Some(base),
        lookup(cells, h.q as int, h.r as int) == Some(Cell::Empty),
        clear_walk(cells, radius, h.q + dq(d), h.r + dr(d), d),
    ensures
        clear_after(with_cell(cells, h.q as int, h.r as int, Cell::Tile(d)), radius, order.push(h).reverse())
            == Some(base),
{
    lemma_place_then_remove(cells, radius, h, d);
    let rev = order.push(h).reverse();
    assert(rev[0] == h);
    assert(rev.drop_first() =~= order.reverse());
}

/// The board: its radius, the entries for every position, moves played,
/// tiles removed and tiles placed.
#[derive(Clone, Debug)]
pub struct GameState {
    pub radius: i32,
    pub cells: Vec<(Hex, Cell)>,
    pub moves: u32,
    pub removed: u32,
    pub total: u32,
}

impl GameState {
    /// The board of the given radius with every position empty, in
    /// increasing (q, r) order.
    pub fn empty(radius: i32) -> (s: Self)
        requires
            -0x3FFF_FFFF <= radius <= 0x3FFF_FFFF,
        ensures
            s.radius == radius,
            is_board(s.cells@, radius as int),
            all_empty(s.cells@),
            s.cells@ == empty_board(radius as int),
            s.moves == 0,
            s.removed == 0,
            s.total == 0,
    {
        let mut cells: Vec<(Hex, Cell)> = Vec::new();
        let mut q: i32 = -radius;
        while q <= radius
            invariant
                -0x3FFF_FFFF <= radius <= 0x3FFF_FFFF,
                -radius <= q,
                q <= radius + 1 || radius < 0,
                forall|i: int| 0 <= i < cells@.len() ==> on_board_at(radius as int, #[trigger] cells@[i].0.q as int, cells@[i].0.r as int),
                forall|i: int| 0 <= i < cells@.len() ==> #[trigger] cells@[i].1 == Cell::Empty,
                forall|i: int| 0 <= i < cells@.len() ==> (#[trigger] cells@[i].0).q < q,
                forall|i: int, j: int| 0 <= i < j < cells@.len() ==> hex_before(#[trigger] cells@[i].0, #[trigger] cells@[j].0),
                forall|a: int, b: int| on_board_at(radius as int, a, b) && a < q ==> exists|i: int| 0 <= i < cells@.len() && #[trigger] hit(cells@[i], a, b),
            decreases radius + 1 - q,
        {
            let r_min = if -radius > -q - radius {
                -radius
            } else {
                -q - radius
            };
            let r_max = if radius < -q + radius {
                radius
            } else {
                -q + radius
            };
            let mut r: i32 = r_min;
            while r <= r_max
                invariant
                    -0x3FFF_FFFF <= radius <= 0x3FFF_FFFF,
                    -radius <= q <= radius,
                    r_min as int == (if -radius > -q - radius { -radius } else { -q - radius }),
                    r_max as int == (if radius < -q + radius { radius as int } else { -q + radius }),
                    r_min <= r <= r_max + 1,
                    forall|i: int| 0 <= i < cells@.len() ==> on_board_at(radius as int, #[trigger] cells@[i].0.q as int, cells@[i].0.r as int),
                    forall|i: int| 0 <= i < cells@.len() ==> #[trigger] cells@[i].1 == Cell::Empty,
                    forall|i: int| 0 <= i < cells@.len() ==> hex_before(#[trigger] cells@[i].0, Hex { q, r }),
                    forall|i: int, j: int| 0 <= i < j < cells@.len() ==> hex_before(#[trigger] cells@[i].0, #[trigger] cells@[j].0),
                    forall|a: int, b: int|
                        on_board_at(radius as int, a, b) && (a < q || (a == q && b < r)) ==> exists|i: int|
                            0 <= i < cells@.len() && #[trigger] hit(cells@[i], a, b),
                decreases r_max + 1 - r,
            {
                let ghost old_cells = cells@;
                cells.push((Hex::new(q, r), Cell::Empty));
                proof {
                    assert forall|a: int, b: int|
                        on_board_at(radius as int, a, b) && (a < q || (a == q && b < r + 1)) implies exists|i: int|
                            0 <= i < cells@.len() && #[trigger] hit(cells@[i], a, b) by {
                        if a == q && b == r {
                            assert(hit(cells@[old_cells.len() as int], a, b));
                        } else {
                            let i = choose|i: int| 0 <= i < old_cells.len() && #[trigger] hit(old_cells[i], a, b);
                            assert(hit(cells@[i], a, b));
                        }
                    }
                }
                r += 1;
            }
            q += 1;
        }
        proof {
            assert forall|a: int, b: int| on_board_at(radius as int, a, b) implies #[trigger] find(cells@, a, b) >= 0 by {
                lemma_find(cells@, a, b);
                let i = choose|i: int| 0 <= i < cells@.len() && #[trigger] hit(cells@[i], a, b);
                assert(hit(cells@[i], a, b));
            }
        }
        proof {
            let c = empty_board(radius as int);
            assert(is_board(cells@, radius as int) && all_empty(cells@));
            lemma_board_unique(cells@, c, radius as int);
        }
        GameState { radius, cells, moves: 0, removed: 0, total: 0 }
    }

    /// A solvable puzzle built backwards: tiles are put, one at a time, on
    /// random empty positions whose path off the board in the chosen
    /// direction is clear, so that playing them in the reverse order of
    /// placement removes every one. Up to `200 * target_tiles` tries are
    /// made. Returns the board and the positions in order of placement.
    pub fn generate(radius: i32, target_tiles: u32, rng: &mut Rng) -> (res: (Self, Vec<Hex>))
        requires
            -0x3FFF_FFFF <= radius <= 0x3FFF_FFFF,
            target_tiles <= u32::MAX / 200,
            radius >= 0 || target_tiles == 0,
        ensures
            res.0.radius == radius,
            res.0.moves == 0,
            res.0.removed == 0,
            res.0.total == res.1@.len(),
            res.1@.len() <= target_tiles,
            clear_after(res.0.cells@, radius as int, res.1@.reverse()) matches Some(c) && all_empty(c)
                && is_board(c, radius as int),
            hexes_on(res.0.cells@, radius as int),
            radius >= 0 && target_tiles >= 1 ==> res.1@.len() >= 1,
            tiles_upto(res.0.cells@, res.0.cells@.len() as int) == res.0.total,
            forall|i: int, j: int| 0 <= i < j < res.1@.len() ==> res.1@[i] != res.1@[j],
            forall|j: int|
                0 <= j < res.1@.len() ==> #[trigger] lookup(res.0.cells@, res.1@[j].q as int, res.1@[j].r as int) matches Some(
                    Cell::Tile(_),
                ),
            (res.0.cells@, res.1@, final(rng).state) == gen_run(
                radius as int,
                target_tiles as int,
                empty_board(radius as int),
                Seq::empty(),
                old(rng).state,
                0,
                target_tiles * 200,
            ),
    {
        let mut state = Self::empty(radius);
        let ghost base = state.cells@;
        let ghost st0 = rng.state;
        let mut order: Vec<Hex> = Vec::new();
        let mut attempts: u32 = 0;
        let max_attempts = target_tiles * 200;
        proof {
            if radius >= 0 {
                lemma_find(base, 0, 0);
                assert(find(base, 0, 0) >= 0);
            }
            assert(order@.reverse() =~= Seq::<Hex>::empty());
            lemma_tiles_upto_zero(base, base.len() as int);
        }
        while (order.len() as u32) < target_tiles && attempts < max_attempts
            invariant
                -0x3FFF_FFFF <= radius <= 0x3FFF_FFFF,
                radius >= 0 || target_tiles == 0,
                radius >= 0 ==> base.len() > 0,
                max_attempts == target_tiles * 200,
                target_tiles <= u32::MAX / 200,
                order@.len() <= attempts <= max_attempts,
                order@.len() <= target_tiles,
                state.radius == radius,
                state.moves == 0,
                state.removed == 0,
                state.total == 0,
                state.cells@.len() == base.len(),
                forall|i: int| 0 <= i < base.len() ==> (#[trigger] state.cells@[i]).0 == base[i].0,
                is_board(base, radius as int),
                all_empty(base),
                clear_after(state.cells@, radius as int, order@.reverse()) == Some(base),
                attempts > 0 && radius >= 0 ==> order@.len() > 0,
                tiles_upto(state.cells@, state.cells@.len() as int) == order@.len(),
                forall|i: int, j: int| 0 <= i < j < order@.len() ==> order@[i] != order@[j],
                forall|j: int|
                    0 <= j < order@.len() ==> #[trigger] lookup(state.cells@, order@[j].q as int, order@[j].r as int) matches Some(
                        Cell::Tile(_),
                    ),
                gen_run(radius as int, target_tiles as int, state.cells@, order@, rng.state, attempts as int, max_attempts as int)
                    == gen_run(radius as int, target_tiles as int, base, Seq::empty(), st0, 0, max_attempts as int),
            decreases max_attempts - attempts,
        {
            let ghost pre_cells = state.cells@;
            let ghost pre_order = order@;
            let ghost pre_st = rng.state;
            proof {
                if order@.len() == 0 {
                    assert(order@.reverse() =~= Seq::<Hex>::empty());
                    assert(state.cells@ == base);
                }
            }
            attempts += 1;
            let idx = rng.range(state.cells.len());
            proof {
                if order@.len() == 0 {
                    assert(state.cells@[idx as int].1 == Cell::Empty);
                }
            }
            let empty_here = match state.cells[idx].1 {
                Cell::Empty => true,
                Cell::Tile(_) => false,
            };
            if empty_here {
                let hex = state.cells[idx].0;
                proof {
                    assert(state.cells@[idx as int].0 == base[idx as int].0);
                    assert(on_board_at(radius as int, base[idx as int].0.q as int, base[idx as int].0.r as int));
                    assert forall|j: int| 0 <= j < idx implies !hit(#[trigger] state.cells@[j], hex.q as int, hex.r as int) by {
                        assert(state.cells@[j].0 == base[j].0);
                        assert(hex_before(base[j].0, base[idx as int].0));
                    }
                    lemma_find_is(state.cells@, hex.q as int, hex.r as int, idx as int);
                }
                let dir_offset = rng.range(6);
                let mut k: usize = 0;
                while k < 6
                    invariant_except_break
                        order@.len() < attempts,
                        order@.len() < target_tiles,
                        lookup(state.cells@, hex.q as int, hex.r as int) == Some(Cell::Empty),
                        state.cells@ == pre_cells,
                        order@ == pre_order,
                        first_clear(pre_cells, radius as int, hex, dir_offset as int, 0) == first_clear(
                            pre_cells,
                            radius as int,
                            hex,
                            dir_offset as int,
                            k as int,
                        ),
                    invariant
                        pre_cells.len() > 0,
                        idx == xorshift(pre_st) % (pre_cells.len() as u64),
                        pre_cells[idx as int].1 == Cell::Empty,
                        hex == pre_cells[idx as int].0,
                        rng.state == xorshift(xorshift(pre_st)),
                        dir_offset == rng.state % 6,
                        k <= 6,
                        dir_offset < 6,
                        -0x3FFF_FFFF <= radius <= 0x3FFF_FFFF,
                        on_board_at(radius as int, hex.q as int, hex.r as int),
                        order@.len() <= attempts <= max_attempts,
                        order@.len() <= target_tiles,
                        state.radius == radius,
                        state.moves == 0,
                        state.removed == 0,
                        state.total == 0,
                        state.cells@.len() == base.len(),
                        forall|i: int| 0 <= i < base.len() ==> (#[trigger] state.cells@[i]).0 == base[i].0,
                        clear_after(state.cells@, radius as int, order@.reverse()) == Some(base),
                        is_board(base, radius as int),
                        all_empty(base),
                        order@.len() == 0 ==> k == 0 && state.cells@ == base,
                        tiles_upto(state.cells@, state.cells@.len() as int) == order@.len(),
                        forall|i: int, j: int| 0 <= i < j < order@.len() ==> order@[i] != order@[j],
                        forall|j: int|
                            0 <= j < order@.len() ==> #[trigger] lookup(state.cells@, order@[j].q as int, order@[j].r as int) matches Some(
                                Cell::Tile(_),
                            ),
                    ensures
                        order@.len() > 0,
                        (state.cells@, order@, rng.state) == gen_step(radius as int, pre_cells, pre_order, pre_st),
                    decreases 6 - k,
                {
                    let dir = Direction::from_index((dir_offset + k) % 6).unwrap();
                    proof {
                        if order@.len() == 0 {
                            lemma_empty_walk(state.cells@, radius as int, hex.q + dq(dir), hex.r + dr(dir), dir);
                        }
                    }
                    if state.path_clear(hex, dir) {
                        proof {
                            lemma_clear_after_push(state.cells@, radius as int, order@, hex, dir, base);
                            lemma_find(state.cells@, hex.q as int, hex.r as int);
                        }
                        let ghost before = state.cells@;
                        let ghost old_order = order@;
                        state.set(hex, Cell::Tile(dir));
                        order.push(hex);
                        proof {
                            let f = find(before, hex.q as int, hex.r as int);
                            lemma_find(before, hex.q as int, hex.r as int);
                            assert forall|j: int| 0 <= j < old_order.len() implies old_order[j] != hex by {
                                if old_order[j] == hex {
                                    assert(lookup(before, old_order[j].q as int, old_order[j].r as int) matches Some(Cell::Tile(_)));
                                }
                            }
                            assert forall|i: int, j: int| 0 <= i < j < order@.len() implies order@[i] != order@[j] by {
                                if j == old_order.len() {
                                    assert(order@[i] == old_order[i]);
                                } else {
                                    assert(order@[i] == old_order[i] && order@[j] == old_order[j]);
                                }
                            }
                            assert forall|j: int| 0 <= j < order@.len() implies #[trigger] lookup(
                                state.cells@,
                                order@[j].q as int,
                                order@[j].r as int,
                            ) matches Some(Cell::Tile(_)) by {
                                let o = order@[j];
                                lemma_find_same_hexes(state.cells@, before, o.q as int, o.r as int);
                                lemma_find(before, o.q as int, o.r as int);
                                if j < old_order.len() {
                                    assert(o == old_order[j]);
                                    assert(lookup(before, old_order[j].q as int, old_order[j].r as int) matches Some(Cell::Tile(_)));
                                    let fo = find(before, o.q as int, o.r as int);
                                    if fo == f {
                                        assert(hit(before[f], o.q as int, o.r as int));
                                        assert(o == hex);
                                    }
                                }
                            }
                            lemma_tiles_upto_place(before, f, before[f].0, dir, before.len() as int);
                            assert forall|i: int| 0 <= i < base.len() implies (#[trigger] state.cells@[i]).0 == base[i].0 by {
                                assert(before[i].0 == base[i].0);
                            }
                        }
                        break;
                    }
                    k += 1;
                }
            }
        }
        state.total = order.len() as u32;
        proof {
            assert forall|i: int| 0 <= i < state.cells@.len() implies on_board_at(
                radius as int,
                #[trigger] state.cells@[i].0.q as int,
                state.cells@[i].0.r as int,
            ) by {
                assert(state.cells@[i].0 == base[i].0);
            }
        }
        (state, order)
    }

    /// True iff `hex` lies on the board.
    /// True iff the radius is at most 0x3FFF_FFFF and every entry's hex
    /// lies on the board.
    pub fn on_board_cells(&self) -> (b: bool)
        ensures
            b == (0 <= self.radius <= 0x3FFF_FFFF && hexes_on(self.cells@, self.radius as int)),
    {
        if self.radius < 0 || self.radius > 0x3FFF_FFFF {
            return false;
        }
        let mut i: usize = 0;
        while i < self.cells.len()
            invariant
                0 <= self.radius <= 0x3FFF_FFFF,
                i <= self.cells@.len(),
                forall|j: int|
                    0 <= j < i ==> on_board_at(self.radius as int, #[trigger] self.cells@[j].0.q as int, self.cells@[j].0.r as int),
            decreases self.cells@.len() - i,
        {
            let h = self.cells[i].0;
            let q = h.q as i64;
            let r = h.r as i64;
            let rad = self.radius as i64;
            if q < -rad || q > rad || r < -rad || r > rad || q + r < -rad || q + r > rad {
                return false;
            }
            i += 1;
        }
        true
    }

    pub fn on_board(&self, hex: Hex) -> (b: bool)
        requires
            coords_ok(hex.q as int, hex.r as int),
        ensures
            b == on_board_at(self.radius as int, hex.q as int, hex.r as int),
    {
        let r = self.radius;
        let aq = if hex.q < 0 { -hex.q } else { hex.q };
        let ar = if hex.r < 0 { -hex.r } else { hex.r };
        let s = hex.q + hex.r;
        let as_ = if s < 0 { -s } else { s };
        aq <= r && ar <= r && as_ <= r
    }

    /// Index of the first entry at `hex`.
    fn index_of(&self, hex: Hex) -> (k: Option<usize>)
        ensures
            match k {
                Some(i) => i == find(self.cells@, hex.q as int, hex.r as int),
                None => find(self.cells@, hex.q as int, hex.r as int) < 0,
            },
            -1 <= find(self.cells@, hex.q as int, hex.r as int) < self.cells@.len(),
    {
        proof {
            lemma_find(self.cells@, hex.q as int, hex.r as int);
        }
        let mut i: usize = 0;
        while i < self.cells.len()
            invariant
                i <= self.cells@.len(),
                forall|j: int| 0 <= j < i ==> !hit(#[trigger] self.cells@[j], hex.q as int, hex.r as int),
            decreases self.cells@.len() - i,
        {
            if self.cells[i].0 == hex {
                proof {
                    lemma_find_is(self.cells@, hex.q as int, hex.r as int, i as int);
                }
                return Some(i);
            }
            i += 1;
        }
        None
    }

    /// The cell at `hex`, if it is on the board.
    pub fn get(&self, hex: Hex) -> (c: Option<Cell>)
        ensures
            c == lookup(self.cells@, hex.q as int, hex.r as int),
    {
        match self.index_of(hex) {
            Some(i) => {
                Some(self.cells[i].1)
            },
            None => None,
        }
    }

    /// Puts `cell` at `hex`; nothing changes when `hex` is not on the board.
    pub fn set(&mut self, hex: Hex, cell: Cell)
        ensures
            final(self).cells@ == with_cell(old(self).cells@, hex.q as int, hex.r as int, cell),
            final(self).radius == old(self).radius,
            final(self).moves == old(self).moves,
            final(self).removed == old(self).removed,
            final(self).total == old(self).total,
    {
        if let Some(i) = self.index_of(hex) {
            let h = self.cells[i].0;
            self.cells.set(i, (h, cell));
        }
    }

    /// True if every position from `hex` in direction `dir` (excluding
    /// `hex`) up to the edge of the board is empty.
    pub fn path_clear(&self, hex: Hex, dir: Direction) -> (b: bool)
        requires
            self.radius < i32::MAX,
            can_step(hex, dir),
        ensures
            b == clear_walk(self.cells@, self.radius as int, hex.q + dq(dir), hex.r + dr(dir), dir),
    {
        let mut cur = hex.step(dir);
        while self.on_board(cur)
            invariant
                self.radius < i32::MAX,
                coords_ok(cur.q as int, cur.r as int),
                clear_walk(self.cells@, self.radius as int, cur.q as int, cur.r as int, dir) == clear_walk(
                    self.cells@,
                    self.radius as int,
                    hex.q + dq(dir),
                    hex.r + dr(dir),
                    dir,
                ),
            decreases 2 * self.radius + 2 - dot(cur.q as int, cur.r as int, dir),
        {
            match self.get(cur) {
                Some(Cell::Empty) => {},
                _ => {
                    return false;
                },
            }
            cur = cur.step(dir);
        }
        true
    }

    /// Number of empty positions from `hex` in direction `dir` (excluding
    /// `hex`) before a tile or the edge of the board.
    pub fn empty_steps(&self, hex: Hex, dir: Direction) -> (n: i32)
        requires
            self.radius <= 0x3FFF_FFFF,
            can_step(hex, dir),
        ensures
            n == empty_run(self.cells@, self.radius as int, hex.q + dq(dir), hex.r + dr(dir), dir),
    {
        let mut cur = hex.step(dir);
        let ghost q0 = hex.q + dq(dir);
        let ghost r0 = hex.r + dr(dir);
        let mut n: i32 = 0;
        while self.on_board(cur)
            invariant
                self.radius <= 0x3FFF_FFFF,
                coords_ok(cur.q as int, cur.r as int),
                q0 == hex.q + dq(dir),
                r0 == hex.r + dr(dir),
                0 <= n,
                n + empty_run(self.cells@, self.radius as int, cur.q as int, cur.r as int, dir) == empty_run(
                    self.cells@,
                    self.radius as int,
                    q0,
                    r0,
                    dir,
                ),
                2 * n == dot(cur.q as int, cur.r as int, dir) - dot(q0, r0, dir),
                n == 0 ==> cur.q == q0 && cur.r == r0,
                n > 0 ==> on_board_at(self.radius as int, q0, r0),
            decreases 2 * self.radius + 2 - dot(cur.q as int, cur.r as int, dir),
        {
            match self.get(cur) {
                Some(Cell::Empty) => {},
                _ => {
                    assert(empty_run(self.cells@, self.radius as int, cur.q as int, cur.r as int, dir) == 0);
                    return n;
                },
            }
            cur = cur.step(dir);
            n += 1;
        }
        n
    }

    /// Plays the tile at `hex`: it slides off when its path is clear
    /// (Removed), which counts a move; a blocked tile (Blocked) and a
    /// position without a tile (Empty) change nothing.
    pub fn play(&mut self, hex: Hex) -> (m: Move)
        requires
            old(self).radius < i32::MAX,
            tile_at(old(self).cells@, hex) matches Some(d) ==> can_step(hex, d) && old(self).moves < u32::MAX
                && old(self).removed < u32::MAX,
        ensures
            final(self).radius == old(self).radius,
            final(self).total == old(self).total,
            tile_at(old(self).cells@, hex) is None ==> m == Move::Empty && *final(self) == *old(self),
            tile_at(old(self).cells@, hex) is Some && slides_off(old(self).cells@, old(self).radius as int, hex)
                ==> m == Move::Removed && final(self).cells@ == with_cell(
                old(self).cells@,
                hex.q as int,
                hex.r as int,
                Cell::Empty,
            ) && final(self).removed == old(self).removed + 1 && final(self).moves == old(self).moves + 1,
            tile_at(old(self).cells@, hex) is Some && !slides_off(old(self).cells@, old(self).radius as int, hex)
                ==> m == Move::Blocked && *final(self) == *old(self),
    {
        let cell = match self.get(hex) {
            Some(c) => c,
            None => {
                return Move::Empty;
            },
        };
        let dir = match cell {
            Cell::Tile(d) => d,
            Cell::Empty => {
                return Move::Empty;
            },
        };
        if self.path_clear(hex, dir) {
            self.set(hex, Cell::Empty);
            self.moves += 1;
            self.removed += 1;
            Move::Removed
        } else {
            Move::Blocked
        }
    }

    /// True iff no position holds a tile.
    pub fn is_won(&self) -> (b: bool)
        ensures
            b == all_empty(self.cells@),
    {
        let mut i: usize = 0;
        while i < self.cells.len()
            invariant
                i <= self.cells@.len(),
                forall|j: int| 0 <= j < i ==> #[trigger] self.cells@[j].1 == Cell::Empty,
            decreases self.cells@.len() - i,
        {
            match self.cells[i].1 {
                Cell::Empty => {},
                Cell::Tile(_) => {
                    assert(self.cells@[i as int].1 != Cell::Empty);
                    return false;
                },
            }
            i += 1;
        }
        true
    }

    /// True iff tiles remain and none of them has a clear path off the
    /// board.
    pub fn is_stuck(&self) -> (b: bool)
        requires
            self.radius < i32::MAX,
            forall|i: int| 0 <= i < self.cells@.len() ==> #[trigger] steppable(self.cells@[i]),
        ensures
            b == ((exists|i: int| 0 <= i < self.cells@.len() && (#[trigger] self.cells@[i]).1 is Tile) && !exists|i: int|
                0 <= i < self.cells@.len() && #[trigger] free_tile(self.cells@, self.radius as int, self.cells@[i])),
    {
        let mut i: usize = 0;
        let mut any_tile = false;
        while i < self.cells.len()
            invariant
                i <= self.cells@.len(),
                self.radius < i32::MAX,
                forall|k: int| 0 <= k < self.cells@.len() ==> #[trigger] steppable(self.cells@[k]),
                forall|j: int| 0 <= j < i ==> !#[trigger] free_tile(self.cells@, self.radius as int, self.cells@[j]),
                any_tile == exists|j: int| 0 <= j < i && (#[trigger] self.cells@[j]).1 is Tile,
            decreases self.cells@.len() - i,
        {
            let (hex, cell) = self.cells[i];
            if let Cell::Tile(dir) = cell {
                assert(self.cells@[i as int].1 is Tile);
                assert(steppable(self.cells@[i as int]));
                any_tile = true;
                if self.path_clear(hex, dir) {
                    assert(free_tile(self.cells@, self.radius as int, self.cells@[i as int]));
                    return false;
                }
            }
            i += 1;
        }
        any_tile
    }

    /// Number of positions holding a tile (as a `u32`).
    pub fn tile_count(&self) -> (n: u32)
        ensures
            n == tiles_upto(self.cells@, self.cells@.len() as int) as u32,
    {
        let mut i: usize = 0;
        let mut count: usize = 0;
        while i < self.cells.len()
            invariant
                i <= self.cells@.len(),
                count == tiles_upto(self.cells@, i as int),
                count <= i,
            decreases self.cells@.len() - i,
        {
            if let Cell::Tile(_) = self.cells[i].1 {
                count += 1;
            }
            i += 1;
        }
        count as u32
    }
}

/// A tile in the entry can take its first step within 32-bit coordinates.
pub open spec fn steppable(c: (Hex, Cell)) -> bool {
    c.1 matches Cell::Tile(d) ==> can_step(c.0, d)
}

/// The entry holds a tile whose path off the board is clear.
pub open spec fn free_tile(cells: Seq<(Hex, Cell)>, radius: int, c: (Hex, Cell)) -> bool {
    c.1 matches Cell::Tile(d) && clear_walk(cells, radius, c.0.q + dq(d), c.0.r + dr(d), d)
}

/// Pseudo-random generator (xorshift64).
#[derive(Clone, Debug)]
pub struct Rng {
    pub state: u64,
}

impl Rng {
    /// A generator seeded from the system's random source; a zero seed
    /// becomes 0x9E3779B97F4A7C15.
    pub fn from_entropy() -> (r: Self)
        ensures
            r.state != 0,
    {
        let state = get_seed();
        Rng { state: if state == 0 { 0x9E3779B97F4A7C15 } else { state } }
    }

    /// Advances the state by one xorshift64 step and returns it.
    pub fn next(&mut self) -> (n: u64)
        ensures
            n == xorshift(old(self).state),
            final(self).state == n,
    {
        self.state = xorshift_step(self.state);
        self.state
    }

    /// The next value reduced modulo `max`; 0, without a step, when `max` is 0.
    pub fn range(&mut self, max: usize) -> (v: usize)
        ensures
            max == 0 ==> v == 0 && final(self).state == old(self).state,
            max > 0 ==> final(self).state == xorshift(old(self).state) && v == final(self).state % (max as u64)
                && v < max,
    {
        if max == 0 {
            return 0;
        }
        (self.next() % max as u64) as usize
    }
}

} // verus!
