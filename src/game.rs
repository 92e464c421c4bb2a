use vstd::prelude::*;

verus! {

/// A tile of the grid: a positive power of two in normal play.
#[derive(Clone, Copy, Debug, PartialEq, Eq, Structural)]
pub struct Tile {
    value: u32,
}

/// Largest value a tile may hold when it can still be doubled in a `u32`.
pub const MAX_DOUBLABLE: u32 = 0x7fff_ffff;

/// The value of a cell, `None` for an empty one.
pub open spec fn cell_value(c: Option<Tile>) -> Option<nat> {
    match c {
        Some(t) => Some(t.spec_value()),
        None => None,
    }
}

/// The values of a sequence of cells.
pub open spec fn cells_view(cs: Seq<Option<Tile>>) -> Seq<Option<nat>> {
    cs.map_values(|c: Option<Tile>| cell_value(c))
}

/// Every tile in the cells can be doubled without leaving `u32`.
pub open spec fn cells_doublable(cs: Seq<Option<Tile>>) -> bool {
    forall|i: int| 0 <= i < cs.len() && #[trigger] cs[i] is Some ==> cs[i]->0.spec_value() <= MAX_DOUBLABLE
}

/// Scanning a line from its start: the output tiles so far, and whether the
/// last of them was produced by a merge in this pass.
pub open spec fn collapse_scan(line: Seq<Option<nat>>) -> (Seq<nat>, bool)
    decreases line.len(),
{
    if line.len() == 0 {
        (seq![], false)
    } else {
        let (out, merged) = collapse_scan(line.drop_last());
        match line.last() {
            None => (out, merged),
            Some(v) => if !merged && out.len() > 0 && out.last() == v {
                (out.update(out.len() - 1, 2 * v), true)
            } else {
                (out.push(v), false)
            },
        }
    }
}

/// Output tiles placed first, then empty cells up to length four.
pub open spec fn pad_line(out: Seq<nat>) -> Seq<Option<nat>> {
    Seq::new(4, |i: int| if i < out.len() { Some(out[i]) } else { None })
}

/// A line after sliding toward its start and merging equal neighbours once.
pub open spec fn collapsed(line: Seq<Option<nat>>) -> Seq<Option<nat>> {
    pad_line(collapse_scan(line).0)
}

proof fn lemma_scan_len(line: Seq<Option<nat>>)
    ensures
        collapse_scan(line).0.len() <= line.len(),
        collapse_scan(line).1 ==> collapse_scan(line).0.len() > 0,
    decreases line.len(),
{
    if line.len() > 0 {
        lemma_scan_len(line.drop_last());
    }
}

impl Tile {
    /// The value of the tile.
    pub closed spec fn spec_value(&self) -> nat {
        self.value as nat
    }

    /// Returns a new tile with the given value.
    pub fn new(value: u32) -> (r: Tile)
        ensures
            r.spec_value() == value,
    {
        Tile { value }
    }

    /// The value of the tile.
    pub fn value(&self) -> (r: u32)
        ensures
            r == self.spec_value(),
    {
        self.value
    }

    /// Doubles the value of the tile.
    pub fn double(&mut self)
        requires
            old(self).spec_value() <= MAX_DOUBLABLE,
        ensures
            final(self).spec_value() == 2 * old(self).spec_value(),
    {
        self.value = self.value * 2;
    }

    /// Slides the tiles of a line toward its start and merges equal
    /// neighbours; a tile made by a merge does not merge again in the same
    /// pass.
    pub fn squeeze(tiles: [Option<Tile>; 4]) -> (r: [Option<Tile>; 4])
        requires
            cells_doublable(tiles@),
        ensures
            cells_view(r@) == collapsed(cells_view(tiles@)),
    {
        let ghost line = cells_view(tiles@);
        let mut result: Vec<Tile> = Vec::with_capacity(4);
        let mut last_doubled = false;
        let mut i: usize = 0;
        while i < 4
            invariant
                0 <= i <= 4,
                line == cells_view(tiles@),
                cells_doublable(tiles@),
                result@.map_values(|t: Tile| t.spec_value()) == collapse_scan(line.take(i as int)).0,
                last_doubled == collapse_scan(line.take(i as int)).1,
                result@.len() <= i,
            decreases 4 - i,
        {
            proof {
                assert(line.take(i as int + 1).drop_last() == line.take(i as int));
                lemma_scan_len(line.take(i as int));
            }
            let cell = tiles[i];
            match cell {
                Some(t) => {
                    let n = result.len();
                    if !last_doubled && n > 0 && result[n - 1].value == t.value {
                        let mut last = result[n - 1];
                        assert(tiles@[i as int] is Some);
                        last.double();
                        result.set(n - 1, last);
                        last_doubled = true;
                    } else {
                        result.push(t);
                        last_doubled = false;
                    }
                },
                None => {},
            }
            proof {
                let vs = result@.map_values(|t: Tile| t.spec_value());
                let want = collapse_scan(line.take(i as int + 1)).0;
                assert(vs.len() == want.len());
                assert forall|k: int| 0 <= k < vs.len() implies vs[k] == want[k] by {}
                assert(vs =~= want);
            }
            i = i + 1;
        }
        assert(line.take(4) == line);
        let mut result_arr: [Option<Tile>; 4] = [None, None, None, None];
        let mut j: usize = 0;
        while j < result.len()
            invariant
                0 <= j <= result@.len() <= 4,
                forall|k: int| 0 <= k < j ==> result_arr@[k] == Some(result@[k]),
                forall|k: int| j <= k < 4 ==> result_arr@[k] is None,
            decreases result@.len() - j,
        {
            result_arr[j] = Some(result[j]);
            j = j + 1;
        }
        proof {
            let out = collapse_scan(line).0;
            assert(result@.map_values(|t: Tile| t.spec_value()) == out);
            assert(cells_view(result_arr@) =~= pad_line(out));
        }
        result_arr
    }
}

/// The four directions a move can push the tiles toward.
#[derive(Clone, Copy, Debug, PartialEq, Eq, Structural)]
pub enum Direction {
    Up,
    Down,
    Right,
    Left,
}

impl Direction {
    /// Reads a direction code of the input reader: 0 up, 1 down, 2 right,
    /// 3 left; any other code reads as nothing.
    pub fn from_code(code: i32) -> (r: Option<Direction>)
        ensures
            code == 0 ==> r == Some(Direction::Up),
            code == 1 ==> r == Some(Direction::Down),
            code == 2 ==> r == Some(Direction::Right),
            code == 3 ==> r == Some(Direction::Left),
            (code < 0 || code > 3) ==> r is None,
    {
        match code {
            0 => Some(Direction::Up),
            1 => Some(Direction::Down),
            2 => Some(Direction::Right),
            3 => Some(Direction::Left),
            _ => None,
        }
    }
}

/// The grid index of cell `j` of line `k` when moving in direction `d`;
/// cell 0 is the one the tiles move toward.
pub open spec fn line_cell(d: Direction, k: int, j: int) -> int {
    match d {
        Direction::Left => k * 4 + j,
        Direction::Right => k * 4 + 3 - j,
        Direction::Up => j * 4 + k,
        Direction::Down => (3 - j) * 4 + k,
    }
}

/// The line of direction `d` that grid index `i` lies on.
pub open spec fn line_of_cell(d: Direction, i: int) -> int {
    match d {
        Direction::Left | Direction::Right => i / 4,
        Direction::Up | Direction::Down => i % 4,
    }
}

/// The place of grid index `i` within its line of direction `d`.
pub open spec fn place_of_cell(d: Direction, i: int) -> int {
    match d {
        Direction::Left => i % 4,
        Direction::Right => 3 - i % 4,
        Direction::Up => i / 4,
        Direction::Down => 3 - i / 4,
    }
}

/// Line `k` of grid `g` in direction `d`, ordered toward the move.
pub open spec fn grid_line(g: Seq<Option<nat>>, d: Direction, k: int) -> Seq<Option<nat>> {
    Seq::new(4, |j: int| g[line_cell(d, k, j)])
}

/// Grid `g` after a move in direction `d`: every line collapsed toward it.
pub open spec fn after_move(g: Seq<Option<nat>>, d: Direction) -> Seq<Option<nat>> {
    Seq::new(16, |i: int| collapsed(grid_line(g, d, line_of_cell(d, i)))[place_of_cell(d, i)])
}

/// Every cell of the grid holds a tile.
pub open spec fn is_full(g: Seq<Option<nat>>) -> bool {
    forall|i: int| 0 <= i < 16 ==> #[trigger] g[i] is Some
}

/// Two neighbouring cells of a row, or of a column, hold equal values.
pub open spec fn has_equal_neighbours(g: Seq<Option<nat>>) -> bool {
    exists|i: int|
        0 <= i < 16 && ((i % 4 != 3 && #[trigger] g[i] == g[i + 1]) || (i < 12 && g[i] == g[i + 4]))
}

/// The grid is full and no move can change it.
pub open spec fn game_over(g: Seq<Option<nat>>) -> bool {
    is_full(g) && !has_equal_neighbours(g)
}

/// The indices of the empty cells of `g`, in increasing order.
pub open spec fn empty_cells(g: Seq<Option<nat>>) -> Seq<int>
    decreases g.len(),
{
    if g.len() == 0 {
        seq![]
    } else if g.last() is None {
        empty_cells(g.drop_last()).push(g.len() - 1)
    } else {
        empty_cells(g.drop_last())
    }
}

/// The value of a spawned tile for a random draw.
pub open spec fn spawn_value(roll: u32) -> nat {
    ((roll % 2) + 1) as nat * 2
}

proof fn lemma_line_cell(d: Direction)
    ensures
        forall|k: int, j: int|
            0 <= k < 4 && 0 <= j < 4 ==> {
                let i = #[trigger] line_cell(d, k, j);
                0 <= i < 16 && line_of_cell(d, i) == k && place_of_cell(d, i) == j
            },
        forall|i: int|
            0 <= i < 16 ==> {
                let k = #[trigger] line_of_cell(d, i);
                let j = place_of_cell(d, i);
                0 <= k < 4 && 0 <= j < 4 && line_cell(d, k, j) == i
            },
{
}

proof fn lemma_empty_cells(g: Seq<Option<nat>>)
    ensures
        empty_cells(g).len() <= g.len(),
        forall|k: int|
            0 <= k < empty_cells(g).len() ==> {
                let i = #[trigger] empty_cells(g)[k];
                0 <= i < g.len() && g[i] is None
            },
        forall|i: int| 0 <= i < g.len() && g[i] is None ==> exists|k: int|
            0 <= k < empty_cells(g).len() && #[trigger] empty_cells(g)[k] == i,
    decreases g.len(),
{
    if g.len() > 0 {
        let h = g.drop_last();
        lemma_empty_cells(h);
        assert forall|i: int| 0 <= i < g.len() && g[i] is None implies exists|k: int|
            0 <= k < empty_cells(g).len() && #[trigger] empty_cells(g)[k] == i by {
            if i < h.len() {
                assert(h[i] is None);
                let k = choose|k: int| 0 <= k < empty_cells(h).len() && #[trigger] empty_cells(h)[k] == i;
                assert(empty_cells(g)[k] == i);
            } else {
                assert(empty_cells(g)[empty_cells(g).len() - 1] == i);
            }
        }
    }
}

/// The game grid: sixteen cells, row by row, each empty or holding a tile.
#[derive(Clone, Copy, PartialEq, Eq)]
pub struct Table {
    tiles: [Option<Tile>; 16],
}

impl View for Table {
    type V = Seq<Option<nat>>;

    closed spec fn view(&self) -> Seq<Option<nat>> {
        cells_view(self.tiles@)
    }
}

impl Table {
    /// Every tile is a power of two of at least two.
    pub open spec fn well_formed(&self) -> bool {
        forall|i: int| 0 <= i < 16 && #[trigger] self@[i] is Some ==> self@[i]->0 >= 2 && is_power_of_two(self@[i]->0)
    }

    /// Every tile can still be doubled within a `u32`.
    pub closed spec fn doublable(&self) -> bool {
        cells_doublable(self.tiles@)
    }

    /// Creates an empty table.
    pub fn new() -> (r: Table)
        ensures
            r@ == Seq::new(16, |i: int| None::<nat>),
            r.well_formed(),
    {
        let r = Table { tiles: [None; 16] };
        assert(r@ =~= Seq::new(16, |i: int| None::<nat>));
        r
    }

    /// Whether every tile can still be doubled within a `u32`, as a move
    /// requires.
    pub fn is_doublable(&self) -> (r: bool)
        ensures
            r == self.doublable(),
    {
        let mut i: usize = 0;
        while i < 16
            invariant
                0 <= i <= 16,
                forall|k: int| 0 <= k < i && #[trigger] self.tiles@[k] is Some ==> self.tiles@[k]->0.spec_value() <= MAX_DOUBLABLE,
            decreases 16 - i,
        {
            match self.tiles[i] {
                Some(t) => {
                    if t.value > MAX_DOUBLABLE {
                        return false;
                    }
                },
                None => {},
            }
            i = i + 1;
        }
        true
    }

    /// Creates a table holding the given cells, row by row.
    pub fn from_cells(cells: [Option<Tile>; 16]) -> (r: Table)
        ensures
            r@ == cells_view(cells@),
    {
        Table { tiles: cells }
    }

    /// The cells of the table, row by row.
    pub fn cells(&self) -> (r: [Option<Tile>; 16])
        ensures
            cells_view(r@) == self@,
    {
        self.tiles
    }
}

/// `n` is a power of two.
pub open spec fn is_power_of_two(n: nat) -> bool
    decreases n,
{
    if n <= 1 {
        n == 1
    } else {
        n % 2 == 0 && is_power_of_two(n / 2)
    }
}

/// Every tile in the line is a power of two of at least two.
pub open spec fn line_well_formed(line: Seq<Option<nat>>) -> bool {
    forall|i: int| 0 <= i < line.len() && #[trigger] line[i] is Some ==> line[i]->0 >= 2 && is_power_of_two(line[i]->0)
}

proof fn lemma_scan_well_formed(line: Seq<Option<nat>>)
    requires
        line_well_formed(line),
    ensures
        forall|k: int| 0 <= k < collapse_scan(line).0.len() ==>
            #[trigger] collapse_scan(line).0[k] >= 2 && is_power_of_two(collapse_scan(line).0[k]),
    decreases line.len(),
{
    if line.len() > 0 {
        let h = line.drop_last();
        assert forall|i: int| 0 <= i < h.len() && #[trigger] h[i] is Some implies h[i]->0 >= 2 && is_power_of_two(h[i]->0) by {
            assert(line[i] == h[i]);
        }
        lemma_scan_well_formed(h);
        let (out, merged) = collapse_scan(h);
        if let Some(v) = line.last() {
            assert(line[line.len() - 1] is Some);
            if !merged && out.len() > 0 && out.last() == v {
                let w: nat = 2 * v;
                assert(w / 2 == v);
                assert(is_power_of_two(w));
                let o2 = out.update(out.len() - 1, w);
                assert(collapse_scan(line).0 == o2);
                assert forall|k: int| 0 <= k < o2.len() implies #[trigger] o2[k] >= 2 && is_power_of_two(o2[k]) by {
                    if k < out.len() - 1 {
                        assert(o2[k] == out[k]);
                    }
                }
            } else {
                let o2 = out.push(v);
                assert(collapse_scan(line).0 == o2);
                assert forall|k: int| 0 <= k < o2.len() implies #[trigger] o2[k] >= 2 && is_power_of_two(o2[k]) by {
                    if k < out.len() {
                        assert(o2[k] == out[k]);
                    }
                }
            }
        }
    }
}

/// The grid index of cell `j` of line `k` in direction `d`.
fn cell_index(d: Direction, k: usize, j: usize) -> (r: usize)
    requires
        k < 4,
        j < 4,
    ensures
        r == line_cell(d, k as int, j as int),
{
    match d {
        Direction::Left => k * 4 + j,
        Direction::Right => k * 4 + 3 - j,
        Direction::Up => j * 4 + k,
        Direction::Down => (3 - j) * 4 + k,
    }
}

impl Table {
    /// Moves every tile toward direction `d`: each line in that direction is
    /// collapsed toward its end on the side of `d`.
    pub fn swipe(&mut self, d: Direction)
        requires
            old(self).doublable(),
        ensures
            final(self)@ == after_move(old(self)@, d),
            old(self).well_formed() ==> final(self).well_formed(),
    {
        let ghost g0 = self@;
        proof {
            lemma_line_cell(d);
        }
        let mut k: usize = 0;
        while k < 4
            invariant
                0 <= k <= 4,
                g0 == old(self)@,
                old(self).doublable(),
                forall|i: int| 0 <= i < 16 && line_of_cell(d, i) < k ==>
                    #[trigger] self@[i] == collapsed(grid_line(g0, d, line_of_cell(d, i)))[place_of_cell(d, i)],
                forall|i: int| 0 <= i < 16 && line_of_cell(d, i) >= k ==>
                    #[trigger] self.tiles@[i] == old(self).tiles@[i],
                forall|k: int, j: int|
                    0 <= k < 4 && 0 <= j < 4 ==> {
                        let i = #[trigger] line_cell(d, k, j);
                        0 <= i < 16 && line_of_cell(d, i) == k && place_of_cell(d, i) == j
                    },
            decreases 4 - k,
        {
            let i0 = cell_index(d, k, 0);
            let i1 = cell_index(d, k, 1);
            let i2 = cell_index(d, k, 2);
            let i3 = cell_index(d, k, 3);
            let line = [self.tiles[i0], self.tiles[i1], self.tiles[i2], self.tiles[i3]];
            proof {
                assert(old(self).tiles@[i0 as int] == line@[0]);
                assert(old(self).tiles@[i1 as int] == line@[1]);
                assert(old(self).tiles@[i2 as int] == line@[2]);
                assert(old(self).tiles@[i3 as int] == line@[3]);
                assert(cells_doublable(line@));
                assert(cells_view(line@) =~= grid_line(g0, d, k as int));
            }
            let result = Tile::squeeze(line);
            let ghost before = self.tiles@;
            let ghost before_view = self@;
            self.tiles[i0] = result[0];
            self.tiles[i1] = result[1];
            self.tiles[i2] = result[2];
            self.tiles[i3] = result[3];
            proof {
                let col = collapsed(grid_line(g0, d, k as int));
                assert(self@[i0 as int] == col[0]);
                assert(self@[i1 as int] == col[1]);
                assert(self@[i2 as int] == col[2]);
                assert(self@[i3 as int] == col[3]);
                assert forall|i: int| 0 <= i < 16 && line_of_cell(d, i) != k implies
                    #[trigger] self.tiles@[i] == before[i] by {}
                assert forall|i: int| 0 <= i < 16 && line_of_cell(d, i) == k implies
                    #[trigger] self@[i] == col[place_of_cell(d, i)] by {
                    lemma_line_cell(d);
                    let j = place_of_cell(d, i);
                    assert(line_cell(d, k as int, j) == i);
                }
                assert forall|i: int| 0 <= i < 16 && line_of_cell(d, i) < k + 1 implies
                    #[trigger] self@[i] == collapsed(grid_line(g0, d, line_of_cell(d, i)))[place_of_cell(d, i)] by {
                    if line_of_cell(d, i) < k {
                        assert(self.tiles@[i] == before[i]);
                        assert(before_view[i] == cell_value(before[i]));
                    }
                }
            }
            k = k + 1;
        }
        proof {
            assert(self@ =~= after_move(g0, d));
            if old(self).well_formed() {
                assert forall|i: int| 0 <= i < 16 && #[trigger] self@[i] is Some implies
                    self@[i]->0 >= 2 && is_power_of_two(self@[i]->0) by {
                    let line = grid_line(g0, d, line_of_cell(d, i));
                    assert forall|j: int| 0 <= j < line.len() && #[trigger] line[j] is Some implies
                        line[j]->0 >= 2 && is_power_of_two(line[j]->0) by {
                        assert(line[j] == g0[line_cell(d, line_of_cell(d, i), j)]);
                    }
                    lemma_scan_well_formed(line);
                }
            }
        }
    }

    /// Moves every tile up, merging equal neighbours of each column once.
    pub fn swipe_up(&mut self)
        requires
            old(self).doublable(),
        ensures
            final(self)@ == after_move(old(self)@, Direction::Up),
            old(self).well_formed() ==> final(self).well_formed(),
    {
        self.swipe(Direction::Up);
    }

    /// Moves every tile down, merging equal neighbours of each column once.
    pub fn swipe_down(&mut self)
        requires
            old(self).doublable(),
        ensures
            final(self)@ == after_move(old(self)@, Direction::Down),
            old(self).well_formed() ==> final(self).well_formed(),
    {
        self.swipe(Direction::Down);
    }

    /// Moves every tile right, merging equal neighbours of each row once.
    pub fn swipe_right(&mut self)
        requires
            old(self).doublable(),
        ensures
            final(self)@ == after_move(old(self)@, Direction::Right),
            old(self).well_formed() ==> final(self).well_formed(),
    {
        self.swipe(Direction::Right);
    }

    /// Moves every tile left, merging equal neighbours of each row once.
    pub fn swipe_left(&mut self)
        requires
            old(self).doublable(),
        ensures
            final(self)@ == after_move(old(self)@, Direction::Left),
            old(self).well_formed() ==> final(self).well_formed(),
    {
        self.swipe(Direction::Left);
    }
}

/// Relies on `rand::random`: a value drawn from the thread's generator.
/// Nothing is known of the value.
pub assume_specification<T>[ rand::random::<T> ]() -> (r: T)
    where
        rand::distributions::Standard: rand::distributions::Distribution<T>,
;

/// Whether two cells hold tiles of equal value.
fn same_tile(a: Option<Tile>, b: Option<Tile>) -> (r: bool)
    ensures
        r == (a is Some && cell_value(a) == cell_value(b)),
{
    match (a, b) {
        (Some(x), Some(y)) => x.value == y.value,
        _ => false,
    }
}

impl Table {
    /// Whether the game is over: the table is full and no two neighbouring
    /// cells of a row or a column hold equal tiles.
    pub fn is_game_over(&self) -> (r: bool)
        ensures
            r == game_over(self@),
            !is_full(self@) ==> !r,
            is_full(self@) && has_equal_neighbours(self@) ==> !r,
            is_full(self@) && !has_equal_neighbours(self@) ==> r,
    {
        let mut i: usize = 0;
        while i < 16
            invariant
                0 <= i <= 16,
                forall|k: int| 0 <= k < i ==> #[trigger] self@[k] is Some,
                forall|k: int|
                    0 <= k < i ==> !((k % 4 != 3 && #[trigger] self@[k] == self@[k + 1]) || (k < 12 && self@[k] == self@[k + 4])),
            decreases 16 - i,
        {
            if self.tiles[i].is_none() {
                assert(self@[i as int] is None);
                return false;
            }
            if i % 4 != 3 {
                if same_tile(self.tiles[i], self.tiles[i + 1]) {
                    assert(self@[i as int] == self@[i as int + 1]);
                    return false;
                }
            }
            if i < 12 {
                if same_tile(self.tiles[i], self.tiles[i + 4]) {
                    assert(self@[i as int] == self@[i as int + 4]);
                    return false;
                }
            }
            assert(self@[i as int] is Some);
            i = i + 1;
        }
        true
    }

    /// The indices of the empty cells, in increasing order.
    fn empty_indices(&self) -> (r: Vec<usize>)
        ensures
            r@.map_values(|x: usize| x as int) == empty_cells(self@),
            r@.len() <= 16,
    {
        let mut empty: Vec<usize> = Vec::with_capacity(16);
        let mut i: usize = 0;
        while i < 16
            invariant
                0 <= i <= 16,
                empty@.map_values(|x: usize| x as int) == empty_cells(self@.take(i as int)),
                empty@.len() <= i,
            decreases 16 - i,
        {
            assert(self@.take(i as int + 1).drop_last() == self@.take(i as int));
            if self.tiles[i].is_none() {
                empty.push(i);
                assert(empty@.map_values(|x: usize| x as int) =~= empty_cells(self@.take(i as int)).push(i as int));
            }
            i = i + 1;
        }
        assert(self@.take(16) == self@);
        empty
    }

    /// Places a new tile chosen by two draws: the empty cell at
    /// `index_roll` modulo the number of empty cells, and the value 2 or 4
    /// by the parity of `value_roll`. A full table is left as it is and
    /// gives `Err`.
    pub fn place_tile(&mut self, index_roll: usize, value_roll: u32) -> (r: Result<(), ()>)
        ensures
            empty_cells(old(self)@).len() == 0 ==> r is Err && *final(self) == *old(self),
            empty_cells(old(self)@).len() > 0 ==> r is Ok && final(self)@ == old(self)@.update(
                empty_cells(old(self)@)[index_roll as int % empty_cells(old(self)@).len() as int],
                Some(spawn_value(value_roll)),
            ),
            old(self).well_formed() ==> final(self).well_formed(),
    {
        let empty = self.empty_indices();
        proof {
            lemma_empty_cells(self@);
        }
        let n = empty.len();
        if n == 0 {
            Err(())
        } else {
            let at = empty[index_roll % n];
            let value = (value_roll % 2 + 1) * 2;
            assert(at as int == empty_cells(self@)[index_roll as int % n as int]);
            let ghost before = self.tiles@;
            self.tiles[at] = Some(Tile::new(value));
            proof {
                assert(self@ =~= old(self)@.update(at as int, Some(spawn_value(value_roll))));
                if old(self).well_formed() {
                    assert(is_power_of_two(1));
                    assert(is_power_of_two(2));
                    assert(is_power_of_two(4));
                    assert forall|i: int| 0 <= i < 16 && #[trigger] self@[i] is Some implies
                        self@[i]->0 >= 2 && is_power_of_two(self@[i]->0) by {
                        if i != at {
                            assert(self@[i] == old(self)@[i]);
                        }
                    }
                }
            }
            Ok(())
        }
    }

    /// Places a new tile of value 2 or 4, both drawn at random, in an empty
    /// cell drawn at random. A full table is left as it is and gives `Err`.
    pub fn add_tile(&mut self) -> (r: Result<(), ()>)
        ensures
            empty_cells(old(self)@).len() == 0 <==> r is Err,
            r is Err ==> *final(self) == *old(self),
            r is Ok ==> exists|k: int| 0 <= k < empty_cells(old(self)@).len() && {
                let i = #[trigger] empty_cells(old(self)@)[k];
                &&& (final(self)@[i] == Some(2nat) || final(self)@[i] == Some(4nat))
                &&& final(self)@ == old(self)@.update(i, final(self)@[i])
            },
            is_full(old(self)@) ==> r is Err && *final(self) == *old(self),
            empty_cells(old(self)@).len() == 1 ==> r is Ok && {
                let i = empty_cells(old(self)@)[0];
                &&& old(self)@[i] is None
                &&& (final(self)@[i] == Some(2nat) || final(self)@[i] == Some(4nat))
                &&& final(self)@ == old(self)@.update(i, final(self)@[i])
            },
            old(self).well_formed() ==> final(self).well_formed(),
    {
        let index_roll = rand::random::<usize>();
        let value_roll = rand::random::<u32>();
        let ghost g = self@;
        proof {
            lemma_empty_cells(g);
            if is_full(g) && empty_cells(g).len() > 0 {
                let i = empty_cells(g)[0];
                assert(g[i] is None);
            }
        }
        let r = self.place_tile(index_roll, value_roll);
        proof {
            if empty_cells(g).len() > 0 {
                let k = index_roll as int % empty_cells(g).len() as int;
                let i = empty_cells(g)[k];
                assert(self@[i] == Some(spawn_value(value_roll)));
                assert(self@ == g.update(i, self@[i]));
            }
        }
        r
    }
}

} // verus!
