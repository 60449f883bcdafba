//! The board engine: tiles, grid addressing, deferred mine placement and the
//! two player actions (uncover with flood reveal, and mark cycling).

use vstd::prelude::*;

verus! {

/// Construction parameters of a board: grid dimensions and mine count.
#[derive(Debug, Clone, Copy, PartialEq, Eq, Structural)]
pub struct Params {
    pub width: usize,
    pub height: usize,
    pub mines: usize,
}

/// Player annotation on a covered tile.
#[derive(Debug, Clone, Copy, PartialEq, Eq, Structural)]
pub enum Mark {
    /// Mine flag, indicates player certainty of a mine, and disables
    /// uncovering the marked tile, for safety.
    Flag,
    /// "Danger, probably" marker, for tiles that are suspicious but not yet
    /// worthy of the [Mark::Flag].
    Unsure,
    /// No annotation.
    Clear,
}

/// Whether a tile is still hidden (with its annotation) or revealed for good.
#[derive(Debug, Clone, Copy, PartialEq, Eq, Structural)]
pub enum Cover {
    Up(Mark),
    Down,
}

/// What a tile conceals: a mine, a count of adjacent mines, or nothing.
#[derive(Debug, Clone, Copy, PartialEq, Eq, Structural)]
pub enum Object {
    Mine,
    Hint(u8),
    Blank,
}

/// One cell of the board: a cover state paired with fixed contents.
#[derive(Debug, Clone, Copy, PartialEq, Eq, Structural)]
pub struct Tile {
    pub cover: Cover,
    pub object: Object,
}

impl Mark {
    /// The fixed rotation Clear -> Flag -> Unsure -> Clear.
    pub open spec fn next(self) -> Mark {
        match self {
            Mark::Clear => Mark::Flag,
            Mark::Flag => Mark::Unsure,
            Mark::Unsure => Mark::Clear,
        }
    }

    fn cycle(&mut self)
        ensures
            *final(self) == old(self).next(),
    {
        *self = match *self {
            Mark::Clear => Mark::Flag,
            Mark::Flag => Mark::Unsure,
            Mark::Unsure => Mark::Clear,
        };
    }
}

/// Cycling a mark three times returns it to where it started.
pub proof fn lemma_mark_cycle(m: Mark)
    ensures
        m.next().next().next() == m,
{
}

impl Tile {
    /// A fresh tile: covered, unmarked, provisionally blank.
    pub open spec fn fresh() -> Tile {
        Tile { cover: Cover::Up(Mark::Clear), object: Object::Blank }
    }

    pub open spec fn cover_spec(self) -> Cover {
        self.cover
    }

    pub open spec fn object_spec(self) -> Object {
        self.object
    }

    pub open spec fn is_up(self) -> bool {
        self.cover is Up
    }

    pub open spec fn is_down(self) -> bool {
        self.cover is Down
    }

    /// Hidden and not flagged: the only state an uncover action may reveal.
    pub open spec fn is_uncoverable_spec(self) -> bool {
        self.cover matches Cover::Up(m) && m != Mark::Flag
    }

    pub open spec fn is_flagged(self) -> bool {
        self.cover == Cover::Up(Mark::Flag)
    }

    pub open spec fn is_mine_spec(self) -> bool {
        self.object is Mine
    }

    pub open spec fn is_blank_spec(self) -> bool {
        self.object is Blank
    }

    pub fn cover(&self) -> (c: Cover)
        ensures
            c == self.cover_spec(),
    {
        self.cover
    }

    pub fn object(&self) -> (o: Object)
        ensures
            o == self.object_spec(),
    {
        self.object
    }

    fn is_uncoverable(&self) -> (r: bool)
        ensures
            r == self.is_uncoverable_spec(),
    {
        match self.cover {
            Cover::Up(mark) => !matches!(mark, Mark::Flag),
            Cover::Down => false,
        }
    }

    fn is_mine(&self) -> (r: bool)
        ensures
            r == self.is_mine_spec(),
    {
        matches!(self.object, Object::Mine)
    }

    fn is_hint(&self) -> (r: bool)
        ensures
            r == (self.object is Hint),
    {
        matches!(self.object, Object::Hint(_))
    }
}

} // verus!

use crate::counting::{count_where, lemma_count_all, lemma_count_bounds, lemma_count_le, lemma_count_lt, lemma_count_none, lemma_count_pointwise, lemma_count_update};

verus! {

impl Params {
    /// Dimensions of at least one tile each, a total that fits in `usize`,
    /// and fewer mines than tiles, so that a safe first click exists.
    pub open spec fn valid(self) -> bool {
        &&& 1 <= self.width
        &&& 1 <= self.height
        &&& self.width * self.height <= usize::MAX
        &&& self.mines < self.width * self.height
    }
}

/// Is (x, y) a coordinate on a `w` by `h` grid?
pub open spec fn in_bounds(w: int, h: int, x: int, y: int) -> bool {
    0 <= x < w && 0 <= y < h
}

/// Position of (x, y) in the row-major tile array.
pub open spec fn idx_of(w: int, x: int, y: int) -> int {
    y * w + x
}

/// Distinct coordinates whose rows and columns differ by at most one:
/// the eight-way neighbourhood.
pub open spec fn adjacent(x1: int, y1: int, x2: int, y2: int) -> bool {
    &&& !(x1 == x2 && y1 == y2)
    &&& -1 <= x1 - x2 <= 1
    &&& -1 <= y1 - y2 <= 1
}

pub proof fn lemma_idx_bounds(w: int, h: int, x: int, y: int)
    requires
        in_bounds(w, h, x, y),
    ensures
        0 <= idx_of(w, x, y) < w * h,
{
    assert(0 <= y * w + x < w * h) by (nonlinear_arith)
        requires
            0 <= x < w,
            0 <= y < h,
    ;
}

pub proof fn lemma_idx_injective(w: int, h: int, x1: int, y1: int, x2: int, y2: int)
    requires
        in_bounds(w, h, x1, y1),
        in_bounds(w, h, x2, y2),
        idx_of(w, x1, y1) == idx_of(w, x2, y2),
    ensures
        x1 == x2 && y1 == y2,
{
    assert(x1 == x2 && y1 == y2) by (nonlinear_arith)
        requires
            0 <= x1 < w,
            0 <= y1 < h,
            0 <= x2 < w,
            0 <= y2 < h,
            y1 * w + x1 == y2 * w + x2,
    ;
}

pub proof fn lemma_idx_distinct(w: int, h: int, x1: int, y1: int, x2: int, y2: int)
    requires
        in_bounds(w, h, x1, y1),
        in_bounds(w, h, x2, y2),
        !(x1 == x2 && y1 == y2),
    ensures
        idx_of(w, x1, y1) != idx_of(w, x2, y2),
{
    assert(y1 * w + x1 != y2 * w + x2) by (nonlinear_arith)
        requires
            0 <= x1 < w,
            0 <= y1 < h,
            0 <= x2 < w,
            0 <= y2 < h,
            !(x1 == x2 && y1 == y2),
    ;
}

/// 1 when (x, y) is on the grid and holds a mine, else 0.
pub open spec fn mine_ind(s: Seq<Tile>, w: int, h: int, x: int, y: int) -> int {
    if in_bounds(w, h, x, y) && s[idx_of(w, x, y)].is_mine_spec() {
        1
    } else {
        0
    }
}

/// The exact count of in-bounds eight-way neighbours of (x, y) that are mines.
pub open spec fn adj_mines(s: Seq<Tile>, w: int, h: int, x: int, y: int) -> int {
    mine_ind(s, w, h, x - 1, y - 1) + mine_ind(s, w, h, x, y - 1) + mine_ind(s, w, h, x + 1, y - 1)
        + mine_ind(s, w, h, x - 1, y) + mine_ind(s, w, h, x + 1, y)
        + mine_ind(s, w, h, x - 1, y + 1) + mine_ind(s, w, h, x, y + 1)
        + mine_ind(s, w, h, x + 1, y + 1)
}

/// The contents a non-mine tile with `n` mine-neighbours must hold.
pub open spec fn hint_object(n: int) -> Object {
    if n > 0 {
        Object::Hint(n as u8)
    } else {
        Object::Blank
    }
}

/// Every non-mine tile carries exactly its neighbour mine count: a hint when
/// positive, blank when zero.
pub open spec fn hints_correct(s: Seq<Tile>, w: int, h: int) -> bool {
    forall|x: int, y: int|
        in_bounds(w, h, x, y) && !(#[trigger] s[idx_of(w, x, y)]).is_mine_spec()
            ==> s[idx_of(w, x, y)].object_spec() == hint_object(adj_mines(s, w, h, x, y))
}

/// A revealed blank at (tx, ty) with a still-uncoverable neighbour at
/// (cx, cy): the spot where a flood reveal has work left to do.
pub open spec fn open_frontier_at(
    s: Seq<Tile>,
    w: int,
    h: int,
    tx: int,
    ty: int,
    cx: int,
    cy: int,
) -> bool {
    &&& in_bounds(w, h, tx, ty)
    &&& in_bounds(w, h, cx, cy)
    &&& adjacent(tx, ty, cx, cy)
    &&& s[idx_of(w, tx, ty)].is_down()
    &&& s[idx_of(w, tx, ty)].is_blank_spec()
    &&& s[idx_of(w, cx, cy)].is_uncoverable_spec()
}

/// No revealed blank tile has an uncoverable neighbour: every blank region
/// that has been opened is fully revealed up to its hint boundary.
pub open spec fn flood_closed(s: Seq<Tile>, w: int, h: int) -> bool {
    forall|tx: int, ty: int, cx: int, cy: int| !open_frontier_at(s, w, h, tx, ty, cx, cy)
}

/// The board: a row-major tile array plus aggregate state. `covered` counts
/// the tiles still covered (clamped below at the mine count), `placed` turns
/// true when the first uncover scatters the mines, and `defeat` turns true
/// for good when a mine is revealed.
#[derive(Debug)]
pub struct Board {
    pub tiles: Vec<Tile>,
    pub covered: usize,
    pub params: Params,
    pub placed: bool,
    pub defeat: bool,
}

impl Board {
    pub open spec fn total_spec(self) -> int {
        self.params.width * self.params.height
    }

    pub open spec fn up_count(self) -> int {
        count_where(self.tiles@, |t: Tile| t.is_up())
    }

    pub open spec fn mine_count(self) -> int {
        count_where(self.tiles@, |t: Tile| t.is_mine_spec())
    }

    pub open spec fn tile_at(self, x: int, y: int) -> Tile {
        self.tiles@[idx_of(self.params.width as int, x, y)]
    }

    /// Victory: the covered count has converged to the mine count and no
    /// mine was ever revealed.
    pub open spec fn victory_spec(self) -> bool {
        self.covered == self.params.mines && !self.defeat
    }

    /// The board's well-formedness invariant. Every constructor establishes
    /// it and every action preserves it.
    pub open spec fn inv(self) -> bool {
        &&& self.params.valid()
        &&& self.tiles@.len() == self.total_spec()
        &&& self.covered >= self.params.mines
        &&& (self.defeat ==> self.placed)
        &&& (!self.placed ==> {
            &&& !self.defeat
            &&& self.covered == self.tiles@.len()
            &&& forall|i: int| 0 <= i < self.tiles@.len() ==> (#[trigger] self.tiles@[i]).is_up()
            &&& forall|i: int|
                0 <= i < self.tiles@.len()
                    ==> (#[trigger] self.tiles@[i]).object_spec() == Object::Blank
        })
        &&& (self.placed ==> {
            &&& self.mine_count() == self.params.mines
            &&& hints_correct(self.tiles@, self.params.width as int, self.params.height as int)
        })
        &&& self.covered == self.up_count()
        &&& (!self.defeat ==> forall|i: int|
            0 <= i < self.tiles@.len() && (#[trigger] self.tiles@[i]).is_mine_spec()
                ==> self.tiles@[i].is_up())
    }

    /// A fresh board: every tile covered, unmarked and provisionally blank;
    /// mines are only scattered on the first uncover.
    pub fn new(params: Params) -> (b: Board)
        requires
            params.valid(),
        ensures
            b.inv(),
            b.params == params,
            !b.placed,
            !b.defeat,
            !b.victory_spec(),
            b.covered == b.tiles@.len(),
            forall|i: int| 0 <= i < b.tiles@.len() ==> #[trigger] b.tiles@[i] == Tile::fresh(),
            flood_closed(b.tiles@, params.width as int, params.height as int),
    {
        let size = params.width * params.height;
        let mut tiles: Vec<Tile> = Vec::new();
        let mut i: usize = 0;
        while i < size
            invariant
                i <= size,
                tiles@.len() == i,
                forall|j: int| 0 <= j < i ==> #[trigger] tiles@[j] == Tile::fresh(),
            decreases size - i,
        {
            tiles.push(Tile { cover: Cover::Up(Mark::Clear), object: Object::Blank });
            i = i + 1;
        }
        let b = Board { tiles, covered: size, params, placed: false, defeat: false };
        proof {
            lemma_count_all(b.tiles@, |t: Tile| t.is_up());
            assert forall|tx: int, ty: int, cx: int, cy: int|
                !open_frontier_at(b.tiles@, params.width as int, params.height as int, tx, ty, cx, cy)
            by {
                if in_bounds(params.width as int, params.height as int, tx, ty) {
                    lemma_idx_bounds(params.width as int, params.height as int, tx, ty);
                }
            }
        }
        b
    }

    /// An 8 by 8 board with 10 mines.
    pub fn beginner() -> (b: Board)
        ensures
            b.inv(),
            !b.placed,
            !b.defeat,
            !b.victory_spec(),
            b.params == (Params { width: 8, height: 8, mines: 10 }),
            b.covered == b.tiles@.len(),
            forall|i: int| 0 <= i < b.tiles@.len() ==> #[trigger] b.tiles@[i] == Tile::fresh(),
    {
        Board::new(Params { width: 8, height: 8, mines: 10 })
    }

    /// A 16 by 16 board with 40 mines.
    pub fn intermediate() -> (b: Board)
        ensures
            b.inv(),
            !b.placed,
            !b.defeat,
            !b.victory_spec(),
            b.params == (Params { width: 16, height: 16, mines: 40 }),
            b.covered == b.tiles@.len(),
            forall|i: int| 0 <= i < b.tiles@.len() ==> #[trigger] b.tiles@[i] == Tile::fresh(),
    {
        Board::new(Params { width: 16, height: 16, mines: 40 })
    }

    /// A 30 by 16 board with 99 mines.
    pub fn expert() -> (b: Board)
        ensures
            b.inv(),
            !b.placed,
            !b.defeat,
            !b.victory_spec(),
            b.params == (Params { width: 30, height: 16, mines: 99 }),
            b.covered == b.tiles@.len(),
            forall|i: int| 0 <= i < b.tiles@.len() ==> #[trigger] b.tiles@[i] == Tile::fresh(),
    {
        Board::new(Params { width: 30, height: 16, mines: 99 })
    }

    pub fn dims(&self) -> (d: (usize, usize))
        ensures
            d.0 == self.params.width,
            d.1 == self.params.height,
    {
        (self.params.width, self.params.height)
    }

    /// Row-major index of an in-bounds coordinate.
    fn coords_to_index(&self, x: usize, y: usize) -> (i: usize)
        requires
            self.params.valid(),
            x < self.params.width,
            y < self.params.height,
        ensures
            i == idx_of(self.params.width as int, x as int, y as int),
            i < self.params.width * self.params.height,
    {
        proof {
            lemma_idx_bounds(self.params.width as int, self.params.height as int, x as int, y as int);
        }
        y * self.params.width + x
    }

    /// Snapshot of the tile at an in-bounds coordinate.
    pub fn tile(&self, x: usize, y: usize) -> (t: Tile)
        requires
            self.inv(),
            x < self.params.width,
            y < self.params.height,
        ensures
            t == self.tile_at(x as int, y as int),
    {
        let index = self.coords_to_index(x, y);
        self.tiles[index]
    }

    pub fn is_victory(&self) -> (r: bool)
        ensures
            r == self.victory_spec(),
    {
        self.covered == self.params.mines && !self.defeat
    }

    pub fn is_defeat(&self) -> (r: bool)
        ensures
            r == self.defeat,
    {
        self.defeat
    }
}

} // verus!

verus! {

/// The two mine indicators agree wherever the two boards' mines agree.
proof fn lemma_mine_ind_same(s1: Seq<Tile>, s2: Seq<Tile>, w: int, h: int, x: int, y: int)
    requires
        s1.len() == w * h,
        s2.len() == w * h,
        forall|i: int| 0 <= i < s1.len()
            ==> ((#[trigger] s1[i]).is_mine_spec() <==> s2[i].is_mine_spec()),
    ensures
        mine_ind(s1, w, h, x, y) == mine_ind(s2, w, h, x, y),
{
    if in_bounds(w, h, x, y) {
        lemma_idx_bounds(w, h, x, y);
    }
}

/// Neighbour mine counts depend only on where the mines are.
pub proof fn lemma_adj_mines_same(s1: Seq<Tile>, s2: Seq<Tile>, w: int, h: int, x: int, y: int)
    requires
        s1.len() == w * h,
        s2.len() == w * h,
        forall|i: int| 0 <= i < s1.len()
            ==> ((#[trigger] s1[i]).is_mine_spec() <==> s2[i].is_mine_spec()),
    ensures
        adj_mines(s1, w, h, x, y) == adj_mines(s2, w, h, x, y),
{
    lemma_mine_ind_same(s1, s2, w, h, x - 1, y - 1);
    lemma_mine_ind_same(s1, s2, w, h, x, y - 1);
    lemma_mine_ind_same(s1, s2, w, h, x + 1, y - 1);
    lemma_mine_ind_same(s1, s2, w, h, x - 1, y);
    lemma_mine_ind_same(s1, s2, w, h, x + 1, y);
    lemma_mine_ind_same(s1, s2, w, h, x - 1, y + 1);
    lemma_mine_ind_same(s1, s2, w, h, x, y + 1);
    lemma_mine_ind_same(s1, s2, w, h, x + 1, y + 1);
}

/// Hint correctness carries over to a board with the same objects
/// (for instance one that differs only in cover states).
pub proof fn lemma_hints_correct_same_objects(s1: Seq<Tile>, s2: Seq<Tile>, w: int, h: int)
    requires
        s1.len() == w * h,
        s2.len() == w * h,
        forall|i: int| 0 <= i < s1.len()
            ==> (#[trigger] s1[i]).object_spec() == s2[i].object_spec(),
        hints_correct(s1, w, h),
    ensures
        hints_correct(s2, w, h),
{
    assert forall|x: int, y: int|
        in_bounds(w, h, x, y) && !(#[trigger] s2[idx_of(w, x, y)]).is_mine_spec()
            implies s2[idx_of(w, x, y)].object_spec() == hint_object(adj_mines(s2, w, h, x, y))
    by {
        lemma_idx_bounds(w, h, x, y);
        lemma_adj_mines_same(s1, s2, w, h, x, y);
        assert(s1[idx_of(w, x, y)].object_spec() == s2[idx_of(w, x, y)].object_spec());
        assert(!s1[idx_of(w, x, y)].is_mine_spec());
        assert(s1[idx_of(w, x, y)].object_spec() == hint_object(adj_mines(s1, w, h, x, y)));
    }
}

/// All board indices except `skip`, in increasing order.
fn candidate_indices(total: usize, skip: usize) -> (c: Vec<usize>)
    requires
        skip < total,
    ensures
        c@.len() == total - 1,
        forall|k: int| 0 <= k < c@.len() ==> (#[trigger] c@[k]) < total && c@[k] != skip,
        forall|i: int, j: int| 0 <= i < j < c@.len() ==> c@[i] != c@[j],
{
    let mut c: Vec<usize> = Vec::new();
    let mut i: usize = 0;
    while i < total
        invariant
            i <= total,
            skip < total,
            c@.len() == if i <= skip { i as int } else { i - 1 },
            forall|k: int| 0 <= k < c@.len() ==> (#[trigger] c@[k]) < i && c@[k] != skip,
            forall|p: int, q: int| 0 <= p < q < c@.len() ==> c@[p] < c@[q],
        decreases total - i,
    {
        if i != skip {
            c.push(i);
        }
        i = i + 1;
    }
    c
}

impl Board {
    /// True when the in-bounds coordinate (x, y) holds a mine.
    fn mine_at(&self, x: usize, y: usize) -> (r: bool)
        requires
            self.params.valid(),
            self.tiles@.len() == self.total_spec(),
            x < self.params.width,
            y < self.params.height,
        ensures
            r == self.tiles@[idx_of(self.params.width as int, x as int, y as int)].is_mine_spec(),
    {
        let i = self.coords_to_index(x, y);
        matches!(self.tiles[i].object, Object::Mine)
    }

    /// The count of in-bounds eight-way neighbours of (x, y) that are mines.
    fn count_adjacent_mines(&self, x: usize, y: usize) -> (c: u8)
        requires
            self.params.valid(),
            self.tiles@.len() == self.total_spec(),
            x < self.params.width,
            y < self.params.height,
        ensures
            c as int == adj_mines(
                self.tiles@,
                self.params.width as int,
                self.params.height as int,
                x as int,
                y as int,
            ),
            c <= 8,
    {
        let w = self.params.width;
        let h = self.params.height;
        let mut c: u8 = 0;
        if x > 0 && y > 0 && self.mine_at(x - 1, y - 1) {
            c = c + 1;
        }
        if y > 0 && self.mine_at(x, y - 1) {
            c = c + 1;
        }
        if x + 1 < w && y > 0 && self.mine_at(x + 1, y - 1) {
            c = c + 1;
        }
        if x > 0 && self.mine_at(x - 1, y) {
            c = c + 1;
        }
        if x + 1 < w && self.mine_at(x + 1, y) {
            c = c + 1;
        }
        if x > 0 && y + 1 < h && self.mine_at(x - 1, y + 1) {
            c = c + 1;
        }
        if y + 1 < h && self.mine_at(x, y + 1) {
            c = c + 1;
        }
        if x + 1 < w && y + 1 < h && self.mine_at(x + 1, y + 1) {
            c = c + 1;
        }
        c
    }
}

} // verus!

verus! {

impl Board {
    /// One row of the hint pass: write the neighbour mine count of every
    /// non-mine tile of row `y`, leaving every other row untouched.
    #[verifier::loop_isolation(false)]
    #[verifier::rlimit(100)]
    fn place_hints_row(&mut self, y: usize)
        requires
            old(self).params.valid(),
            old(self).tiles@.len() == old(self).total_spec(),
            y < old(self).params.height,
            forall|a: int|
                in_bounds(old(self).params.width as int, old(self).params.height as int, a, y as int)
                    && !(#[trigger] old(self).tiles@[idx_of(
                    old(self).params.width as int,
                    a,
                    y as int,
                )]).is_mine_spec() ==> old(self).tiles@[idx_of(
                    old(self).params.width as int,
                    a,
                    y as int,
                )].object_spec() == Object::Blank,
        ensures
            final(self).params == old(self).params,
            final(self).covered == old(self).covered,
            final(self).placed == old(self).placed,
            final(self).defeat == old(self).defeat,
            final(self).tiles@.len() == old(self).tiles@.len(),
            forall|i: int|
                0 <= i < old(self).tiles@.len()
                    ==> (#[trigger] final(self).tiles@[i]).cover_spec()
                        == old(self).tiles@[i].cover_spec(),
            forall|i: int|
                0 <= i < old(self).tiles@.len()
                    ==> ((#[trigger] final(self).tiles@[i]).is_mine_spec()
                        <==> old(self).tiles@[i].is_mine_spec()),
            forall|a: int, b: int|
                in_bounds(
                    old(self).params.width as int,
                    old(self).params.height as int,
                    a,
                    b,
                ) && b != y ==> (#[trigger] final(self).tiles@[idx_of(
                    old(self).params.width as int,
                    a,
                    b,
                )]).object_spec() == old(self).tiles@[idx_of(
                    old(self).params.width as int,
                    a,
                    b,
                )].object_spec(),
            forall|a: int|
                in_bounds(old(self).params.width as int, old(self).params.height as int, a, y as int)
                    && !(#[trigger] final(self).tiles@[idx_of(
                    old(self).params.width as int,
                    a,
                    y as int,
                )]).is_mine_spec() ==> final(self).tiles@[idx_of(
                    old(self).params.width as int,
                    a,
                    y as int,
                )].object_spec() == hint_object(adj_mines(
                    final(self).tiles@,
                    old(self).params.width as int,
                    old(self).params.height as int,
                    a,
                    y as int,
                )),
    {
        let w = self.params.width;
        let ghost wi = self.params.width as int;
        let ghost hi = self.params.height as int;
        let mut x: usize = 0;
        while x < w
            invariant
                x <= w,
                self.params == old(self).params,
                self.covered == old(self).covered,
                self.placed == old(self).placed,
                self.defeat == old(self).defeat,
                self.tiles@.len() == old(self).tiles@.len(),
                forall|i: int|
                    0 <= i < old(self).tiles@.len()
                        ==> (#[trigger] self.tiles@[i]).cover_spec()
                            == old(self).tiles@[i].cover_spec(),
                forall|i: int|
                    0 <= i < old(self).tiles@.len()
                        ==> ((#[trigger] self.tiles@[i]).is_mine_spec()
                            <==> old(self).tiles@[i].is_mine_spec()),
                forall|a: int, b: int|
                    in_bounds(wi, hi, a, b) && (b != y || a >= x)
                        ==> (#[trigger] self.tiles@[idx_of(wi, a, b)]).object_spec()
                            == old(self).tiles@[idx_of(wi, a, b)].object_spec(),
                forall|a: int|
                    in_bounds(wi, hi, a, y as int) && a < x
                        && !(#[trigger] self.tiles@[idx_of(wi, a, y as int)]).is_mine_spec()
                        ==> self.tiles@[idx_of(wi, a, y as int)].object_spec()
                            == hint_object(adj_mines(self.tiles@, wi, hi, a, y as int)),
            decreases w - x,
        {
            let ghost s0 = self.tiles@;
            let i = self.coords_to_index(x, y);
            proof {
                lemma_idx_bounds(wi, hi, x as int, y as int);
            }
            let t = self.tiles[i];
            if !matches!(t.object, Object::Mine) {
                let cmines = self.count_adjacent_mines(x, y);
                if cmines > 0 {
                    self.tiles.set(i, Tile { cover: t.cover, object: Object::Hint(cmines) });
                }
                proof {
                    assert forall|a: int, b: int|
                        in_bounds(wi, hi, a, b) && (b != y || a > x)
                            implies (#[trigger] self.tiles@[idx_of(wi, a, b)]).object_spec()
                                == old(self).tiles@[idx_of(wi, a, b)].object_spec()
                    by {
                        lemma_idx_bounds(wi, hi, a, b);
                        lemma_idx_distinct(wi, hi, a, b, x as int, y as int);
                    }
                    lemma_adj_mines_same(s0, self.tiles@, wi, hi, x as int, y as int);
                    if cmines == 0 {
                        assert(old(self).tiles@[idx_of(wi, x as int, y as int)].object_spec()
                            == Object::Blank);
                        assert(self.tiles@[idx_of(wi, x as int, y as int)].object_spec()
                            == Object::Blank);
                    }
                    assert(self.tiles@[idx_of(wi, x as int, y as int)].object_spec()
                        == hint_object(adj_mines(self.tiles@, wi, hi, x as int, y as int)));
                    assert forall|a: int|
                        in_bounds(wi, hi, a, y as int) && a < x
                            && !(#[trigger] self.tiles@[idx_of(wi, a, y as int)]).is_mine_spec()
                            implies self.tiles@[idx_of(wi, a, y as int)].object_spec()
                                == hint_object(adj_mines(self.tiles@, wi, hi, a, y as int))
                    by {
                        lemma_idx_bounds(wi, hi, a, y as int);
                        lemma_idx_distinct(wi, hi, a, y as int, x as int, y as int);
                        lemma_adj_mines_same(s0, self.tiles@, wi, hi, a, y as int);
                    }
                }
            }
            x = x + 1;
        }
    }

    /// Second placement step: write every non-mine tile's neighbour mine
    /// count into it, as a hint when positive and blank otherwise.
    #[verifier::rlimit(100)]
    fn place_hints(&mut self)
        requires
            old(self).params.valid(),
            old(self).tiles@.len() == old(self).total_spec(),
            forall|i: int|
                0 <= i < old(self).tiles@.len() && !(#[trigger] old(self).tiles@[i]).is_mine_spec()
                    ==> old(self).tiles@[i].object_spec() == Object::Blank,
        ensures
            final(self).params == old(self).params,
            final(self).covered == old(self).covered,
            final(self).placed == old(self).placed,
            final(self).defeat == old(self).defeat,
            final(self).tiles@.len() == old(self).tiles@.len(),
            forall|i: int|
                0 <= i < old(self).tiles@.len()
                    ==> (#[trigger] final(self).tiles@[i]).cover_spec()
                        == old(self).tiles@[i].cover_spec(),
            forall|i: int|
                0 <= i < old(self).tiles@.len()
                    ==> ((#[trigger] final(self).tiles@[i]).is_mine_spec()
                        <==> old(self).tiles@[i].is_mine_spec()),
            hints_correct(
                final(self).tiles@,
                old(self).params.width as int,
                old(self).params.height as int,
            ),
    {
        let h = self.params.height;
        let ghost wi = self.params.width as int;
        let ghost hi = self.params.height as int;
        proof {
            assert forall|a: int, b: int|
                in_bounds(wi, hi, a, b)
                    && !(#[trigger] self.tiles@[idx_of(wi, a, b)]).is_mine_spec()
                    implies self.tiles@[idx_of(wi, a, b)].object_spec() == Object::Blank
            by {
                lemma_idx_bounds(wi, hi, a, b);
            }
        }
        let mut y: usize = 0;
        while y < h
            invariant
                y <= h,
                h == self.params.height,
                self.params.valid(),
                self.params == old(self).params,
                self.covered == old(self).covered,
                self.placed == old(self).placed,
                self.defeat == old(self).defeat,
                wi == self.params.width as int,
                hi == self.params.height as int,
                self.tiles@.len() == old(self).tiles@.len(),
                self.tiles@.len() == self.total_spec(),
                forall|i: int|
                    0 <= i < old(self).tiles@.len()
                        ==> (#[trigger] self.tiles@[i]).cover_spec()
                            == old(self).tiles@[i].cover_spec(),
                forall|i: int|
                    0 <= i < old(self).tiles@.len()
                        ==> ((#[trigger] self.tiles@[i]).is_mine_spec()
                            <==> old(self).tiles@[i].is_mine_spec()),
                forall|a: int, b: int|
                    in_bounds(wi, hi, a, b) && b < y
                        && !(#[trigger] self.tiles@[idx_of(wi, a, b)]).is_mine_spec()
                        ==> self.tiles@[idx_of(wi, a, b)].object_spec()
                            == hint_object(adj_mines(self.tiles@, wi, hi, a, b)),
                forall|a: int, b: int|
                    in_bounds(wi, hi, a, b) && b >= y
                        && !(#[trigger] self.tiles@[idx_of(wi, a, b)]).is_mine_spec()
                        ==> self.tiles@[idx_of(wi, a, b)].object_spec() == Object::Blank,
            decreases h - y,
        {
            let ghost s0 = self.tiles@;
            self.place_hints_row(y);
            proof {
                assert forall|a: int, b: int|
                    in_bounds(wi, hi, a, b) && b < y + 1
                        && !(#[trigger] self.tiles@[idx_of(wi, a, b)]).is_mine_spec()
                        implies self.tiles@[idx_of(wi, a, b)].object_spec()
                            == hint_object(adj_mines(self.tiles@, wi, hi, a, b))
                by {
                    lemma_idx_bounds(wi, hi, a, b);
                    lemma_adj_mines_same(s0, self.tiles@, wi, hi, a, b);
                }
                assert forall|a: int, b: int|
                    in_bounds(wi, hi, a, b) && b >= y + 1
                        && !(#[trigger] self.tiles@[idx_of(wi, a, b)]).is_mine_spec()
                        implies self.tiles@[idx_of(wi, a, b)].object_spec() == Object::Blank
                by {
                    lemma_idx_bounds(wi, hi, a, b);
                }
            }
            y = y + 1;
        }
        proof {
            assert forall|a: int, b: int|
                in_bounds(wi, hi, a, b)
                    && !(#[trigger] self.tiles@[idx_of(wi, a, b)]).is_mine_spec()
                    implies self.tiles@[idx_of(wi, a, b)].object_spec()
                        == hint_object(adj_mines(self.tiles@, wi, hi, a, b))
            by {
                lemma_idx_bounds(wi, hi, a, b);
            }
        }
    }


    /// Scatter mines at the given distinct board indices, then fill in the
    /// hints. This is the whole placement event: afterwards the board is
    /// `placed` and every tile's contents are final.
    pub fn place_at(&mut self, mine_indices: &Vec<usize>)
        requires
            old(self).inv(),
            !old(self).placed,
            mine_indices@.len() == old(self).params.mines,
            forall|k: int|
                0 <= k < mine_indices@.len()
                    ==> (#[trigger] mine_indices@[k]) < old(self).tiles@.len(),
            forall|i: int, j: int|
                0 <= i < j < mine_indices@.len() ==> mine_indices@[i] != mine_indices@[j],
        ensures
            final(self).inv(),
            final(self).placed,
            !final(self).defeat,
            final(self).params == old(self).params,
            final(self).covered == old(self).covered,
            final(self).tiles@.len() == old(self).tiles@.len(),
            forall|i: int|
                0 <= i < old(self).tiles@.len()
                    ==> (#[trigger] final(self).tiles@[i]).cover_spec()
                        == old(self).tiles@[i].cover_spec(),
            forall|i: int|
                0 <= i < old(self).tiles@.len()
                    ==> ((#[trigger] final(self).tiles@[i]).is_mine_spec()
                        <==> exists|k: int|
                            0 <= k < mine_indices@.len() && mine_indices@[k] == i),
    {
        let ghost pre = self.tiles@;
        proof {
            lemma_count_none(pre, |t: Tile| t.is_mine_spec());
        }
        let mut k: usize = 0;
        while k < mine_indices.len()
            invariant
                k <= mine_indices@.len(),
                mine_indices@.len() == old(self).params.mines,
                forall|j: int|
                    0 <= j < mine_indices@.len() ==> (#[trigger] mine_indices@[j]) < pre.len(),
                forall|i: int, j: int|
                    0 <= i < j < mine_indices@.len() ==> mine_indices@[i] != mine_indices@[j],
                pre == old(self).tiles@,
                self.params == old(self).params,
                self.covered == old(self).covered,
                self.placed == old(self).placed,
                self.defeat == old(self).defeat,
                self.tiles@.len() == pre.len(),
                forall|i: int|
                    0 <= i < pre.len()
                        ==> (#[trigger] self.tiles@[i]).cover_spec() == pre[i].cover_spec(),
                forall|i: int|
                    0 <= i < pre.len()
                        ==> ((#[trigger] self.tiles@[i]).is_mine_spec()
                            <==> exists|j: int| 0 <= j < k && mine_indices@[j] == i),
                forall|i: int|
                    0 <= i < pre.len() && !(#[trigger] self.tiles@[i]).is_mine_spec()
                        ==> self.tiles@[i].object_spec() == Object::Blank,
                count_where(self.tiles@, |t: Tile| t.is_mine_spec()) == k,
            decreases mine_indices@.len() - k,
        {
            let idx = mine_indices[k];
            let t = self.tiles[idx];
            proof {
                assert(!(exists|j: int| 0 <= j < k && mine_indices@[j] == idx));
                lemma_count_update(
                    self.tiles@,
                    |t: Tile| t.is_mine_spec(),
                    idx as int,
                    Tile { cover: t.cover, object: Object::Mine },
                );
            }
            self.tiles.set(idx, Tile { cover: t.cover, object: Object::Mine });
            proof {
                assert forall|i: int| 0 <= i < pre.len()
                    implies ((#[trigger] self.tiles@[i]).is_mine_spec()
                        <==> exists|j: int| 0 <= j < k + 1 && mine_indices@[j] == i)
                by {
                    if self.tiles@[i].is_mine_spec() {
                        if i == idx {
                            assert(mine_indices@[k as int] == i);
                        }
                    }
                }
            }
            k = k + 1;
        }
        let ghost mined = self.tiles@;
        self.placed = true;
        self.place_hints();
        proof {
            let wi = old(self).params.width as int;
            let hi = old(self).params.height as int;
            lemma_count_pointwise(
                self.tiles@,
                mined,
                |t: Tile| t.is_mine_spec(),
                |t: Tile| t.is_mine_spec(),
            );
            lemma_count_pointwise(self.tiles@, pre, |t: Tile| t.is_up(), |t: Tile| t.is_up());
            lemma_count_all(pre, |t: Tile| t.is_up());
        }
    }

    /// Scatter the board's mine count at random over every index but `skip`,
    /// then fill in the hints.
    fn place_randomly(&mut self, skip: usize)
        requires
            old(self).inv(),
            !old(self).placed,
            skip < old(self).tiles@.len(),
        ensures
            final(self).inv(),
            final(self).placed,
            !final(self).defeat,
            final(self).params == old(self).params,
            final(self).covered == old(self).covered,
            final(self).tiles@.len() == old(self).tiles@.len(),
            forall|i: int|
                0 <= i < old(self).tiles@.len()
                    ==> (#[trigger] final(self).tiles@[i]).cover_spec()
                        == old(self).tiles@[i].cover_spec(),
            !final(self).tiles@[skip as int].is_mine_spec(),
    {
        let total = self.tiles.len();
        let candidates = candidate_indices(total, skip);
        let picks = crate::sample::choose_distinct(&candidates, self.params.mines);
        proof {
            assert(picks@.len() == self.params.mines);
            assert forall|k: int| 0 <= k < picks@.len()
                implies (#[trigger] picks@[k]) < old(self).tiles@.len() && picks@[k] != skip
            by {
                assert(candidates@.contains(picks@[k]));
            }
        }
        self.place_at(&picks);
        proof {
            assert(!(exists|k: int| 0 <= k < picks@.len() && picks@[k] == skip as int));
        }
    }
}

} // verus!

verus! {

impl Board {
    /// The in-bounds eight-way neighbours of (x, y): each returned coordinate
    /// is on the grid and adjacent to (x, y), and every such coordinate is
    /// returned.
    fn neighbours(&self, x: usize, y: usize) -> (r: Vec<(usize, usize)>)
        requires
            self.params.valid(),
            x < self.params.width,
            y < self.params.height,
        ensures
            forall|k: int|
                0 <= k < r@.len()
                    ==> in_bounds(
                        self.params.width as int,
                        self.params.height as int,
                        (#[trigger] r@[k]).0 as int,
                        r@[k].1 as int,
                    ) && adjacent(r@[k].0 as int, r@[k].1 as int, x as int, y as int),
            forall|a: int, b: int|
                in_bounds(self.params.width as int, self.params.height as int, a, b)
                    && #[trigger] adjacent(a, b, x as int, y as int)
                    ==> r@.contains((a as usize, b as usize)),
            forall|i: int, j: int| 0 <= i < j < r@.len() ==> r@[i] != r@[j],
            r@.len() <= 8,
    {
        let w = self.params.width;
        let h = self.params.height;
        let mut r: Vec<(usize, usize)> = Vec::new();
        if x > 0 && y > 0 {
            r.push((x - 1, y - 1));
        }
        if y > 0 {
            r.push((x, y - 1));
        }
        if x + 1 < w && y > 0 {
            r.push((x + 1, y - 1));
        }
        if x > 0 {
            r.push((x - 1, y));
        }
        if x + 1 < w {
            r.push((x + 1, y));
        }
        if x > 0 && y + 1 < h {
            r.push((x - 1, y + 1));
        }
        if y + 1 < h {
            r.push((x, y + 1));
        }
        if x + 1 < w && y + 1 < h {
            r.push((x + 1, y + 1));
        }
        proof {
            broadcast use vstd::seq_lib::lemma_seq_contains_after_push;

            assert forall|a: int, b: int|
                in_bounds(w as int, h as int, a, b) && #[trigger] adjacent(a, b, x as int, y as int)
                    implies r@.contains((a as usize, b as usize))
            by {
                assert(a == x - 1 || a == x || a == x + 1);
                assert(b == y - 1 || b == y || b == y + 1);
            }
        }
        r
    }

    /// Cycle the mark of a covered tile one step along the fixed rotation;
    /// a revealed tile is left untouched.
    pub fn handle_mark(&mut self, x: usize, y: usize)
        requires
            old(self).inv(),
            x < old(self).params.width,
            y < old(self).params.height,
        ensures
            final(self).inv(),
            final(self).params == old(self).params,
            final(self).covered == old(self).covered,
            final(self).placed == old(self).placed,
            final(self).defeat == old(self).defeat,
            final(self).tiles@.len() == old(self).tiles@.len(),
            forall|i: int|
                0 <= i < old(self).tiles@.len() && i != idx_of(
                    old(self).params.width as int,
                    x as int,
                    y as int,
                ) ==> #[trigger] final(self).tiles@[i] == old(self).tiles@[i],
            final(self).tile_at(x as int, y as int).object_spec()
                == old(self).tile_at(x as int, y as int).object_spec(),
            (old(self).tile_at(x as int, y as int).cover_spec() matches Cover::Up(m)
                ==> final(self).tile_at(x as int, y as int).cover_spec() == Cover::Up(m.next())),
            (old(self).tile_at(x as int, y as int).is_down()
                ==> final(self).tiles@ == old(self).tiles@),
    {
        let idx = self.coords_to_index(x, y);
        let t = self.tiles[idx];
        match t.cover {
            Cover::Up(m) => {
                let mut mark = m;
                mark.cycle();
                proof {
                    lemma_count_update(
                        self.tiles@,
                        |t: Tile| t.is_up(),
                        idx as int,
                        Tile { cover: Cover::Up(mark), object: t.object },
                    );
                    lemma_count_update(
                        self.tiles@,
                        |t: Tile| t.is_mine_spec(),
                        idx as int,
                        Tile { cover: Cover::Up(mark), object: t.object },
                    );
                }
                self.tiles.set(idx, Tile { cover: Cover::Up(mark), object: t.object });
                proof {
                    if self.placed {
                        lemma_hints_correct_same_objects(
                            old(self).tiles@,
                            self.tiles@,
                            self.params.width as int,
                            self.params.height as int,
                        );
                    }
                }
            }
            Cover::Down => {}
        }
    }
}

} // verus!

verus! {

/// Is the tile at (x, y) revealed and blank?
pub open spec fn down_blank_at(s: Seq<Tile>, w: int, x: int, y: int) -> bool {
    s[idx_of(w, x, y)].is_down() && s[idx_of(w, x, y)].is_blank_spec()
}

/// Is (cx, cy) adjacent to some revealed blank tile?
pub open spec fn touches_revealed_blank(s: Seq<Tile>, w: int, h: int, cx: int, cy: int) -> bool {
    exists|tx: int, ty: int|
        in_bounds(w, h, tx, ty) && adjacent(tx, ty, cx, cy) && down_blank_at(s, w, tx, ty)
}

/// Introduce a witness for `touches_revealed_blank`.
proof fn lemma_touches_witness(s: Seq<Tile>, w: int, h: int, cx: int, cy: int, tx: int, ty: int)
    requires
        in_bounds(w, h, tx, ty),
        adjacent(tx, ty, cx, cy),
        down_blank_at(s, w, tx, ty),
    ensures
        touches_revealed_blank(s, w, h, cx, cy),
{
}

/// How one player action may change a single tile: leave it alone, or
/// permanently reveal an unflagged covered non-mine tile.
pub open spec fn tile_evolves(t0: Tile, t1: Tile) -> bool {
    t1 == t0 || (t0.is_uncoverable_spec() && !t0.is_mine_spec() && t1 == (Tile {
        cover: Cover::Down,
        object: t0.object_spec(),
    }))
}

/// The two boards are the same state.
pub open spec fn unchanged_board(a: Board, b: Board) -> bool {
    &&& a.params == b.params
    &&& a.tiles@ == b.tiles@
    &&& a.covered == b.covered
    &&& a.placed == b.placed
    &&& a.defeat == b.defeat
}

/// On a board with correct hints, no neighbour of a blank tile is a mine.
pub proof fn lemma_blank_has_no_adjacent_mine(
    s: Seq<Tile>,
    w: int,
    h: int,
    tx: int,
    ty: int,
    cx: int,
    cy: int,
)
    requires
        s.len() == w * h,
        hints_correct(s, w, h),
        in_bounds(w, h, tx, ty),
        in_bounds(w, h, cx, cy),
        adjacent(tx, ty, cx, cy),
        s[idx_of(w, tx, ty)].is_blank_spec(),
    ensures
        !s[idx_of(w, cx, cy)].is_mine_spec(),
{
    lemma_idx_bounds(w, h, tx, ty);
    lemma_idx_bounds(w, h, cx, cy);
    if s[idx_of(w, cx, cy)].is_mine_spec() {
        assert(!s[idx_of(w, tx, ty)].is_mine_spec());
        assert(s[idx_of(w, tx, ty)].object_spec() == hint_object(adj_mines(s, w, h, tx, ty)));
        assert(adj_mines(s, w, h, tx, ty) <= 0);
        assert(mine_ind(s, w, h, cx, cy) == 1);
        assert(mine_ind(s, w, h, tx - 1, ty - 1) >= 0);
        assert(mine_ind(s, w, h, tx, ty - 1) >= 0);
        assert(mine_ind(s, w, h, tx + 1, ty - 1) >= 0);
        assert(mine_ind(s, w, h, tx - 1, ty) >= 0);
        assert(mine_ind(s, w, h, tx + 1, ty) >= 0);
        assert(mine_ind(s, w, h, tx - 1, ty + 1) >= 0);
        assert(mine_ind(s, w, h, tx, ty + 1) >= 0);
        assert(mine_ind(s, w, h, tx + 1, ty + 1) >= 0);
        assert(cx == tx - 1 || cx == tx || cx == tx + 1);
        assert(cy == ty - 1 || cy == ty || cy == ty + 1);
        assert(adj_mines(s, w, h, tx, ty) >= 1);
        assert(false);
    }
}

/// Advancing past an inert worklist entry keeps the frontier accounted
/// for: every open frontier is either older than the flood or still queued.
proof fn lemma_frontier_advance(
    pre: Seq<Tile>,
    s: Seq<Tile>,
    w: int,
    h: int,
    x: int,
    y: int,
    q: Seq<(usize, usize)>,
    qi0: int,
)
    requires
        s.len() == w * h,
        w <= usize::MAX,
        h <= usize::MAX,
        hints_correct(s, w, h),
        0 <= qi0 < q.len(),
        in_bounds(w, h, q[qi0].0 as int, q[qi0].1 as int),
        !s[idx_of(w, q[qi0].0 as int, q[qi0].1 as int)].is_uncoverable_spec()
            || s[idx_of(w, q[qi0].0 as int, q[qi0].1 as int)].is_mine_spec(),
        forall|tx: int, ty: int, ax: int, ay: int|
            #[trigger] open_frontier_at(s, w, h, tx, ty, ax, ay)
                ==> (open_frontier_at(pre, w, h, tx, ty, ax, ay) && !adjacent(ax, ay, x, y))
                    || exists|k: int| qi0 <= k < q.len() && q[k] == ((ax as usize, ay as usize)),
    ensures
        forall|tx: int, ty: int, ax: int, ay: int|
            #[trigger] open_frontier_at(s, w, h, tx, ty, ax, ay)
                ==> (open_frontier_at(pre, w, h, tx, ty, ax, ay) && !adjacent(ax, ay, x, y))
                    || exists|k: int| qi0 + 1 <= k < q.len() && q[k] == ((ax as usize, ay as usize)),
{
    let cpx = q[qi0].0 as int;
    let cpy = q[qi0].1 as int;
    assert forall|tx: int, ty: int, ax: int, ay: int|
        #[trigger] open_frontier_at(s, w, h, tx, ty, ax, ay)
            implies (open_frontier_at(pre, w, h, tx, ty, ax, ay) && !adjacent(ax, ay, x, y))
                || exists|k: int| qi0 + 1 <= k < q.len() && q[k] == ((ax as usize, ay as usize))
    by {
        if !(open_frontier_at(pre, w, h, tx, ty, ax, ay) && !adjacent(ax, ay, x, y)) {
            let k = choose|k: int| qi0 <= k < q.len() && q[k] == ((ax as usize, ay as usize));
            if k == qi0 {
                lemma_idx_bounds(w, h, tx, ty);
                lemma_idx_bounds(w, h, ax, ay);
                assert(ax == cpx && ay == cpy);
                if s[idx_of(w, ax, ay)].is_mine_spec() {
                    lemma_blank_has_no_adjacent_mine(s, w, h, tx, ty, ax, ay);
                }
                assert(false);
            }
        }
    }
}

/// Revealing a non-blank tile opens no frontier of its own.
proof fn lemma_frontier_reveal_nonblank(cur0: Seq<Tile>, s: Seq<Tile>, w: int, h: int, ci: int)
    requires
        cur0.len() == w * h,
        s.len() == cur0.len(),
        0 <= ci < cur0.len(),
        forall|i: int| 0 <= i < cur0.len() && i != ci ==> #[trigger] s[i] == cur0[i],
        s[ci].is_down(),
        !s[ci].is_blank_spec(),
    ensures
        forall|tx: int, ty: int, ax: int, ay: int|
            #[trigger] open_frontier_at(s, w, h, tx, ty, ax, ay)
                ==> open_frontier_at(cur0, w, h, tx, ty, ax, ay),
{
    assert forall|tx: int, ty: int, ax: int, ay: int|
        #[trigger] open_frontier_at(s, w, h, tx, ty, ax, ay)
            implies open_frontier_at(cur0, w, h, tx, ty, ax, ay)
    by {
        lemma_idx_bounds(w, h, tx, ty);
        lemma_idx_bounds(w, h, ax, ay);
    }
}

/// A worklist whose entries each touch a revealed blank keeps that property
/// when one more tile is revealed.
proof fn lemma_queue_witness_after_reveal(
    cur0: Seq<Tile>,
    s: Seq<Tile>,
    w: int,
    h: int,
    ci: int,
    q: Seq<(usize, usize)>,
)
    requires
        cur0.len() == w * h,
        s.len() == cur0.len(),
        0 <= ci < cur0.len(),
        forall|i: int| 0 <= i < cur0.len() && i != ci ==> #[trigger] s[i] == cur0[i],
        s[ci].is_down(),
        s[ci].object_spec() == cur0[ci].object_spec(),
        forall|k: int|
            0 <= k < q.len()
                ==> touches_revealed_blank(cur0, w, h, (#[trigger] q[k]).0 as int, q[k].1 as int),
    ensures
        forall|k: int|
            0 <= k < q.len()
                ==> touches_revealed_blank(s, w, h, (#[trigger] q[k]).0 as int, q[k].1 as int),
{
    assert forall|k: int|
        0 <= k < q.len()
            implies touches_revealed_blank(s, w, h, (#[trigger] q[k]).0 as int, q[k].1 as int)
    by {
        assert(touches_revealed_blank(cur0, w, h, q[k].0 as int, q[k].1 as int));
        let (tx, ty) = choose|tx: int, ty: int|
            in_bounds(w, h, tx, ty) && adjacent(tx, ty, q[k].0 as int, q[k].1 as int)
                && down_blank_at(cur0, w, tx, ty);
        lemma_idx_bounds(w, h, tx, ty);
        assert(down_blank_at(s, w, tx, ty));
        lemma_touches_witness(s, w, h, q[k].0 as int, q[k].1 as int, tx, ty);
    }
}

/// Every tile revealed so far stays next to a revealed blank when one more
/// tile is revealed off the worklist.
proof fn lemma_newly_down_after_reveal(
    pre: Seq<Tile>,
    cur0: Seq<Tile>,
    s: Seq<Tile>,
    w: int,
    h: int,
    cx: int,
    cy: int,
    ci: int,
    witx: int,
    wity: int,
)
    requires
        cur0.len() == w * h,
        s.len() == cur0.len(),
        pre.len() == cur0.len(),
        0 <= ci < cur0.len(),
        in_bounds(w, h, cx, cy),
        ci == idx_of(w, cx, cy),
        forall|i: int| 0 <= i < cur0.len() && i != ci ==> #[trigger] s[i] == cur0[i],
        cur0[ci].is_up(),
        s[ci].is_down(),
        in_bounds(w, h, witx, wity),
        adjacent(witx, wity, cx, cy),
        down_blank_at(s, w, witx, wity),
        forall|ax: int, ay: int|
            in_bounds(w, h, ax, ay) && pre[idx_of(w, ax, ay)].is_up()
                && (#[trigger] cur0[idx_of(w, ax, ay)]).is_down()
                ==> touches_revealed_blank(cur0, w, h, ax, ay),
    ensures
        forall|ax: int, ay: int|
            in_bounds(w, h, ax, ay) && pre[idx_of(w, ax, ay)].is_up()
                && (#[trigger] s[idx_of(w, ax, ay)]).is_down()
                ==> touches_revealed_blank(s, w, h, ax, ay),
{
    assert forall|ax: int, ay: int|
        in_bounds(w, h, ax, ay) && pre[idx_of(w, ax, ay)].is_up()
            && (#[trigger] s[idx_of(w, ax, ay)]).is_down()
            implies touches_revealed_blank(s, w, h, ax, ay)
    by {
        lemma_idx_bounds(w, h, ax, ay);
        if idx_of(w, ax, ay) == ci {
            lemma_idx_injective(w, h, ax, ay, cx, cy);
            lemma_touches_witness(s, w, h, ax, ay, witx, wity);
        } else {
            assert(touches_revealed_blank(cur0, w, h, ax, ay));
            let (tx, ty) = choose|tx: int, ty: int|
                in_bounds(w, h, tx, ty) && adjacent(tx, ty, ax, ay) && down_blank_at(cur0, w, tx, ty);
            lemma_idx_bounds(w, h, tx, ty);
            assert(down_blank_at(s, w, tx, ty));
            lemma_touches_witness(s, w, h, ax, ay, tx, ty);
        }
    }
}

/// Revealing a blank off the worklist and queueing its uncoverable
/// neighbours accounts for every frontier the reveal opens.
proof fn lemma_frontier_after_blank_reveal(
    pre: Seq<Tile>,
    cur0: Seq<Tile>,
    s: Seq<Tile>,
    w: int,
    h: int,
    x: int,
    y: int,
    cx: int,
    cy: int,
    ci: int,
    q0: Seq<(usize, usize)>,
    q: Seq<(usize, usize)>,
    qi0: int,
)
    requires
        cur0.len() == w * h,
        s.len() == cur0.len(),
        w <= usize::MAX,
        h <= usize::MAX,
        0 <= ci < cur0.len(),
        in_bounds(w, h, cx, cy),
        ci == idx_of(w, cx, cy),
        forall|i: int| 0 <= i < cur0.len() && i != ci ==> #[trigger] s[i] == cur0[i],
        s[ci].is_down(),
        s[ci].is_blank_spec(),
        0 <= qi0 < q0.len(),
        q0[qi0] == ((cx as usize, cy as usize)),
        q.len() >= q0.len(),
        forall|k: int| 0 <= k < q0.len() ==> #[trigger] q[k] == q0[k],
        forall|a: int, b: int|
            in_bounds(w, h, a, b) && #[trigger] adjacent(a, b, cx, cy)
                && s[idx_of(w, a, b)].is_uncoverable_spec() ==> exists|k: int|
                q0.len() <= k < q.len() && q[k] == ((a as usize, b as usize)),
        forall|tx: int, ty: int, ax: int, ay: int|
            #[trigger] open_frontier_at(cur0, w, h, tx, ty, ax, ay)
                ==> (open_frontier_at(pre, w, h, tx, ty, ax, ay) && !adjacent(ax, ay, x, y))
                    || exists|k: int| qi0 <= k < q0.len() && q0[k] == ((ax as usize, ay as usize)),
    ensures
        forall|tx: int, ty: int, ax: int, ay: int|
            #[trigger] open_frontier_at(s, w, h, tx, ty, ax, ay)
                ==> (open_frontier_at(pre, w, h, tx, ty, ax, ay) && !adjacent(ax, ay, x, y))
                    || exists|k: int| qi0 + 1 <= k < q.len() && q[k] == ((ax as usize, ay as usize)),
{
    assert forall|tx: int, ty: int, ax: int, ay: int|
        #[trigger] open_frontier_at(s, w, h, tx, ty, ax, ay)
            implies (open_frontier_at(pre, w, h, tx, ty, ax, ay) && !adjacent(ax, ay, x, y))
                || exists|k: int| qi0 + 1 <= k < q.len() && q[k] == ((ax as usize, ay as usize))
    by {
        lemma_idx_bounds(w, h, tx, ty);
        lemma_idx_bounds(w, h, ax, ay);
        assert(idx_of(w, ax, ay) != ci);
        if idx_of(w, tx, ty) == ci {
            lemma_idx_injective(w, h, tx, ty, cx, cy);
            assert(adjacent(ax, ay, cx, cy));
            assert(s[idx_of(w, ax, ay)].is_uncoverable_spec());
            let k = choose|k: int|
                q0.len() <= k < q.len() && q[k] == ((ax as usize, ay as usize));
            assert(qi0 + 1 <= k);
        } else {
            assert(open_frontier_at(cur0, w, h, tx, ty, ax, ay));
            if !(open_frontier_at(pre, w, h, tx, ty, ax, ay) && !adjacent(ax, ay, x, y)) {
                let k = choose|k: int| qi0 <= k < q0.len() && q0[k] == ((ax as usize, ay as usize));
                if k == qi0 {
                    assert(ax == cx && ay == cy);
                    assert(false);
                } else {
                    assert(q[k] == q0[k]);
                }
            }
        }
    }
}

impl Board {
    pub open spec fn w(self) -> int {
        self.params.width as int
    }

    pub open spec fn h(self) -> int {
        self.params.height as int
    }

    /// Append every uncoverable in-bounds neighbour of (x, y) to the
    /// worklist, leaving what is already queued in place.
    fn push_uncoverable_neighbours(&self, x: usize, y: usize, queue: &mut Vec<(usize, usize)>)
        requires
            self.params.valid(),
            self.tiles@.len() == self.total_spec(),
            x < self.params.width,
            y < self.params.height,
        ensures
            final(queue)@.len() >= old(queue)@.len(),
            forall|k: int|
                0 <= k < old(queue)@.len() ==> #[trigger] final(queue)@[k] == old(queue)@[k],
            forall|k: int|
                old(queue)@.len() <= k < final(queue)@.len() ==> {
                    &&& in_bounds(self.w(), self.h(), (#[trigger] final(queue)@[k]).0 as int, final(queue)@[k].1 as int)
                    &&& adjacent(final(queue)@[k].0 as int, final(queue)@[k].1 as int, x as int, y as int)
                    &&& self.tiles@[idx_of(self.w(), final(queue)@[k].0 as int, final(queue)@[k].1 as int)].is_uncoverable_spec()
                },
            forall|a: int, b: int|
                in_bounds(self.w(), self.h(), a, b) && #[trigger] adjacent(a, b, x as int, y as int)
                    && self.tiles@[idx_of(self.w(), a, b)].is_uncoverable_spec()
                    ==> exists|k: int|
                        old(queue)@.len() <= k < final(queue)@.len() && final(queue)@[k] == ((
                            a as usize,
                            b as usize,
                        )),
    {
        let ghost base = queue@;
        let nbrs = self.neighbours(x, y);
        let mut j: usize = 0;
        while j < nbrs.len()
            invariant
                j <= nbrs@.len(),
                self.params.valid(),
                self.tiles@.len() == self.total_spec(),
                x < self.params.width,
                y < self.params.height,
                forall|k: int|
                    0 <= k < nbrs@.len()
                        ==> in_bounds(
                            self.w(),
                            self.h(),
                            (#[trigger] nbrs@[k]).0 as int,
                            nbrs@[k].1 as int,
                        ) && adjacent(nbrs@[k].0 as int, nbrs@[k].1 as int, x as int, y as int),
                queue@.len() >= base.len(),
                forall|k: int| 0 <= k < base.len() ==> #[trigger] queue@[k] == base[k],
                forall|k: int|
                    base.len() <= k < queue@.len() ==> {
                        &&& in_bounds(self.w(), self.h(), (#[trigger] queue@[k]).0 as int, queue@[k].1 as int)
                        &&& adjacent(queue@[k].0 as int, queue@[k].1 as int, x as int, y as int)
                        &&& self.tiles@[idx_of(self.w(), queue@[k].0 as int, queue@[k].1 as int)].is_uncoverable_spec()
                    },
                forall|m: int|
                    0 <= m < j && self.tiles@[idx_of(
                        self.w(),
                        (#[trigger] nbrs@[m]).0 as int,
                        nbrs@[m].1 as int,
                    )].is_uncoverable_spec() ==> exists|k: int|
                        base.len() <= k < queue@.len() && queue@[k] == nbrs@[m],
            decreases nbrs@.len() - j,
        {
            let c = nbrs[j];
            let ti = self.coords_to_index(c.0, c.1);
            if self.tiles[ti].is_uncoverable() {
                let ghost q0 = queue@;
                queue.push(c);
                proof {
                    assert(queue@[q0.len() as int] == c);
                    assert forall|m: int|
                        0 <= m < j + 1 && self.tiles@[idx_of(
                            self.w(),
                            (#[trigger] nbrs@[m]).0 as int,
                            nbrs@[m].1 as int,
                        )].is_uncoverable_spec() implies exists|k: int|
                            base.len() <= k < queue@.len() && queue@[k] == nbrs@[m]
                    by {
                        if m < j {
                            let k0 = choose|k: int|
                                base.len() <= k < q0.len() && q0[k] == nbrs@[m];
                            assert(queue@[k0] == nbrs@[m]);
                        } else {
                            assert(queue@[q0.len() as int] == nbrs@[m]);
                        }
                    }
                }
            }
            j = j + 1;
        }
        proof {
            assert forall|a: int, b: int|
                in_bounds(self.w(), self.h(), a, b) && #[trigger] adjacent(a, b, x as int, y as int)
                    && self.tiles@[idx_of(self.w(), a, b)].is_uncoverable_spec()
                    implies exists|k: int|
                        base.len() <= k < queue@.len() && queue@[k] == ((a as usize, b as usize))
            by {
                assert(nbrs@.contains((a as usize, b as usize)));
                let m = choose|m: int| 0 <= m < nbrs@.len() && nbrs@[m] == ((a as usize, b as usize));
                assert(nbrs@[m].0 as int == a && nbrs@[m].1 as int == b);
                assert(self.tiles@[idx_of(self.w(), nbrs@[m].0 as int, nbrs@[m].1 as int)].is_uncoverable_spec());
            }
        }
    }
}

} // verus!


verus! {

/// The board-level working state of a flood reveal around origin (x, y):
/// the board is well formed and mid-play, the origin is a revealed blank,
/// and the tiles have only evolved from `pre` by revealing unflagged
/// covered non-mine tiles.
pub open spec fn flood_board_wf(b: Board, pre: Seq<Tile>, x: int, y: int) -> bool {
    &&& b.params.valid()
    &&& b.placed
    &&& !b.defeat
    &&& b.tiles@.len() == pre.len()
    &&& pre.len() == b.w() * b.h()
    &&& in_bounds(b.w(), b.h(), x, y)
    &&& down_blank_at(b.tiles@, b.w(), x, y)
    &&& b.covered >= b.params.mines
    &&& b.covered == count_where(b.tiles@, |t: Tile| t.is_up())
    &&& count_where(b.tiles@, |t: Tile| t.is_mine_spec()) == b.params.mines
    &&& hints_correct(b.tiles@, b.w(), b.h())
    &&& (forall|i: int|
        0 <= i < pre.len() && (#[trigger] b.tiles@[i]).is_mine_spec() ==> b.tiles@[i].is_up())
    &&& (forall|i: int| 0 <= i < pre.len() ==> tile_evolves(pre[i], #[trigger] b.tiles@[i]))
}

/// The worklist side of a flood reveal: every queued coordinate is on the
/// grid and touches a revealed blank, every open frontier is either older
/// than the flood or still queued at position `qi` or later, and every tile
/// revealed since `pre` touches a revealed blank.
pub open spec fn flood_queue_wf(
    b: Board,
    pre: Seq<Tile>,
    x: int,
    y: int,
    q: Seq<(usize, usize)>,
    qi: int,
) -> bool {
    &&& 0 <= qi <= q.len()
    &&& (forall|k: int|
        0 <= k < q.len() ==> in_bounds(b.w(), b.h(), (#[trigger] q[k]).0 as int, q[k].1 as int))
    &&& (forall|k: int|
        0 <= k < q.len()
            ==> touches_revealed_blank(b.tiles@, b.w(), b.h(), (#[trigger] q[k]).0 as int, q[k].1 as int))
    &&& (forall|tx: int, ty: int, ax: int, ay: int|
        #[trigger] open_frontier_at(b.tiles@, b.w(), b.h(), tx, ty, ax, ay)
            ==> (open_frontier_at(pre, b.w(), b.h(), tx, ty, ax, ay) && !adjacent(ax, ay, x, y))
                || exists|k: int| qi <= k < q.len() && q[k] == ((ax as usize, ay as usize)))
    &&& (forall|ax: int, ay: int|
        in_bounds(b.w(), b.h(), ax, ay) && pre[idx_of(b.w(), ax, ay)].is_up()
            && (#[trigger] b.tiles@[idx_of(b.w(), ax, ay)]).is_down()
            ==> touches_revealed_blank(b.tiles@, b.w(), b.h(), ax, ay))
}

/// The whole working state of a flood reveal.
pub open spec fn flood_inv(
    b: Board,
    pre: Seq<Tile>,
    x: int,
    y: int,
    q: Seq<(usize, usize)>,
    qi: int,
) -> bool {
    flood_board_wf(b, pre, x, y) && flood_queue_wf(b, pre, x, y, q, qi)
}

/// Revealing one covered non-mine tile, with the clamped decrement of the
/// covered count, keeps the board-level flood state.
proof fn lemma_board_wf_after_reveal(b0: Board, b1: Board, pre: Seq<Tile>, x: int, y: int, ci: int)
    requires
        flood_board_wf(b0, pre, x, y),
        0 <= ci < b0.tiles@.len(),
        b0.tiles@[ci].is_uncoverable_spec(),
        !b0.tiles@[ci].is_mine_spec(),
        b1.params == b0.params,
        b1.placed == b0.placed,
        b1.defeat == b0.defeat,
        b1.tiles@ == b0.tiles@.update(
            ci,
            Tile { cover: Cover::Down, object: b0.tiles@[ci].object_spec() },
        ),
        b1.covered == if b0.covered > b0.params.mines {
            (b0.covered - 1) as usize
        } else {
            b0.covered
        },
    ensures
        flood_board_wf(b1, pre, x, y),
        b1.covered <= b0.covered,
{
    lemma_count_update(
        b0.tiles@,
        |tt: Tile| tt.is_up(),
        ci,
        Tile { cover: Cover::Down, object: b0.tiles@[ci].object_spec() },
    );
    lemma_count_update(
        b0.tiles@,
        |tt: Tile| tt.is_mine_spec(),
        ci,
        Tile { cover: Cover::Down, object: b0.tiles@[ci].object_spec() },
    );
    lemma_count_lt(b0.tiles@, |tt: Tile| tt.is_mine_spec(), |tt: Tile| tt.is_up(), ci);
    lemma_hints_correct_same_objects(b0.tiles@, b1.tiles@, b0.w(), b0.h());
    lemma_idx_bounds(b0.w(), b0.h(), x, y);
    assert(idx_of(b0.w(), x, y) != ci);
    assert(down_blank_at(b1.tiles@, b1.w(), x, y));
}

impl Board {
    /// Reveal the covered non-mine tile at (cx, cy) and decrement the
    /// covered count under its clamp, keeping the board-level flood state.
    #[verifier::rlimit(100)]
    fn flood_reveal_tile(
        &mut self,
        cx: usize,
        cy: usize,
        Ghost(pre): Ghost<Seq<Tile>>,
        Ghost(gx): Ghost<int>,
        Ghost(gy): Ghost<int>,
    )
        requires
            flood_board_wf(*old(self), pre, gx, gy),
            cx < old(self).params.width,
            cy < old(self).params.height,
            old(self).tiles@[idx_of(old(self).w(), cx as int, cy as int)].is_uncoverable_spec(),
            !old(self).tiles@[idx_of(old(self).w(), cx as int, cy as int)].is_mine_spec(),
        ensures
            flood_board_wf(*final(self), pre, gx, gy),
            final(self).params == old(self).params,
            final(self).covered <= old(self).covered,
            final(self).tiles@ == old(self).tiles@.update(
                idx_of(old(self).w(), cx as int, cy as int),
                Tile {
                    cover: Cover::Down,
                    object: old(self).tiles@[idx_of(old(self).w(), cx as int, cy as int)].object_spec(),
                },
            ),
    {
        let ghost b0 = *self;
        let ghost wi = self.params.width as int;
        let ghost hi = self.params.height as int;
        let ci = self.coords_to_index(cx, cy);
        proof {
            lemma_idx_bounds(wi, hi, cx as int, cy as int);
            lemma_count_bounds(self.tiles@, |tt: Tile| tt.is_up());
        }
        let t = self.tiles[ci];
        self.tiles.set(ci, Tile { cover: Cover::Down, object: t.object });
        if self.covered > self.params.mines {
            self.covered = self.covered - 1;
        }
        proof {
            lemma_board_wf_after_reveal(b0, *self, pre, gx, gy, ci as int);
        }
    }

    /// One reveal off the flood worklist: the popped coordinate (cx, cy),
    /// known uncoverable and not a mine, is revealed; when it is blank its
    /// uncoverable neighbours are queued in turn.
    #[verifier::rlimit(100)]
    fn flood_reveal(
        &mut self,
        x: usize,
        y: usize,
        cx: usize,
        cy: usize,
        queue: &mut Vec<(usize, usize)>,
        qi: usize,
        Ghost(pre): Ghost<Seq<Tile>>,
    )
        requires
            flood_inv(*old(self), pre, x as int, y as int, old(queue)@, qi as int),
            qi < old(queue)@.len(),
            old(queue)@[qi as int] == ((cx, cy)),
            old(self).tiles@[idx_of(old(self).w(), cx as int, cy as int)].is_uncoverable_spec(),
            !old(self).tiles@[idx_of(old(self).w(), cx as int, cy as int)].is_mine_spec(),
        ensures
            flood_inv(*final(self), pre, x as int, y as int, final(queue)@, qi + 1),
            final(self).params == old(self).params,
            final(self).covered <= old(self).covered,
            final(self).tiles@.len() == old(self).tiles@.len(),
            forall|i: int|
                0 <= i < old(self).tiles@.len() && i != idx_of(old(self).w(), cx as int, cy as int)
                    ==> #[trigger] final(self).tiles@[i] == old(self).tiles@[i],
            final(self).tiles@[idx_of(old(self).w(), cx as int, cy as int)].is_down(),
            final(queue)@.len() >= old(queue)@.len(),
    {
        let ghost wi = self.params.width as int;
        let ghost hi = self.params.height as int;
        let ghost cur0 = self.tiles@;
        let ghost q0 = queue@;
        let ghost qi0 = qi as int;
        let ci = self.coords_to_index(cx, cy);
        proof {
            lemma_idx_bounds(wi, hi, cx as int, cy as int);
        }
        let t = self.tiles[ci];
        self.flood_reveal_tile(cx, cy, Ghost(pre), Ghost(x as int), Ghost(y as int));
        proof {
            lemma_queue_witness_after_reveal(cur0, self.tiles@, wi, hi, ci as int, queue@);
            assert(q0[qi0] == (cx, cy));
            assert(touches_revealed_blank(cur0, wi, hi, cx as int, cy as int));
            let (witx, wity) = choose|tx: int, ty: int|
                in_bounds(wi, hi, tx, ty) && adjacent(tx, ty, cx as int, cy as int)
                    && down_blank_at(cur0, wi, tx, ty);
            lemma_idx_bounds(wi, hi, witx, wity);
            assert(down_blank_at(self.tiles@, wi, witx, wity));
            lemma_newly_down_after_reveal(
                pre,
                cur0,
                self.tiles@,
                wi,
                hi,
                cx as int,
                cy as int,
                ci as int,
                witx,
                wity,
            );
        }
        if !t.is_hint() {
            self.push_uncoverable_neighbours(cx, cy, queue);
            proof {
                assert(self.tiles@[ci as int].is_blank_spec());
                assert(q0[qi0] == (cx, cy));
                assert forall|k: int|
                    0 <= k < queue@.len()
                        implies touches_revealed_blank(self.tiles@, wi, hi, (#[trigger] queue@[k]).0 as int, queue@[k].1 as int)
                by {
                    if k < q0.len() {
                        assert(queue@[k] == q0[k]);
                    } else {
                        lemma_touches_witness(
                            self.tiles@,
                            wi,
                            hi,
                            queue@[k].0 as int,
                            queue@[k].1 as int,
                            cx as int,
                            cy as int,
                        );
                    }
                }
                lemma_frontier_after_blank_reveal(
                    pre,
                    cur0,
                    self.tiles@,
                    wi,
                    hi,
                    x as int,
                    y as int,
                    cx as int,
                    cy as int,
                    ci as int,
                    q0,
                    queue@,
                    qi0,
                );
            }
        } else {
            proof {
                lemma_frontier_reveal_nonblank(cur0, self.tiles@, wi, hi, ci as int);
                lemma_frontier_advance(pre, self.tiles@, wi, hi, x as int, y as int, queue@, qi0);
            }
        }
    }

    /// Breadth-first reveal of the blank region around the just-revealed
    /// blank tile at (x, y): starting from the origin's uncoverable
    /// neighbours, every uncoverable non-mine tile reached through blank
    /// tiles is revealed; hint tiles are revealed but end the spill.
    /// Afterwards any remaining open frontier already existed before the
    /// call and does not touch the neighbourhood of (x, y).
    #[verifier::rlimit(100)]
    fn flood_uncover(&mut self, x: usize, y: usize)
        requires
            old(self).inv(),
            old(self).placed,
            !old(self).defeat,
            x < old(self).params.width,
            y < old(self).params.height,
            down_blank_at(old(self).tiles@, old(self).w(), x as int, y as int),
        ensures
            final(self).inv(),
            final(self).placed,
            !final(self).defeat,
            final(self).params == old(self).params,
            final(self).covered <= old(self).covered,
            final(self).tiles@.len() == old(self).tiles@.len(),
            forall|i: int|
                0 <= i < old(self).tiles@.len()
                    ==> tile_evolves(old(self).tiles@[i], #[trigger] final(self).tiles@[i]),
            forall|tx: int, ty: int, ax: int, ay: int|
                #[trigger] open_frontier_at(final(self).tiles@, old(self).w(), old(self).h(), tx, ty, ax, ay)
                    ==> open_frontier_at(old(self).tiles@, old(self).w(), old(self).h(), tx, ty, ax, ay)
                        && !adjacent(ax, ay, x as int, y as int),
            forall|ax: int, ay: int|
                in_bounds(old(self).w(), old(self).h(), ax, ay)
                    && old(self).tiles@[idx_of(old(self).w(), ax, ay)].is_up()
                    && (#[trigger] final(self).tiles@[idx_of(old(self).w(), ax, ay)]).is_down()
                    ==> touches_revealed_blank(final(self).tiles@, old(self).w(), old(self).h(), ax, ay),
    {
        let ghost pre = self.tiles@;
        let ghost wi = self.params.width as int;
        let ghost hi = self.params.height as int;
        let total = self.tiles.len();

        let mut visited: Vec<bool> = Vec::new();
        let mut k0: usize = 0;
        while k0 < total
            invariant
                k0 <= total,
                visited@.len() == k0,
                forall|j: int| 0 <= j < k0 ==> !(#[trigger] visited@[j]),
            decreases total - k0,
        {
            visited.push(false);
            k0 = k0 + 1;
        }
        proof {
            lemma_count_none(visited@, |b: bool| b);
        }

        let mut queue: Vec<(usize, usize)> = Vec::new();
        self.push_uncoverable_neighbours(x, y, &mut queue);
        proof {
            assert forall|k: int|
                0 <= k < queue@.len()
                    implies touches_revealed_blank(self.tiles@, wi, hi, (#[trigger] queue@[k]).0 as int, queue@[k].1 as int)
            by {
                lemma_touches_witness(
                    self.tiles@,
                    wi,
                    hi,
                    queue@[k].0 as int,
                    queue@[k].1 as int,
                    x as int,
                    y as int,
                );
            }
            assert forall|tx: int, ty: int, ax: int, ay: int|
                #[trigger] open_frontier_at(self.tiles@, wi, hi, tx, ty, ax, ay)
                    implies (open_frontier_at(pre, wi, hi, tx, ty, ax, ay)
                        && !adjacent(ax, ay, x as int, y as int)) || (exists|k: int|
                        0 <= k < queue@.len() && queue@[k] == ((ax as usize, ay as usize)))
            by {
                if adjacent(ax, ay, x as int, y as int) {
                    assert(self.tiles@[idx_of(wi, ax, ay)].is_uncoverable_spec());
                }
            }
            assert(flood_inv(*self, pre, x as int, y as int, queue@, 0));
        }

        let mut qi: usize = 0;
        while qi < queue.len()
            invariant
                flood_inv(*self, pre, x as int, y as int, queue@, qi as int),
                pre == old(self).tiles@,
                self.params == old(self).params,
                wi == self.params.width as int,
                hi == self.params.height as int,
                self.covered <= old(self).covered,
                visited@.len() == pre.len(),
                count_where(visited@, |b: bool| b) <= visited@.len(),
                forall|j: int|
                    0 <= j < pre.len() && #[trigger] visited@[j]
                        ==> self.tiles@[j].is_down() || self.tiles@[j].is_flagged()
                            || self.tiles@[j].is_mine_spec(),
            decreases
                pre.len() - count_where(visited@, |b: bool| b),
                queue@.len() - qi,
        {
            let c = queue[qi];
            let cx = c.0;
            let cy = c.1;
            let ghost vis0 = visited@;
            let ghost cur0 = self.tiles@;
            let ghost qi0 = qi as int;
            let ci = self.coords_to_index(cx, cy);
            proof {
                lemma_idx_bounds(wi, hi, cx as int, cy as int);
            }
            if !visited[ci] {
                proof {
                    lemma_count_update(visited@, |b: bool| b, ci as int, true);
                }
                visited.set(ci, true);
                proof {
                    lemma_count_bounds(visited@, |b: bool| b);
                }
                let t = self.tiles[ci];
                if t.is_uncoverable() && !t.is_mine() {
                    self.flood_reveal(x, y, cx, cy, &mut queue, qi, Ghost(pre));
                } else {
                    proof {
                        lemma_frontier_advance(
                            pre,
                            self.tiles@,
                            wi,
                            hi,
                            x as int,
                            y as int,
                            queue@,
                            qi0,
                        );
                    }
                }
            } else {
                proof {
                    assert(visited@[ci as int]);
                    lemma_frontier_advance(
                        pre,
                        self.tiles@,
                        wi,
                        hi,
                        x as int,
                        y as int,
                        queue@,
                        qi0,
                    );
                }
            }
            qi = qi + 1;
        }
    }
}

} // verus!

verus! {

/// A board whose tiles are all covered has no open frontier.
proof fn lemma_no_frontier_all_up(s: Seq<Tile>, w: int, h: int)
    requires
        s.len() == w * h,
        forall|i: int| 0 <= i < s.len() ==> (#[trigger] s[i]).is_up(),
    ensures
        forall|tx: int, ty: int, ax: int, ay: int| !open_frontier_at(s, w, h, tx, ty, ax, ay),
{
    assert forall|tx: int, ty: int, ax: int, ay: int|
        !open_frontier_at(s, w, h, tx, ty, ax, ay)
    by {
        if in_bounds(w, h, tx, ty) {
            lemma_idx_bounds(w, h, tx, ty);
        }
    }
}

/// Away from the neighbourhood of the tile just revealed at (x, y), any
/// open frontier already existed before the reveal.
proof fn lemma_frontier_after_origin_reveal(
    cur0: Seq<Tile>,
    cur1: Seq<Tile>,
    w: int,
    h: int,
    x: int,
    y: int,
)
    requires
        cur0.len() == w * h,
        cur1.len() == cur0.len(),
        in_bounds(w, h, x, y),
        forall|i: int| 0 <= i < cur0.len() && i != idx_of(w, x, y) ==> #[trigger] cur1[i] == cur0[i],
        cur1[idx_of(w, x, y)].is_down(),
    ensures
        forall|tx: int, ty: int, ax: int, ay: int|
            #[trigger] open_frontier_at(cur1, w, h, tx, ty, ax, ay) && !adjacent(ax, ay, x, y)
                ==> open_frontier_at(cur0, w, h, tx, ty, ax, ay),
{
    lemma_idx_bounds(w, h, x, y);
    assert forall|tx: int, ty: int, ax: int, ay: int|
        #[trigger] open_frontier_at(cur1, w, h, tx, ty, ax, ay) && !adjacent(ax, ay, x, y)
            implies open_frontier_at(cur0, w, h, tx, ty, ax, ay)
    by {
        lemma_idx_bounds(w, h, tx, ty);
        lemma_idx_bounds(w, h, ax, ay);
        if idx_of(w, tx, ty) == idx_of(w, x, y) {
            lemma_idx_injective(w, h, tx, ty, x, y);
            assert(false);
        }
        assert(idx_of(w, ax, ay) != idx_of(w, x, y));
    }
}

/// Revealing one uncoverable tile of a running placed board, with the
/// clamped decrement, keeps the counters and hints in step.
proof fn lemma_counts_after_reveal(b0: Board, b1: Board, ci: int)
    requires
        b0.inv(),
        b0.placed,
        !b0.defeat,
        b0.covered != b0.params.mines,
        0 <= ci < b0.tiles@.len(),
        b0.tiles@[ci].is_uncoverable_spec(),
        b1.params == b0.params,
        b1.placed == b0.placed,
        b1.tiles@ == b0.tiles@.update(
            ci,
            Tile { cover: Cover::Down, object: b0.tiles@[ci].object_spec() },
        ),
        b1.covered == if b0.covered > b0.params.mines {
            (b0.covered - 1) as usize
        } else {
            b0.covered
        },
    ensures
        b1.covered == count_where(b1.tiles@, |t: Tile| t.is_up()),
        b1.covered >= b1.params.mines,
        b1.covered <= b0.covered,
        b1.covered == b0.covered - 1,
        count_where(b1.tiles@, |t: Tile| t.is_mine_spec()) == b1.params.mines,
        hints_correct(b1.tiles@, b1.w(), b1.h()),
        !b0.tiles@[ci].is_mine_spec() ==> forall|i: int|
            0 <= i < b1.tiles@.len() && (#[trigger] b1.tiles@[i]).is_mine_spec()
                ==> b1.tiles@[i].is_up(),
{
    lemma_count_update(
        b0.tiles@,
        |tt: Tile| tt.is_up(),
        ci,
        Tile { cover: Cover::Down, object: b0.tiles@[ci].object_spec() },
    );
    lemma_count_update(
        b0.tiles@,
        |tt: Tile| tt.is_mine_spec(),
        ci,
        Tile { cover: Cover::Down, object: b0.tiles@[ci].object_spec() },
    );
    if !b0.tiles@[ci].is_mine_spec() {
        lemma_count_lt(b0.tiles@, |tt: Tile| tt.is_mine_spec(), |tt: Tile| tt.is_up(), ci);
    }
    lemma_hints_correct_same_objects(b0.tiles@, b1.tiles@, b0.w(), b0.h());
}

impl Board {
    /// Flip the uncoverable tile at (x, y) of a running placed board to
    /// revealed, decrementing the covered count under its clamp.
    #[verifier::rlimit(100)]
    fn reveal_running(&mut self, x: usize, y: usize)
        requires
            old(self).inv(),
            old(self).placed,
            !old(self).defeat,
            old(self).covered != old(self).params.mines,
            x < old(self).params.width,
            y < old(self).params.height,
            old(self).tile_at(x as int, y as int).is_uncoverable_spec(),
        ensures
            final(self).params == old(self).params,
            final(self).placed,
            !final(self).defeat,
            final(self).tiles@ == old(self).tiles@.update(
                idx_of(old(self).w(), x as int, y as int),
                Tile {
                    cover: Cover::Down,
                    object: old(self).tile_at(x as int, y as int).object_spec(),
                },
            ),
            final(self).covered == count_where(final(self).tiles@, |t: Tile| t.is_up()),
            final(self).covered >= final(self).params.mines,
            final(self).covered <= old(self).covered,
            final(self).covered == old(self).covered - 1,
            count_where(final(self).tiles@, |t: Tile| t.is_mine_spec()) == final(self).params.mines,
            hints_correct(final(self).tiles@, old(self).w(), old(self).h()),
            !old(self).tile_at(x as int, y as int).is_mine_spec() ==> final(self).inv(),
    {
        let ghost b0 = *self;
        let idx = self.coords_to_index(x, y);
        proof {
            lemma_idx_bounds(self.params.width as int, self.params.height as int, x as int, y as int);
        }
        let t = self.tiles[idx];
        self.tiles.set(idx, Tile { cover: Cover::Down, object: t.object });
        if self.covered > self.params.mines {
            self.covered = self.covered - 1;
        }
        proof {
            lemma_counts_after_reveal(b0, *self, idx as int);
        }
    }
}

} // verus!

verus! {

/// Composing a reveal at (x, y) with a flood that leaves no frontier near
/// (x, y): every remaining open frontier predates the reveal.
proof fn lemma_frontier_compose(
    cur0: Seq<Tile>,
    cur1: Seq<Tile>,
    fin: Seq<Tile>,
    w: int,
    h: int,
    x: int,
    y: int,
)
    requires
        cur0.len() == w * h,
        cur1.len() == cur0.len(),
        fin.len() == cur0.len(),
        in_bounds(w, h, x, y),
        forall|i: int| 0 <= i < cur0.len() && i != idx_of(w, x, y) ==> #[trigger] cur1[i] == cur0[i],
        cur1[idx_of(w, x, y)].is_down(),
        forall|tx: int, ty: int, ax: int, ay: int|
            #[trigger] open_frontier_at(fin, w, h, tx, ty, ax, ay)
                ==> open_frontier_at(cur1, w, h, tx, ty, ax, ay) && !adjacent(ax, ay, x, y),
    ensures
        forall|tx: int, ty: int, ax: int, ay: int|
            #[trigger] open_frontier_at(fin, w, h, tx, ty, ax, ay)
                ==> open_frontier_at(cur0, w, h, tx, ty, ax, ay),
{
    lemma_frontier_after_origin_reveal(cur0, cur1, w, h, x, y);
}

/// Composing a single reveal with further monotone tile evolution: covers
/// only ever go from uncoverable to revealed, and objects never change.
proof fn lemma_evolution_compose(cur0: Seq<Tile>, cur1: Seq<Tile>, fin: Seq<Tile>, idx: int)
    requires
        cur1.len() == cur0.len(),
        fin.len() == cur0.len(),
        0 <= idx < cur0.len(),
        cur0[idx].is_uncoverable_spec(),
        cur1 == cur0.update(idx, Tile { cover: Cover::Down, object: cur0[idx].object_spec() }),
        forall|i: int| 0 <= i < cur1.len() ==> tile_evolves(cur1[i], #[trigger] fin[i]),
    ensures
        forall|i: int|
            0 <= i < cur0.len()
                ==> (#[trigger] fin[i]).cover_spec() == cur0[i].cover_spec()
                    || (cur0[i].is_uncoverable_spec() && fin[i].cover_spec() == Cover::Down),
        forall|i: int| 0 <= i < cur0.len() ==> (#[trigger] fin[i]).object_spec() == cur0[i].object_spec(),
{
    assert forall|i: int|
        0 <= i < cur0.len()
            implies ((#[trigger] fin[i]).cover_spec() == cur0[i].cover_spec()
                || (cur0[i].is_uncoverable_spec() && fin[i].cover_spec() == Cover::Down))
                && fin[i].object_spec() == cur0[i].object_spec()
    by {
        assert(tile_evolves(cur1[i], fin[i]));
    }
}

/// Composing the origin reveal with the flood bound: every tile revealed
/// by the whole action is the origin itself or touches a revealed blank.
proof fn lemma_reveal_bound_compose(
    cur0: Seq<Tile>,
    cur1: Seq<Tile>,
    fin: Seq<Tile>,
    w: int,
    h: int,
    x: int,
    y: int,
)
    requires
        cur0.len() == w * h,
        cur1.len() == cur0.len(),
        fin.len() == cur0.len(),
        in_bounds(w, h, x, y),
        forall|i: int| 0 <= i < cur0.len() && i != idx_of(w, x, y) ==> #[trigger] cur1[i] == cur0[i],
        forall|ax: int, ay: int|
            in_bounds(w, h, ax, ay) && cur1[idx_of(w, ax, ay)].is_up()
                && (#[trigger] fin[idx_of(w, ax, ay)]).is_down()
                ==> touches_revealed_blank(fin, w, h, ax, ay),
    ensures
        forall|ax: int, ay: int|
            in_bounds(w, h, ax, ay) && cur0[idx_of(w, ax, ay)].is_up()
                && (#[trigger] fin[idx_of(w, ax, ay)]).is_down()
                ==> (ax == x && ay == y) || touches_revealed_blank(fin, w, h, ax, ay),
{
    assert forall|ax: int, ay: int|
        in_bounds(w, h, ax, ay) && cur0[idx_of(w, ax, ay)].is_up()
            && (#[trigger] fin[idx_of(w, ax, ay)]).is_down()
            implies (ax == x && ay == y) || touches_revealed_blank(fin, w, h, ax, ay)
    by {
        lemma_idx_bounds(w, h, ax, ay);
        if idx_of(w, ax, ay) == idx_of(w, x, y) {
            lemma_idx_injective(w, h, ax, ay, x, y);
        } else {
            assert(cur1[idx_of(w, ax, ay)].is_up());
        }
    }
}

impl Board {
    /// Reveal the uncoverable blank tile at (x, y) and flood its region.
    #[verifier::rlimit(100)]
    fn uncover_blank(&mut self, x: usize, y: usize)
        requires
            old(self).inv(),
            old(self).placed,
            !old(self).defeat,
            old(self).covered != old(self).params.mines,
            x < old(self).params.width,
            y < old(self).params.height,
            old(self).tile_at(x as int, y as int).is_uncoverable_spec(),
            old(self).tile_at(x as int, y as int).is_blank_spec(),
        ensures
            final(self).inv(),
            final(self).params == old(self).params,
            final(self).placed,
            !final(self).defeat,
            final(self).tiles@.len() == old(self).tiles@.len(),
            final(self).covered <= old(self).covered,
            forall|i: int|
                0 <= i < old(self).tiles@.len()
                    ==> (#[trigger] final(self).tiles@[i]).cover_spec()
                        == old(self).tiles@[i].cover_spec()
                        || (old(self).tiles@[i].is_uncoverable_spec()
                            && final(self).tiles@[i].cover_spec() == Cover::Down),
            forall|i: int|
                0 <= i < old(self).tiles@.len()
                    ==> (#[trigger] final(self).tiles@[i]).object_spec()
                        == old(self).tiles@[i].object_spec(),
            final(self).tile_at(x as int, y as int).is_down(),
            forall|tx: int, ty: int, ax: int, ay: int|
                #[trigger] open_frontier_at(final(self).tiles@, old(self).w(), old(self).h(), tx, ty, ax, ay)
                    ==> open_frontier_at(old(self).tiles@, old(self).w(), old(self).h(), tx, ty, ax, ay),
            forall|ax: int, ay: int|
                in_bounds(old(self).w(), old(self).h(), ax, ay)
                    && old(self).tiles@[idx_of(old(self).w(), ax, ay)].is_up()
                    && (#[trigger] final(self).tiles@[idx_of(old(self).w(), ax, ay)]).is_down()
                    ==> (ax == x && ay == y) || touches_revealed_blank(
                        final(self).tiles@,
                        old(self).w(),
                        old(self).h(),
                        ax,
                        ay,
                    ),
    {
        let ghost wi = self.params.width as int;
        let ghost hi = self.params.height as int;
        let ghost cur0 = self.tiles@;
        proof {
            lemma_idx_bounds(wi, hi, x as int, y as int);
        }
        self.reveal_running(x, y);
        proof {
            assert(down_blank_at(self.tiles@, wi, x as int, y as int));
        }
        let ghost b1 = *self;
        self.flood_after_reveal(x, y, Ghost(cur0));
        proof {
            assert(b1.w() == wi && b1.h() == hi);
            assert forall|i: int|
                0 <= i < cur0.len()
                    implies (#[trigger] self.tiles@[i]).object_spec() == cur0[i].object_spec()
            by {
            }
            assert forall|tx: int, ty: int, ax: int, ay: int|
                #[trigger] open_frontier_at(self.tiles@, wi, hi, tx, ty, ax, ay)
                    implies open_frontier_at(cur0, wi, hi, tx, ty, ax, ay)
            by {
                assert(open_frontier_at(self.tiles@, b1.w(), b1.h(), tx, ty, ax, ay));
            }
            assert forall|ax: int, ay: int|
                in_bounds(wi, hi, ax, ay) && cur0[idx_of(wi, ax, ay)].is_up()
                    && (#[trigger] self.tiles@[idx_of(wi, ax, ay)]).is_down()
                    implies (ax == x && ay == y) || touches_revealed_blank(
                        self.tiles@,
                        wi,
                        hi,
                        ax,
                        ay,
                    )
            by {
                assert(self.tiles@[idx_of(b1.w(), ax, ay)].is_down());
            }
        }
    }

    /// Run the flood from the just-revealed blank origin and relate the
    /// outcome to the tiles `cur0` as they stood before the origin reveal.
    #[verifier::rlimit(100)]
    fn flood_after_reveal(&mut self, x: usize, y: usize, Ghost(cur0): Ghost<Seq<Tile>>)
        requires
            old(self).inv(),
            old(self).placed,
            !old(self).defeat,
            x < old(self).params.width,
            y < old(self).params.height,
            cur0.len() == old(self).tiles@.len(),
            0 <= idx_of(old(self).w(), x as int, y as int) < cur0.len(),
            cur0[idx_of(old(self).w(), x as int, y as int)].is_uncoverable_spec(),
            old(self).tiles@ == cur0.update(
                idx_of(old(self).w(), x as int, y as int),
                Tile {
                    cover: Cover::Down,
                    object: cur0[idx_of(old(self).w(), x as int, y as int)].object_spec(),
                },
            ),
            down_blank_at(old(self).tiles@, old(self).w(), x as int, y as int),
        ensures
            final(self).inv(),
            final(self).params == old(self).params,
            final(self).placed,
            !final(self).defeat,
            final(self).tiles@.len() == old(self).tiles@.len(),
            final(self).covered <= old(self).covered,
            forall|i: int|
                0 <= i < cur0.len()
                    ==> (#[trigger] final(self).tiles@[i]).cover_spec() == cur0[i].cover_spec()
                        || (cur0[i].is_uncoverable_spec()
                            && final(self).tiles@[i].cover_spec() == Cover::Down),
            forall|i: int|
                0 <= i < cur0.len()
                    ==> (#[trigger] final(self).tiles@[i]).object_spec() == cur0[i].object_spec(),
            final(self).tile_at(x as int, y as int).is_down(),
            forall|tx: int, ty: int, ax: int, ay: int|
                #[trigger] open_frontier_at(final(self).tiles@, old(self).w(), old(self).h(), tx, ty, ax, ay)
                    ==> open_frontier_at(cur0, old(self).w(), old(self).h(), tx, ty, ax, ay),
            forall|ax: int, ay: int|
                in_bounds(old(self).w(), old(self).h(), ax, ay)
                    && cur0[idx_of(old(self).w(), ax, ay)].is_up()
                    && (#[trigger] final(self).tiles@[idx_of(old(self).w(), ax, ay)]).is_down()
                    ==> (ax == x && ay == y) || touches_revealed_blank(
                        final(self).tiles@,
                        old(self).w(),
                        old(self).h(),
                        ax,
                        ay,
                    ),
    {
        let ghost wi = self.params.width as int;
        let ghost hi = self.params.height as int;
        let ghost cur1 = self.tiles@;
        let ghost b1 = *self;
        self.flood_uncover(x, y);
        proof {
            lemma_frontier_compose(cur0, cur1, self.tiles@, wi, hi, x as int, y as int);
            lemma_evolution_compose(cur0, cur1, self.tiles@, idx_of(wi, x as int, y as int));
            assert forall|ax: int, ay: int|
                in_bounds(wi, hi, ax, ay) && cur1[idx_of(wi, ax, ay)].is_up()
                    && (#[trigger] self.tiles@[idx_of(wi, ax, ay)]).is_down()
                    implies touches_revealed_blank(self.tiles@, wi, hi, ax, ay)
            by {
                assert(b1.w() == wi);
                assert(self.tiles@[idx_of(b1.w(), ax, ay)].is_down());
            }
            lemma_reveal_bound_compose(cur0, cur1, self.tiles@, wi, hi, x as int, y as int);
        }
    }
}

} // verus!

verus! {

/// An action that changes at most the tile at (x, y) reveals nothing else.
proof fn lemma_update_only_origin(cur0: Seq<Tile>, fin: Seq<Tile>, w: int, h: int, x: int, y: int)
    requires
        cur0.len() == w * h,
        fin.len() == cur0.len(),
        in_bounds(w, h, x, y),
        forall|i: int| 0 <= i < cur0.len() && i != idx_of(w, x, y) ==> #[trigger] fin[i] == cur0[i],
    ensures
        forall|ax: int, ay: int|
            in_bounds(w, h, ax, ay) && cur0[idx_of(w, ax, ay)].is_up()
                && (#[trigger] fin[idx_of(w, ax, ay)]).is_down() ==> ax == x && ay == y,
{
    assert forall|ax: int, ay: int|
        in_bounds(w, h, ax, ay) && cur0[idx_of(w, ax, ay)].is_up()
            && (#[trigger] fin[idx_of(w, ax, ay)]).is_down() implies ax == x && ay == y
    by {
        lemma_idx_bounds(w, h, ax, ay);
        if idx_of(w, ax, ay) == idx_of(w, x, y) {
            lemma_idx_injective(w, h, ax, ay, x, y);
        }
    }
}

impl Board {
    /// Uncover on a board whose mines are already placed and whose game is
    /// still running: a flagged or revealed tile is left alone; otherwise
    /// the tile is revealed, a mine loses the game, and a blank spills into
    /// its region.
    #[verifier::rlimit(100)]
    fn uncover_placed(&mut self, x: usize, y: usize)
        requires
            old(self).inv(),
            old(self).placed,
            !old(self).defeat,
            old(self).covered != old(self).params.mines,
            x < old(self).params.width,
            y < old(self).params.height,
        ensures
            final(self).inv(),
            final(self).params == old(self).params,
            final(self).placed,
            final(self).tiles@.len() == old(self).tiles@.len(),
            (old(self).tile_at(x as int, y as int).is_flagged()
                || old(self).tile_at(x as int, y as int).is_down())
                ==> unchanged_board(*old(self), *final(self)),
            forall|i: int|
                0 <= i < old(self).tiles@.len()
                    ==> (#[trigger] final(self).tiles@[i]).cover_spec()
                        == old(self).tiles@[i].cover_spec()
                        || (old(self).tiles@[i].is_uncoverable_spec()
                            && final(self).tiles@[i].cover_spec() == Cover::Down),
            forall|i: int|
                0 <= i < old(self).tiles@.len()
                    ==> (#[trigger] final(self).tiles@[i]).object_spec()
                        == old(self).tiles@[i].object_spec(),
            final(self).defeat == (old(self).tile_at(x as int, y as int).is_uncoverable_spec()
                && old(self).tile_at(x as int, y as int).is_mine_spec()),
            !old(self).tile_at(x as int, y as int).is_flagged()
                ==> final(self).tile_at(x as int, y as int).is_down(),
            final(self).covered <= old(self).covered,
            (old(self).tile_at(x as int, y as int).is_uncoverable_spec()
                && !old(self).tile_at(x as int, y as int).is_blank_spec()) ==> {
                &&& final(self).tiles@ == old(self).tiles@.update(
                    idx_of(old(self).w(), x as int, y as int),
                    Tile {
                        cover: Cover::Down,
                        object: old(self).tile_at(x as int, y as int).object_spec(),
                    },
                )
                &&& final(self).covered == old(self).covered - 1
            },
            forall|ax: int, ay: int|
                in_bounds(old(self).w(), old(self).h(), ax, ay)
                    && old(self).tiles@[idx_of(old(self).w(), ax, ay)].is_up()
                    && (#[trigger] final(self).tiles@[idx_of(old(self).w(), ax, ay)]).is_down()
                    ==> (ax == x && ay == y) || touches_revealed_blank(
                        final(self).tiles@,
                        old(self).w(),
                        old(self).h(),
                        ax,
                        ay,
                    ),
            forall|tx: int, ty: int, ax: int, ay: int|
                #[trigger] open_frontier_at(final(self).tiles@, old(self).w(), old(self).h(), tx, ty, ax, ay)
                    ==> open_frontier_at(old(self).tiles@, old(self).w(), old(self).h(), tx, ty, ax, ay),
    {
        let ghost wi = self.params.width as int;
        let ghost hi = self.params.height as int;
        let ghost cur0 = self.tiles@;
        let idx = self.coords_to_index(x, y);
        let t = self.tiles[idx];
        match t.cover {
            Cover::Up(mark) => {
                if matches!(mark, Mark::Flag) {
                    return;
                }
                match t.object {
                    Object::Mine => {
                        self.reveal_running(x, y);
                        self.defeat = true;
                        proof {
                            lemma_frontier_after_origin_reveal(cur0, self.tiles@, wi, hi, x as int, y as int);
                            lemma_frontier_reveal_nonblank(cur0, self.tiles@, wi, hi, idx as int);
                            lemma_update_only_origin(cur0, self.tiles@, wi, hi, x as int, y as int);
                        }
                    }
                    Object::Blank => {
                        self.uncover_blank(x, y);
                    }
                    Object::Hint(_) => {
                        self.reveal_running(x, y);
                        proof {
                            lemma_frontier_after_origin_reveal(cur0, self.tiles@, wi, hi, x as int, y as int);
                            lemma_frontier_reveal_nonblank(cur0, self.tiles@, wi, hi, idx as int);
                            lemma_update_only_origin(cur0, self.tiles@, wi, hi, x as int, y as int);
                        }
                    }
                }
            }
            Cover::Down => {}
        }
    }

    /// The player uncovers the tile at (x, y): on the first such action the
    /// mines are scattered first, excluding (x, y) itself. A flagged or
    /// already revealed tile is left alone, as is a finished game; otherwise
    /// the tile is revealed, a mine loses the game, and a blank spills into
    /// its region. Revealing never touches marks and opens no new frontier.
    #[verifier::rlimit(100)]
    pub fn handle_uncover(&mut self, x: usize, y: usize)
        requires
            old(self).inv(),
            x < old(self).params.width,
            y < old(self).params.height,
        ensures
            final(self).inv(),
            final(self).params == old(self).params,
            final(self).tiles@.len() == old(self).tiles@.len(),
            final(self).placed == (old(self).placed || !(old(self).defeat || old(self).covered
                == old(self).params.mines)),
            (old(self).defeat || old(self).covered == old(self).params.mines)
                ==> unchanged_board(*old(self), *final(self)),
            (!old(self).defeat && old(self).covered != old(self).params.mines && old(self).placed
                && (old(self).tile_at(x as int, y as int).is_flagged()
                    || old(self).tile_at(x as int, y as int).is_down()))
                ==> unchanged_board(*old(self), *final(self)),
            forall|i: int|
                0 <= i < old(self).tiles@.len()
                    ==> (#[trigger] final(self).tiles@[i]).cover_spec()
                        == old(self).tiles@[i].cover_spec()
                        || (old(self).tiles@[i].is_uncoverable_spec()
                            && final(self).tiles@[i].cover_spec() == Cover::Down),
            old(self).placed ==> forall|i: int|
                0 <= i < old(self).tiles@.len()
                    ==> (#[trigger] final(self).tiles@[i]).object_spec()
                        == old(self).tiles@[i].object_spec(),
            final(self).defeat == (old(self).defeat || (old(self).placed && old(self).covered
                != old(self).params.mines
                && old(self).tile_at(x as int, y as int).is_uncoverable_spec()
                && old(self).tile_at(x as int, y as int).is_mine_spec())),
            !old(self).placed ==> !final(self).defeat,
            !old(self).placed ==> !final(self).tile_at(x as int, y as int).is_mine_spec(),
            (!old(self).defeat && old(self).covered != old(self).params.mines
                && !old(self).tile_at(x as int, y as int).is_flagged())
                ==> final(self).tile_at(x as int, y as int).is_down(),
            final(self).covered <= old(self).covered,
            old(self).tile_at(x as int, y as int).is_flagged() ==> {
                &&& forall|i: int|
                    0 <= i < old(self).tiles@.len()
                        ==> (#[trigger] final(self).tiles@[i]).cover_spec()
                            == old(self).tiles@[i].cover_spec()
                &&& final(self).covered == old(self).covered
            },
            (!old(self).defeat && old(self).covered != old(self).params.mines && old(self).placed
                && old(self).tile_at(x as int, y as int).is_uncoverable_spec()
                && !old(self).tile_at(x as int, y as int).is_blank_spec()) ==> {
                &&& final(self).tiles@ == old(self).tiles@.update(
                    idx_of(old(self).w(), x as int, y as int),
                    Tile {
                        cover: Cover::Down,
                        object: old(self).tile_at(x as int, y as int).object_spec(),
                    },
                )
                &&& final(self).covered == old(self).covered - 1
            },
            forall|ax: int, ay: int|
                in_bounds(old(self).w(), old(self).h(), ax, ay)
                    && old(self).tiles@[idx_of(old(self).w(), ax, ay)].is_up()
                    && (#[trigger] final(self).tiles@[idx_of(old(self).w(), ax, ay)]).is_down()
                    ==> (ax == x && ay == y) || touches_revealed_blank(
                        final(self).tiles@,
                        old(self).w(),
                        old(self).h(),
                        ax,
                        ay,
                    ),
            forall|tx: int, ty: int, ax: int, ay: int|
                #[trigger] open_frontier_at(final(self).tiles@, old(self).w(), old(self).h(), tx, ty, ax, ay)
                    ==> open_frontier_at(old(self).tiles@, old(self).w(), old(self).h(), tx, ty, ax, ay),
            (flood_closed(old(self).tiles@, old(self).w(), old(self).h())
                ==> flood_closed(final(self).tiles@, old(self).w(), old(self).h())),
    {
        if self.defeat {
            return;
        }
        if self.covered == self.params.mines {
            return;
        }
        let ghost wi = self.params.width as int;
        let ghost hi = self.params.height as int;
        let idx = self.coords_to_index(x, y);
        if !self.placed {
            self.place_randomly(idx);
            proof {
                lemma_no_frontier_all_up(old(self).tiles@, wi, hi);
                lemma_no_frontier_all_up(self.tiles@, wi, hi);
            }
        }
        let ghost cur0 = *self;
        self.uncover_placed(x, y);
        proof {
            assert forall|tx: int, ty: int, ax: int, ay: int|
                #[trigger] open_frontier_at(self.tiles@, wi, hi, tx, ty, ax, ay)
                    implies open_frontier_at(old(self).tiles@, wi, hi, tx, ty, ax, ay)
            by {
                assert(open_frontier_at(self.tiles@, cur0.w(), cur0.h(), tx, ty, ax, ay));
                assert(open_frontier_at(cur0.tiles@, wi, hi, tx, ty, ax, ay));
            }
            assert forall|ax: int, ay: int|
                in_bounds(wi, hi, ax, ay) && old(self).tiles@[idx_of(wi, ax, ay)].is_up()
                    && (#[trigger] self.tiles@[idx_of(wi, ax, ay)]).is_down()
                    implies (ax == x && ay == y) || touches_revealed_blank(
                        self.tiles@,
                        wi,
                        hi,
                        ax,
                        ay,
                    )
            by {
                lemma_idx_bounds(wi, hi, ax, ay);
                assert(cur0.tiles@[idx_of(wi, ax, ay)].cover_spec()
                    == old(self).tiles@[idx_of(wi, ax, ay)].cover_spec());
                assert(self.tiles@[idx_of(cur0.w(), ax, ay)].is_down());
            }
            if old(self).tile_at(x as int, y as int).is_flagged() {
                lemma_idx_bounds(wi, hi, x as int, y as int);
                assert(cur0.tiles@[idx_of(wi, x as int, y as int)].cover_spec()
                    == old(self).tiles@[idx_of(wi, x as int, y as int)].cover_spec());
                assert(unchanged_board(cur0, *self));
                assert forall|i: int|
                    0 <= i < old(self).tiles@.len()
                        implies (#[trigger] self.tiles@[i]).cover_spec()
                            == old(self).tiles@[i].cover_spec()
                by {
                    assert(self.tiles@[i] == cur0.tiles@[i]);
                }
            }
            if flood_closed(old(self).tiles@, wi, hi) {
                assert forall|tx: int, ty: int, ax: int, ay: int|
                    !open_frontier_at(self.tiles@, wi, hi, tx, ty, ax, ay)
                by {
                    if open_frontier_at(self.tiles@, wi, hi, tx, ty, ax, ay) {
                        assert(open_frontier_at(old(self).tiles@, wi, hi, tx, ty, ax, ay));
                    }
                }
            }
        }
    }
}

} // verus!

verus! {

/// Victory holds exactly when no mine was revealed and every non-mine tile
/// has been revealed.
pub proof fn lemma_victory_iff(b: &Board)
    requires
        b.inv(),
    ensures
        b.victory_spec() <==> (!b.defeat && forall|i: int|
            0 <= i < b.tiles@.len() && !(#[trigger] b.tiles@[i]).is_mine_spec()
                ==> b.tiles@[i].is_down()),
{
    assert(b.params.width * b.params.height >= 1) by (nonlinear_arith)
        requires
            b.params.width >= 1,
            b.params.height >= 1,
    ;
    if !b.defeat {
        if b.placed {
            if b.covered == b.params.mines {
                assert forall|i: int|
                    0 <= i < b.tiles@.len() && !(#[trigger] b.tiles@[i]).is_mine_spec()
                        implies b.tiles@[i].is_down()
                by {
                    if b.tiles@[i].is_up() {
                        lemma_count_lt(
                            b.tiles@,
                            |t: Tile| t.is_mine_spec(),
                            |t: Tile| t.is_up(),
                            i,
                        );
                    }
                }
            } else {
                if forall|i: int|
                    0 <= i < b.tiles@.len() && !(#[trigger] b.tiles@[i]).is_mine_spec()
                        ==> b.tiles@[i].is_down() {
                    lemma_count_le(b.tiles@, |t: Tile| t.is_up(), |t: Tile| t.is_mine_spec());
                    lemma_count_le(b.tiles@, |t: Tile| t.is_mine_spec(), |t: Tile| t.is_up());
                    assert(false);
                }
            }
        } else {
            assert(b.tiles@[0].is_up());
            assert(b.tiles@[0].object_spec() == Object::Blank);
        }
    }
}

/// In a board with no open frontier, every unflagged neighbour of a
/// revealed blank tile is itself revealed; in particular the hint tiles
/// around an opened blank region are revealed.
pub proof fn lemma_region_boundary_down(
    s: Seq<Tile>,
    w: int,
    h: int,
    tx: int,
    ty: int,
    cx: int,
    cy: int,
)
    requires
        s.len() == w * h,
        flood_closed(s, w, h),
        in_bounds(w, h, tx, ty),
        in_bounds(w, h, cx, cy),
        adjacent(tx, ty, cx, cy),
        down_blank_at(s, w, tx, ty),
        !s[idx_of(w, cx, cy)].is_flagged(),
    ensures
        s[idx_of(w, cx, cy)].is_down(),
{
    lemma_idx_bounds(w, h, tx, ty);
    lemma_idx_bounds(w, h, cx, cy);
    if !s[idx_of(w, cx, cy)].is_down() {
        assert(s[idx_of(w, cx, cy)].is_uncoverable_spec());
        assert(open_frontier_at(s, w, h, tx, ty, cx, cy));
        assert(false);
    }
}

/// In a board with no open frontier, a chain of adjacent unflagged blank
/// tiles starting at a revealed blank is revealed throughout: an opened
/// blank region is revealed all the way to its boundary.
pub proof fn lemma_blank_region_down(s: Seq<Tile>, w: int, h: int, p: Seq<(int, int)>)
    requires
        s.len() == w * h,
        flood_closed(s, w, h),
        p.len() >= 1,
        in_bounds(w, h, p[0].0, p[0].1),
        down_blank_at(s, w, p[0].0, p[0].1),
        forall|k: int|
            1 <= k < p.len() ==> {
                &&& in_bounds(w, h, (#[trigger] p[k]).0, p[k].1)
                &&& adjacent(p[k - 1].0, p[k - 1].1, p[k].0, p[k].1)
                &&& s[idx_of(w, p[k].0, p[k].1)].is_blank_spec()
                &&& !s[idx_of(w, p[k].0, p[k].1)].is_flagged()
            },
    ensures
        forall|k: int|
            0 <= k < p.len() ==> s[idx_of(w, (#[trigger] p[k]).0, p[k].1)].is_down(),
    decreases p.len(),
{
    lemma_idx_bounds(w, h, p[0].0, p[0].1);
    if p.len() > 1 {
        let q = p.drop_last();
        assert(q[0] == p[0]);
        assert forall|k: int| 1 <= k < q.len() implies {
            &&& in_bounds(w, h, (#[trigger] q[k]).0, q[k].1)
            &&& adjacent(q[k - 1].0, q[k - 1].1, q[k].0, q[k].1)
            &&& s[idx_of(w, q[k].0, q[k].1)].is_blank_spec()
            &&& !s[idx_of(w, q[k].0, q[k].1)].is_flagged()
        } by {
            assert(q[k] == p[k]);
            assert(q[k - 1] == p[k - 1]);
        }
        lemma_blank_region_down(s, w, h, q);
        let k = p.len() - 1;
        assert(q[k - 1] == p[k - 1]);
        assert(s[idx_of(w, p[k - 1].0, p[k - 1].1)].is_down());
        assert(s[idx_of(w, p[k - 1].0, p[k - 1].1)].is_blank_spec());
        lemma_region_boundary_down(s, w, h, p[k - 1].0, p[k - 1].1, p[k].0, p[k].1);
        assert forall|j: int|
            0 <= j < p.len() implies s[idx_of(w, (#[trigger] p[j]).0, p[j].1)].is_down()
        by {
            if j < p.len() - 1 {
                assert(q[j] == p[j]);
            }
        }
    }
}

} // verus!
