//! The sliding puzzle: a square of tiles with one of them missing, in which a
//! tile next to the gap can slide into it. A grid is solved when its tiles stand
//! in rising order, the first or the last place left aside.
//!
//! A grid may have any side. A search knows a state by a key of 64 bits, which
//! tells the grids of a side up to four apart. The grids of a side up to three
//! are few enough for the cost of a route to be held in any `isize`, those of a
//! side of four in an `isize` of 64 bits: those are the puzzles that
//! `square_less_one` promises a search can be run on.

use crate::problem::{GoalTest, Problem, SearchState, StateActionsMap, Transition, UniformPathCost};
use rand::seq::SliceRandom;
use rand::thread_rng;
use std::marker::PhantomData;
use vstd::prelude::*;

verus! {

/// The cells of a grid, one after the other. Two chains that hold the same
/// values in the same order are the same chain.
#[derive(Hash, PartialEq, Eq, Debug)]
pub enum Cells {
    End,
    Cell(usize, Box<Cells>),
}

/// The grid, row by row. The value 0 is the gap, the other values are the
/// tiles.
#[derive(Hash, PartialEq, Eq, Debug)]
pub struct GridState {
    inner: Cells,
    side_len: usize,
}

/// The way in which the gap moves.
#[derive(Clone, Copy, Hash, PartialEq, Eq, Debug)]
pub enum GridAction {
    Up,
    Down,
    Right,
    Left,
}

impl Cells {
    /// The values of the chain in their order.
    pub open spec fn seq(self) -> Seq<usize>
        decreases self,
    {
        match self {
            Cells::End => Seq::empty(),
            Cells::Cell(first, rest) => seq![first] + rest.seq(),
        }
    }

    /// The chain of the given values.
    pub open spec fn of(values: Seq<usize>) -> Cells
        decreases values.len(),
    {
        if values.len() == 0 {
            Cells::End
        } else {
            Cells::Cell(values[0], Box::new(Cells::of(values.skip(1))))
        }
    }

    /// The chain of given values holds those values.
    pub proof fn lemma_seq_of(values: Seq<usize>)
        ensures
            Cells::of(values).seq() == values,
        decreases values.len(),
    {
        if values.len() > 0 {
            Cells::lemma_seq_of(values.skip(1));
            assert(seq![values[0]] + values.skip(1) =~= values);
        }
    }

    /// A chain is the chain of its values.
    pub proof fn lemma_of_seq(self)
        ensures
            Cells::of(self.seq()) == self,
        decreases self,
    {
        match self {
            Cells::End => {},
            Cells::Cell(first, rest) => {
                rest.lemma_of_seq();
                assert(self.seq().skip(1) =~= rest.seq());
            },
        }
    }

    /// The values of the chain in their order.
    pub fn to_vec(&self) -> (values: Vec<usize>)
        ensures
            values@ == self.seq(),
    {
        let mut values: Vec<usize> = Vec::new();
        let mut current = self;
        loop
            invariant
                self.seq() == values@ + current.seq(),
            decreases current,
        {
            match current {
                Cells::End => {
                    assert(values@ + current.seq() =~= values@);
                    return values;
                },
                Cells::Cell(first, rest) => {
                    assert(values@.push(*first) + rest.seq() =~= values@ + current.seq());
                    values.push(*first);
                    current = &**rest;
                },
            }
        }
    }

    /// The chain of the given values.
    pub fn from_vec(values: &Vec<usize>) -> (chain: Cells)
        ensures
            chain == Cells::of(values@),
    {
        let mut chain = Cells::End;
        let mut left: usize = values.len();
        assert(values@.skip(left as int) =~= Seq::empty());
        while left > 0
            invariant
                left <= values.len(),
                chain == Cells::of(values@.skip(left as int)),
            decreases left,
        {
            left = left - 1;
            assert(values@.skip(left as int).skip(1) =~= values@.skip(left + 1));
            chain = Cells::Cell(values[left], Box::new(chain));
        }
        assert(values@.skip(0) =~= values@);
        chain
    }
}

/// `base` to the power of `n`.
pub open spec fn power(base: int, n: nat) -> int
    decreases n,
{
    if n == 0 {
        1
    } else {
        base * power(base, (n - 1) as nat)
    }
}

/// The number that `cells` spell as digits to the given base, the last cell the
/// lowest digit.
pub open spec fn encode(cells: Seq<usize>, base: int) -> int
    decreases cells.len(),
{
    if cells.len() == 0 {
        0
    } else {
        base * encode(cells.drop_last(), base) + cells.last()
    }
}

/// No cell holds `base` or more.
pub open spec fn digits(cells: Seq<usize>, base: int) -> bool {
    forall|i: int| 0 <= i < cells.len() ==> #[trigger] cells[i] < base
}

/// The base to which the key of a grid of the given side spells its cells: nine
/// up to a side of three, sixteen for a side of four. A grid of a greater side
/// has more states than there are keys.
pub open spec fn key_base(side: int) -> int {
    if side <= 3 {
        9
    } else {
        16
    }
}

/// Each value is no greater than those after it.
pub open spec fn rising(cells: Seq<usize>) -> bool {
    forall|i: int, j: int| 0 <= i < j < cells.len() ==> cells[i] <= cells[j]
}

/// The tiles stand in rising order, the first or the last place left aside.
pub open spec fn solved(tiles: Seq<usize>) -> bool {
    tiles.len() == 0 || rising(tiles.skip(1)) || rising(tiles.take(tiles.len() - 1))
}

/// `at` is the first place that holds the gap.
pub open spec fn is_first_gap(tiles: Seq<usize>, at: int) -> bool {
    &&& 0 <= at < tiles.len()
    &&& tiles[at] == 0
    &&& forall|j: int| 0 <= j < at ==> tiles[j] != 0
}

/// The first place that holds the gap, if any does.
pub open spec fn first_gap(tiles: Seq<usize>) -> Option<int> {
    if exists|at: int| is_first_gap(tiles, at) {
        Some(choose|at: int| is_first_gap(tiles, at))
    } else {
        None
    }
}

/// The place that the gap at `at` moves to by `action` in a grid of `count`
/// places in rows of `side`; none where the move would leave the grid or pass
/// from the end of one row to the start of the next.
pub open spec fn target(at: int, side: int, count: int, action: GridAction) -> Option<int> {
    match action {
        GridAction::Up => if at >= side {
            Some(at - side)
        } else {
            None
        },
        GridAction::Down => if at + side < count {
            Some(at + side)
        } else {
            None
        },
        GridAction::Left => if at > 0 && at % side != 0 {
            Some(at - 1)
        } else {
            None
        },
        GridAction::Right => if at + 1 < count && (at + 1) % side != 0 {
            Some(at + 1)
        } else {
            None
        },
    }
}

/// The tiles after `action`: the gap and the tile at its target change places.
/// Nothing changes where there is no gap or no target.
pub open spec fn slide(tiles: Seq<usize>, side: int, action: GridAction) -> Seq<usize> {
    match first_gap(tiles) {
        Some(at) => match target(at, side, tiles.len() as int, action) {
            Some(to) => tiles.update(at, tiles[to]).update(to, tiles[at]),
            None => tiles,
        },
        None => tiles,
    }
}

/// The powers of a base of one or more grow with the exponent.
pub proof fn lemma_power_grows(base: int, low: nat, high: nat)
    requires
        1 <= base,
        low <= high,
    ensures
        1 <= power(base, low) <= power(base, high),
    decreases high,
{
    if low < high {
        lemma_power_grows(base, low, (high - 1) as nat);
        assert(power(base, (high - 1) as nat) <= base * power(base, (high - 1) as nat))
            by (nonlinear_arith)
            requires
                1 <= base,
                1 <= power(base, (high - 1) as nat),
        ;
    } else if low > 0 {
        lemma_power_grows(base, (low - 1) as nat, (low - 1) as nat);
        assert(1 <= base * power(base, (low - 1) as nat)) by (nonlinear_arith)
            requires
                1 <= base,
                1 <= power(base, (low - 1) as nat),
        ;
    }
}

/// Digits spell a number under the base to the power of their count.
pub proof fn lemma_encode_bound(cells: Seq<usize>, base: int)
    requires
        1 <= base,
        digits(cells, base),
    ensures
        0 <= encode(cells, base) < power(base, cells.len()),
    decreases cells.len(),
{
    if cells.len() > 0 {
        let before = cells.drop_last();
        lemma_encode_bound(before, base);
        assert(0 <= base * encode(before, base) + cells.last() < base * power(base, before.len()))
            by (nonlinear_arith)
            requires
                1 <= base,
                0 <= encode(before, base) < power(base, before.len()),
                0 <= cells.last() < base,
        ;
    }
}

/// Digits of one count that spell the same number are the same digits.
pub proof fn lemma_encode_tells_apart(one: Seq<usize>, other: Seq<usize>, base: int)
    requires
        1 <= base,
        digits(one, base),
        digits(other, base),
        one.len() == other.len(),
        encode(one, base) == encode(other, base),
    ensures
        one == other,
    decreases one.len(),
{
    if one.len() > 0 {
        let a = encode(one.drop_last(), base);
        let b = encode(other.drop_last(), base);
        let x = one.last() as int;
        let y = other.last() as int;
        assert(a == b && x == y) by (nonlinear_arith)
            requires
                1 <= base,
                0 <= x < base,
                0 <= y < base,
                base * a + x == base * b + y,
        ;
        lemma_encode_tells_apart(one.drop_last(), other.drop_last(), base);
        assert(one =~= one.drop_last().push(one.last()));
        assert(other =~= other.drop_last().push(other.last()));
    } else {
        assert(one =~= other);
    }
}

/// Nine to the ninth and sixteen to the sixteenth, the number of keys that the
/// grids of a side up to three and of a side of four can have, and sixteen to
/// the fifteenth, which the grids of a side of four do not outnumber.
pub proof fn lemma_key_ranges()
    ensures
        power(9, 9) == 387420489,
        power(16, 15) == 0x1000_0000_0000_0000,
        power(16, 16) == 0x1_0000_0000_0000_0000,
{
    reveal_with_fuel(power, 10);
    assert(power(16, 8) == 0x1_0000_0000);
    assert(power(16, 7) == 0x1000_0000);
    assert(power(16, 15) == 0x1_0000_0000 * power(16, 7));
    assert(power(16, 16) == 0x1_0000_0000 * power(16, 8));
}

/// The sum of the values.
pub open spec fn total(tiles: Seq<usize>) -> int
    decreases tiles.len(),
{
    if tiles.len() == 0 {
        0
    } else {
        total(tiles.drop_last()) + tiles.last()
    }
}

/// A new value in one place changes the sum by what the place gains.
pub proof fn lemma_total_update(tiles: Seq<usize>, at: int, value: usize)
    requires
        0 <= at < tiles.len(),
    ensures
        total(tiles.update(at, value)) == total(tiles) - tiles[at] + value,
    decreases tiles.len(),
{
    if at == tiles.len() - 1 {
        assert(tiles.update(at, value).drop_last() =~= tiles.drop_last());
    } else {
        lemma_total_update(tiles.drop_last(), at, value);
        assert(tiles.update(at, value).drop_last() =~= tiles.drop_last().update(at, value));
    }
}

/// A move keeps the sum of the values.
pub proof fn lemma_slide_total(tiles: Seq<usize>, side: int, action: GridAction)
    requires
        1 <= side,
    ensures
        total(slide(tiles, side, action)) == total(tiles),
{
    match first_gap(tiles) {
        Some(at) => match target(at, side, tiles.len() as int, action) {
            Some(to) => {
                lemma_total_update(tiles, at, tiles[to]);
                lemma_total_update(tiles.update(at, tiles[to]), to, tiles[at]);
            },
            None => {},
        },
        None => {},
    }
}

/// Whether the costs of the routes of a puzzle of side four can be held: that
/// is so where `isize` holds sixteen to the fifteenth.
pub fn holds_side_four() -> (yes: bool)
    ensures
        yes == (isize::MAX >= 0x1000_0000_0000_0000),
{
    usize::BITS >= 64
}

/// `SliceRandom::shuffle` with the generator of `thread_rng`: the same items in
/// an order that is left to chance.
#[verifier::external_body]
fn shuffle_tiles(tiles: &mut Vec<usize>)
    ensures
        final(tiles)@.to_multiset() == old(tiles)@.to_multiset(),
{
    tiles.shuffle(&mut thread_rng());
}

/// Whether the values from `from` up to `to` stand in rising order.
fn ascending(tiles: &Vec<usize>, from: usize, to: usize) -> (yes: bool)
    requires
        from <= to <= tiles.len(),
    ensures
        yes == rising(tiles@.subrange(from as int, to as int)),
{
    let ghost part = tiles@.subrange(from as int, to as int);
    if to - from < 2 {
        return true;
    }
    let mut at: usize = from;
    while at + 1 < to
        invariant
            from <= at < to <= tiles.len(),
            part == tiles@.subrange(from as int, to as int),
            forall|i: int, j: int| from <= i < j <= at ==> tiles[i] <= tiles[j],
        decreases to - at,
    {
        if tiles[at] > tiles[at + 1] {
            assert(part[at - from] > part[at + 1 - from]);
            return false;
        }
        at += 1;
    }
    true
}

/// The first place that holds the gap, if any does.
fn gap(tiles: &Vec<usize>) -> (found: Option<usize>)
    ensures
        match found {
            Some(at) => first_gap(tiles@) == Some(at as int) && at < tiles.len(),
            None => first_gap(tiles@) is None,
        },
{
    let mut at: usize = 0;
    while at < tiles.len() && tiles[at] != 0
        invariant
            at <= tiles.len(),
            forall|j: int| 0 <= j < at ==> tiles[j] != 0,
        decreases tiles.len() - at,
    {
        at += 1;
    }
    if at == tiles.len() {
        assert(forall|gap: int| !is_first_gap(tiles@, gap));
        None
    } else {
        assert(is_first_gap(tiles@, at as int));
        Some(at)
    }
}

/// The place that the gap at `at` moves to by `action`, if it can move that way.
fn slide_to(at: usize, side: usize, count: usize, action: GridAction) -> (to: Option<usize>)
    requires
        1 <= side,
        at < count,
    ensures
        match to {
            Some(place) => target(at as int, side as int, count as int, action) == Some(
                place as int,
            ) && place < count,
            None => target(at as int, side as int, count as int, action) is None,
        },
{
    match action {
        GridAction::Up => if at >= side {
            Some(at - side)
        } else {
            None
        },
        GridAction::Down => if side < count - at {
            Some(at + side)
        } else {
            None
        },
        GridAction::Left => if at > 0 && at % side != 0 {
            Some(at - 1)
        } else {
            None
        },
        GridAction::Right => if at + 1 < count && (at + 1) % side != 0 {
            Some(at + 1)
        } else {
            None
        },
    }
}

/// The number that the tiles spell to the given base.
fn spell(tiles: &Vec<usize>, base: u64) -> (k: u64)
    requires
        digits(tiles@, base as int),
        (base == 9 && tiles.len() <= 9) || (base == 16 && tiles.len() <= 16),
    ensures
        k == encode(tiles@, base as int),
{
    proof {
        lemma_key_ranges();
        if base == 9 {
            lemma_power_grows(9, tiles.len() as nat, 9);
        } else {
            lemma_power_grows(16, tiles.len() as nat, 16);
        }
    }
    let mut k: u64 = 0;
    let mut at: usize = 0;
    while at < tiles.len()
        invariant
            at <= tiles.len(),
            digits(tiles@, base as int),
            1 <= base,
            k == encode(tiles@.take(at as int), base as int),
            power(base as int, tiles.len() as nat) <= 0x1_0000_0000_0000_0000,
        decreases tiles.len() - at,
    {
        proof {
            let upto = tiles@.take(at + 1);
            assert(upto.drop_last() =~= tiles@.take(at as int));
            lemma_encode_bound(upto, base as int);
            lemma_power_grows(base as int, (at + 1) as nat, tiles.len() as nat);
        }
        k = base * k + tiles[at] as u64;
        at += 1;
    }
    assert(tiles@.take(at as int) =~= tiles@);
    k
}

impl GridState {
    /// The grid has as many places as its side asks for, and every place holds a
    /// value under that number.
    #[verifier::type_invariant]
    pub closed spec fn well_shaped(self) -> bool {
        &&& self.inner.seq().len() == self.side_len * self.side_len
        &&& digits(self.inner.seq(), self.inner.seq().len() as int)
    }

    /// The number of rows, which is the number of columns.
    pub closed spec fn side(self) -> int {
        self.side_len as int
    }

    /// The tiles and the gap, row by row.
    pub closed spec fn tiles(self) -> Seq<usize> {
        self.inner.seq()
    }

    /// The grid after `action`.
    pub closed spec fn moved(self, action: GridAction) -> GridState {
        GridState {
            inner: Cells::of(slide(self.inner.seq(), self.side_len as int, action)),
            side_len: self.side_len,
        }
    }

    /// Moving keeps the side and the shape, and does to the tiles what `slide`
    /// says.
    pub proof fn lemma_moved(self, action: GridAction)
        requires
            self.well_shaped(),
        ensures
            self.moved(action).well_shaped(),
            self.moved(action).side() == self.side(),
            self.moved(action).tiles() == slide(self.tiles(), self.side(), action),
    {
        Cells::lemma_seq_of(slide(self.inner.seq(), self.side_len as int, action));
    }

    /// The grid of the given side in which the values stand in order: the gap
    /// first, then the tiles from one up.
    pub fn new(side_len: usize) -> (grid: Self)
        requires
            side_len * side_len <= usize::MAX,
        ensures
            grid.side() == side_len,
            grid.tiles() == Seq::new((side_len * side_len) as nat, |i: int| i as usize),
    {
        let count = side_len * side_len;
        let mut tiles: Vec<usize> = Vec::new();
        let mut at: usize = 0;
        while at < count
            invariant
                at <= count,
                tiles.len() == at,
                forall|i: int| 0 <= i < at ==> tiles[i] == i,
            decreases count - at,
        {
            tiles.push(at);
            at += 1;
        }
        proof {
            Cells::lemma_seq_of(tiles@);
            assert(tiles@ =~= Seq::new(count as nat, |i: int| i as usize));
        }
        GridState { inner: Cells::from_vec(&tiles), side_len }
    }

    /// The grid of the given side that holds `tiles`, row by row. There is one
    /// where `tiles` has the places that the side asks for and holds each of the
    /// values from 0 to the number of places less one once.
    pub fn from_tiles(tiles: Vec<usize>, side_len: usize) -> (made: Option<Self>)
        ensures
            made is Some <==> tiles.len() == side_len * side_len && tiles@.no_duplicates()
                && forall|i: int| 0 <= i < tiles.len() ==> #[trigger] tiles[i] < tiles.len(),
            made is Some ==> made.unwrap().side() == side_len && made.unwrap().tiles() == tiles@,
    {
        match side_len.checked_mul(side_len) {
            Some(count) => if tiles.len() != count {
                return None;
            },
            None => {
                return None;
            },
        }
        let count = tiles.len();
        let mut at: usize = 0;
        while at < count
            invariant
                at <= count,
                count == tiles.len(),
                forall|i: int| 0 <= i < at ==> #[trigger] tiles[i] < count,
                forall|i: int, j: int| 0 <= i < j < at ==> tiles[i] != tiles[j],
            decreases count - at,
        {
            let tile = tiles[at];
            if tile >= count {
                return None;
            }
            let mut before: usize = 0;
            while before < at
                invariant
                    before <= at < count,
                    count == tiles.len(),
                    tile == tiles[at as int],
                    forall|i: int| 0 <= i < before ==> tiles[i] != tile,
                decreases at - before,
            {
                if tiles[before] == tile {
                    return None;
                }
                before += 1;
            }
            at += 1;
        }
        proof {
            Cells::lemma_seq_of(tiles@);
        }
        Some(GridState { inner: Cells::from_vec(&tiles), side_len })
    }

    /// The tiles and the gap, row by row.
    pub fn to_tiles(&self) -> (tiles: Vec<usize>)
        ensures
            tiles@ == self.tiles(),
    {
        self.inner.to_vec()
    }

    /// Puts the tiles and the gap in the order of `tiles`, which holds the values
    /// of this grid, each as often as the grid holds it.
    pub fn rearrange(&mut self, tiles: &Vec<usize>)
        requires
            tiles@.to_multiset() == old(self).tiles().to_multiset(),
        ensures
            final(self).side() == old(self).side(),
            final(self).tiles() == tiles@,
    {
        proof {
            use_type_invariant(&*self);
            let before = self.tiles();
            tiles@.to_multiset_ensures();
            before.to_multiset_ensures();
            assert forall|i: int| 0 <= i < tiles.len() implies #[trigger] tiles[i]
                < tiles.len() by {
                assert(tiles@.contains(tiles@[i]));
                assert(tiles@.to_multiset().count(tiles@[i]) > 0);
                assert(before.to_multiset().count(tiles@[i]) > 0);
                assert(before.contains(tiles@[i]));
                let at = choose|at: int| 0 <= at < before.len() && before[at] == tiles@[i];
                assert(before[at] < before.len());
            }
            Cells::lemma_seq_of(tiles@);
        }
        self.inner = Cells::from_vec(tiles);
    }

    /// Puts the tiles and the gap in an order that is left to chance: the tiles
    /// are handed to the generator and come back in the order that `rearrange`
    /// then gives the grid. Every order may come back, the one that the grid has
    /// too, and not every order can be solved.
    pub fn shuffle(&mut self)
        ensures
            final(self).side() == old(self).side(),
            final(self).tiles().to_multiset() == old(self).tiles().to_multiset(),
    {
        let mut tiles = self.to_tiles();
        shuffle_tiles(&mut tiles);
        self.rearrange(&tiles);
    }

    /// Whether the grid is solved.
    pub fn is_solved(&self) -> (yes: bool)
        ensures
            yes == solved(self.tiles()),
    {
        let tiles = self.to_tiles();
        let count = tiles.len();
        if count == 0 {
            return true;
        }
        proof {
            assert(tiles@.skip(1) =~= tiles@.subrange(1, count as int));
            assert(tiles@.take(count - 1) =~= tiles@.subrange(0, count - 1));
        }
        ascending(&tiles, 1, count) || ascending(&tiles, 0, count - 1)
    }

    /// The four ways in which the gap may be asked to move. One that cannot be
    /// followed leaves the grid as it is.
    pub fn actions(&self) -> (open: Vec<GridAction>)
        ensures
            open@ == grid_actions(),
            open@.no_duplicates(),
    {
        let mut open = Vec::new();
        open.push(GridAction::Up);
        open.push(GridAction::Down);
        open.push(GridAction::Right);
        open.push(GridAction::Left);
        assert(open@ =~= grid_actions());
        open
    }

    /// The grid after `action`: the gap and the tile at its target have changed
    /// places, or nothing has changed where the gap cannot move that way.
    pub fn transition(&self, action: &GridAction) -> (next: Self)
        ensures
            next == self.moved(*action),
            next.side() == self.side(),
            next.tiles() == slide(self.tiles(), self.side(), *action),
    {
        proof {
            use_type_invariant(self);
            self.lemma_moved(*action);
        }
        let mut tiles = self.to_tiles();
        let ghost before = tiles@;
        match gap(&tiles) {
            Some(at) => {
                assert(self.side_len >= 1) by (nonlinear_arith)
                    requires
                        self.side_len * self.side_len > 0,
                ;
                match slide_to(at, self.side_len, tiles.len(), *action) {
                    Some(to) => {
                        let tile = tiles[to];
                        tiles.set(at, tile);
                        tiles.set(to, 0);
                    },
                    None => {},
                }
            },
            None => {},
        }
        assert(tiles@ =~= slide(before, self.side_len as int, *action));
        GridState { inner: Cells::from_vec(&tiles), side_len: self.side_len }
    }
}

/// The four ways in which the gap may be asked to move.
pub open spec fn grid_actions() -> Seq<GridAction> {
    seq![GridAction::Up, GridAction::Down, GridAction::Right, GridAction::Left]
}

impl SearchState for GridState {
    /// The number that the cells spell to the base of the side, for a side up to
    /// four; no grid of a greater side has a key of its own.
    closed spec fn key_spec(&self) -> u64 {
        if self.side_len <= 4 {
            encode(self.inner.seq(), key_base(self.side_len as int)) as u64
        } else {
            0
        }
    }

    fn key(&self) -> (k: u64) {
        proof {
            use_type_invariant(self);
            lemma_key_ranges();
        }
        if self.side_len > 4 {
            return 0;
        }
        assert(self.side_len * self.side_len <= 9 || (self.side_len == 4 && self.side_len
            * self.side_len == 16)) by (nonlinear_arith)
            requires
                self.side_len <= 4,
        ;
        let tiles = self.to_tiles();
        if self.side_len <= 3 {
            spell(&tiles, 9)
        } else {
            spell(&tiles, 16)
        }
    }

    fn duplicate(&self) -> (twin: Self) {
        proof {
            use_type_invariant(self);
            self.inner.lemma_of_seq();
        }
        let tiles = self.to_tiles();
        GridState { inner: Cells::from_vec(&tiles), side_len: self.side_len }
    }

    fn same(&self, other: &Self) -> (yes: bool) {
        proof {
            self.inner.lemma_of_seq();
            other.inner.lemma_of_seq();
        }
        if self.side_len != other.side_len {
            return false;
        }
        let mine = self.to_tiles();
        let theirs = other.to_tiles();
        if mine.len() != theirs.len() {
            assert(self.inner.seq().len() != other.inner.seq().len());
            return false;
        }
        let mut at: usize = 0;
        while at < mine.len()
            invariant
                at <= mine.len() == theirs.len(),
                mine@ == self.inner.seq(),
                theirs@ == other.inner.seq(),
                forall|i: int| 0 <= i < at ==> mine[i] == theirs[i],
            decreases mine.len() - at,
        {
            if mine[at] != theirs[at] {
                assert(self.inner.seq()[at as int] != other.inner.seq()[at as int]);
                return false;
            }
            at += 1;
        }
        assert(mine@ =~= theirs@);
        true
    }
}

impl Clone for GridState {
    fn clone(&self) -> (twin: Self)
        ensures
            twin == *self,
    {
        self.duplicate()
    }
}

/// The actions of the sliding puzzle, as a capability of a problem.
pub struct GridActions;

/// The transitions of the sliding puzzle, as a capability of a problem.
pub struct GridTransition;

/// The goal test of the sliding puzzle, as a capability of a problem.
pub struct GridGoal;

impl StateActionsMap for GridActions {
    type State = GridState;

    type Action = GridAction;

    open spec fn actions_spec(&self, current: &GridState) -> Seq<GridAction> {
        grid_actions()
    }

    fn actions(&self, current: &GridState) -> (found: Vec<GridAction>) {
        current.actions()
    }
}

impl Transition for GridTransition {
    type State = GridState;

    type Action = GridAction;

    open spec fn transition_spec(&self, current: &GridState, action: &GridAction) -> GridState {
        current.moved(*action)
    }

    fn transition(&self, current: &GridState, action: &GridAction) -> (next: GridState) {
        current.transition(action)
    }
}

impl GoalTest for GridGoal {
    type State = GridState;

    open spec fn is_goal_spec(&self, s: &GridState) -> bool {
        solved(s.tiles())
    }

    fn is_goal(&self, s: &GridState) -> (yes: bool) {
        s.is_solved()
    }
}

pub type SquareLessOne = Problem<
    GridActions,
    GridTransition,
    GridGoal,
    UniformPathCost<GridState, GridAction, isize>,
>;

/// Grids of the right shape and of one side up to four that have the same key
/// are the same grid, and the key of a grid of a side up to three is under nine
/// to the ninth.
proof fn lemma_grid_keys(s: GridState, t: GridState)
    requires
        s.well_shaped(),
        t.well_shaped(),
        s.side_len == t.side_len,
        s.side_len <= 4,
    ensures
        s.key_spec() == t.key_spec() ==> s == t,
        s.side_len <= 3 ==> s.key_spec() < 387420489,
{
    let side = s.side_len as int;
    let base = key_base(side);
    assert(side * side <= 9 || (side == 4 && side * side == 16)) by (nonlinear_arith)
        requires
            0 <= side <= 4,
    ;
    lemma_key_ranges();
    lemma_encode_bound(s.inner.seq(), base);
    lemma_encode_bound(t.inner.seq(), base);
    if side <= 3 {
        lemma_power_grows(9, s.inner.seq().len(), 9);
    } else {
        lemma_power_grows(16, s.inner.seq().len(), 16);
    }
    if s.key_spec() == t.key_spec() {
        lemma_encode_tells_apart(s.inner.seq(), t.inner.seq(), base);
        s.inner.lemma_of_seq();
        t.inner.lemma_of_seq();
    }
}

/// Grids of the right shape, of side four and of one sum that have the same rank
/// are the same grid, and the rank is under sixteen to the fifteenth. The rank
/// of a grid is the number that its cells but the last spell.
proof fn lemma_grid_ranks(s: GridState, t: GridState)
    requires
        s.well_shaped(),
        t.well_shaped(),
        s.side_len == 4,
        t.side_len == 4,
        total(s.inner.seq()) == total(t.inner.seq()),
    ensures
        0 <= encode(s.inner.seq().drop_last(), 16) < 0x1000_0000_0000_0000,
        encode(s.inner.seq().drop_last(), 16) == encode(t.inner.seq().drop_last(), 16) ==> s
            == t,
{
    let mine = s.inner.seq();
    let theirs = t.inner.seq();
    lemma_key_ranges();
    lemma_encode_bound(mine.drop_last(), 16);
    lemma_encode_bound(theirs.drop_last(), 16);
    if encode(mine.drop_last(), 16) == encode(theirs.drop_last(), 16) {
        lemma_encode_tells_apart(mine.drop_last(), theirs.drop_last(), 16);
        assert(mine =~= mine.drop_last().push(mine.last()));
        assert(theirs =~= theirs.drop_last().push(theirs.last()));
        s.inner.lemma_of_seq();
        t.inner.lemma_of_seq();
    }
}

/// The sliding puzzle that starts from `initial_state`, every move at a cost of
/// one. For a side up to four its keys tell its states apart. The cost of its
/// routes can be held for a side up to three, and for a side of four where
/// `isize` holds sixteen to the fifteenth, which a word of 64 bits does: both
/// searches may be run on it then.
pub fn square_less_one_from(initial_state: GridState) -> (puzzle: SquareLessOne)
    ensures
        puzzle.initial_state == initial_state,
        puzzle.costs_nonnegative(),
        initial_state.side() <= 4 ==> puzzle.keys_tell_apart(),
        initial_state.side() <= 3 || (initial_state.side() == 4 && isize::MAX
            >= 0x1000_0000_0000_0000) ==> puzzle.costs_fit(),
{
    proof {
        use_type_invariant(&initial_state);
    }
    let ghost side = initial_state.side_len;
    let ghost start = initial_state;
    let puzzle = SquareLessOne {
        initial_state,
        actions: GridActions,
        transition_model: GridTransition,
        goal: GridGoal,
        path_cost: UniformPathCost(PhantomData),
    };
    proof {
        let holds = |s: GridState| s.well_shaped() && s.side_len == side;
        assert(holds(start));
        assert forall|s: GridState, a: GridAction|
            holds(s) && puzzle.actions.actions_spec(&s).contains(a) implies holds(
            #[trigger] puzzle.transition_model.transition_spec(&s, &a),
        ) by {
            s.lemma_moved(a);
        }
        if side <= 4 {
            assert forall|s: GridState, t: GridState|
                holds(s) && holds(t) && #[trigger] s.key_spec() == #[trigger] t.key_spec()
                implies s == t by {
                lemma_grid_keys(s, t);
            }
            puzzle.lemma_keys_tell_apart(holds);
        }
        if side <= 3 {
            assert forall|r: Seq<GridAction>| puzzle.is_route(r) implies (#[trigger] puzzle.run(
                r,
            )).key_spec() < 387420489 by {
                puzzle.lemma_reached_states(holds, r);
                lemma_grid_keys(puzzle.run(r), puzzle.run(r));
            }
            puzzle.lemma_costs_fit(387420489, 1);
        }
        if side == 4 && isize::MAX >= 0x1000_0000_0000_0000 {
            let sum = total(start.inner.seq());
            let level = |s: GridState| s.well_shaped() && s.side_len == 4 && total(s.inner.seq())
                == sum;
            let rank = |s: GridState| encode(s.inner.seq().drop_last(), 16);
            assert(level(start));
            assert forall|s: GridState, a: GridAction|
                level(s) && puzzle.actions.actions_spec(&s).contains(a) implies level(
                #[trigger] puzzle.transition_model.transition_spec(&s, &a),
            ) by {
                s.lemma_moved(a);
                lemma_slide_total(s.inner.seq(), 4, a);
            }
            assert forall|r: Seq<GridAction>| puzzle.is_route(r) implies 0 <= rank(
                #[trigger] puzzle.run(r),
            ) < 0x1000_0000_0000_0000 by {
                puzzle.lemma_reached_states(level, r);
                lemma_grid_ranks(puzzle.run(r), puzzle.run(r));
            }
            assert forall|r1: Seq<GridAction>, r2: Seq<GridAction>|
                #![trigger puzzle.run(r1), puzzle.run(r2)]
                puzzle.is_route(r1) && puzzle.is_route(r2) && rank(puzzle.run(r1)) == rank(
                    puzzle.run(r2),
                ) implies puzzle.run(r1).key_spec() == puzzle.run(r2).key_spec() by {
                puzzle.lemma_reached_states(level, r1);
                puzzle.lemma_reached_states(level, r2);
                lemma_grid_ranks(puzzle.run(r1), puzzle.run(r2));
            }
            puzzle.lemma_costs_fit_by_rank(rank, 0x1000_0000_0000_0000, 1);
        }
    }
    puzzle
}

/// The sliding puzzle of the given side, started from an order of the tiles that
/// is left to chance. Not every such order can be solved: from one that cannot,
/// a search returns nothing once it has seen every grid that can be reached.
pub fn square_less_one(size: usize) -> (puzzle: SquareLessOne)
    requires
        size * size <= usize::MAX,
    ensures
        puzzle.initial_state.side() == size,
        puzzle.initial_state.tiles().to_multiset() == Seq::new(
            (size * size) as nat,
            |i: int| i as usize,
        ).to_multiset(),
        puzzle.costs_nonnegative(),
        size <= 4 ==> puzzle.keys_tell_apart(),
        size <= 3 || (size == 4 && isize::MAX >= 0x1000_0000_0000_0000) ==> puzzle.costs_fit(),
{
    let mut initial_state = GridState::new(size);
    initial_state.shuffle();
    square_less_one_from(initial_state)
}

} // verus!
