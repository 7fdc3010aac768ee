//! Folding a sheet of transparent paper marked with dots.

use vstd::prelude::*;

verus! {

#[derive(Debug, PartialEq, Eq, Structural, Copy, Clone)]
pub enum Axis {
    X,
    Y,
}

#[derive(Debug, Hash, PartialEq, Eq, Structural, Copy, Clone)]
pub struct Coord {
    pub x: usize,
    pub y: usize,
}

impl Coord {
    pub fn new(x: usize, y: usize) -> (r: Coord)
        ensures
            r == (Coord { x, y }),
    {
        Coord { x, y }
    }
}

/// A fold along the line `axis == coord`.
#[derive(Debug, PartialEq, Eq, Structural, Copy, Clone)]
pub struct Move {
    pub axis: Axis,
    pub coord: usize,
}

impl Move {
    pub fn new(axis: Axis, coord: usize) -> (r: Move)
        ensures
            r == (Move { axis, coord }),
    {
        Move { axis, coord }
    }

    /// The dot lies on the side that the fold moves.
    pub open spec fn moves_dot(self, c: Coord) -> bool {
        match self.axis {
            Axis::X => c.x >= self.coord,
            Axis::Y => c.y >= self.coord,
        }
    }

    /// The fold keeps the dot on the sheet.
    pub open spec fn keeps_on_sheet(self, c: Coord) -> bool {
        match self.axis {
            Axis::X => c.x <= 2 * self.coord,
            Axis::Y => c.y <= 2 * self.coord,
        }
    }

    /// Where a dot ends up after the fold.
    pub open spec fn fold(self, c: Coord) -> Coord {
        if !self.moves_dot(c) {
            c
        } else {
            match self.axis {
                Axis::X => Coord { x: (2 * self.coord - c.x) as usize, y: c.y },
                Axis::Y => Coord { x: c.x, y: (2 * self.coord - c.y) as usize },
            }
        }
    }
}

/// The dots, each listed once, and the folds still to make, the next one last.
#[derive(Debug)]
pub struct Game {
    pub coords: Vec<Coord>,
    pub moves: Vec<Move>,
}

impl Game {
    pub fn new() -> (r: Game)
        ensures
            r.coords@ == Seq::<Coord>::empty(),
            r.moves@ == Seq::<Move>::empty(),
    {
        Game { coords: Vec::new(), moves: Vec::new() }
    }

    pub open spec fn wf(&self) -> bool {
        self.coords@.no_duplicates()
    }
}

/// The dots of a finished sheet, row by row.
#[derive(Debug)]
pub struct Board {
    pub contents: Vec<Vec<bool>>,
}

impl Board {
    pub fn from_contents(contents: Vec<Vec<bool>>) -> (r: Board)
        ensures
            r.contents@ == contents@,
    {
        Board { contents }
    }
}

/// A dot that a fold moves, with where it goes.
#[derive(Debug, Hash, PartialEq, Eq, Structural, Copy, Clone)]
pub struct UnmadeChange {
    pub old: Coord,
    pub new: Coord,
}

impl UnmadeChange {
    pub fn new(old: Coord, new: Coord) -> (r: UnmadeChange)
        ensures
            r == (UnmadeChange { old, new }),
    {
        UnmadeChange { old, new }
    }
}

/// The largest `x` and the largest `y` among the dots (zero where there are none).
pub fn find_biggest_x_and_y_coords(game: &Game) -> (r: Coord)
    ensures
        forall|k: int| 0 <= k < game.coords@.len() ==> (#[trigger] game.coords@[k]).x <= r.x && game.coords@[k].y <= r.y,
        r.x == 0 || exists|k: int| 0 <= k < game.coords@.len() && (#[trigger] game.coords@[k]).x == r.x,
        r.y == 0 || exists|k: int| 0 <= k < game.coords@.len() && (#[trigger] game.coords@[k]).y == r.y,
{
    let mut biggest_x: usize = 0;
    let mut biggest_y: usize = 0;
    let mut i: usize = 0;
    while i < game.coords.len()
        invariant
            i <= game.coords@.len(),
            forall|k: int| 0 <= k < i ==> (#[trigger] game.coords@[k]).x <= biggest_x && game.coords@[k].y <= biggest_y,
            biggest_x == 0 || exists|k: int| 0 <= k < i && (#[trigger] game.coords@[k]).x == biggest_x,
            biggest_y == 0 || exists|k: int| 0 <= k < i && (#[trigger] game.coords@[k]).y == biggest_y,
        decreases game.coords@.len() - i,
    {
        let c = game.coords[i];
        if c.x > biggest_x {
            biggest_x = c.x;
        }
        if c.y > biggest_y {
            biggest_y = c.y;
        }
        i += 1;
    }
    Coord::new(biggest_x, biggest_y)
}

/// Where a dot ends up after a fold.
fn fold_coord(next_move: Move, coord: Coord) -> (r: Coord)
    requires
        next_move.keeps_on_sheet(coord),
    ensures
        r == next_move.fold(coord),
{
    match next_move.axis {
        Axis::X => if coord.x >= next_move.coord {
            let distance_from_divider = coord.x - next_move.coord;
            Coord::new(next_move.coord - distance_from_divider, coord.y)
        } else {
            coord
        },
        Axis::Y => if coord.y >= next_move.coord {
            let distance_from_divider = coord.y - next_move.coord;
            Coord::new(coord.x, next_move.coord - distance_from_divider)
        } else {
            coord
        },
    }
}

/// Makes the next fold: each dot moves to its folded place, and dots that
/// land together become one.
pub fn make_move(game: &mut Game)
    requires
        old(game).wf(),
        old(game).moves@.len() > 0 ==> forall|k: int|
            0 <= k < old(game).coords@.len() ==> old(game).moves@.last().keeps_on_sheet(
                #[trigger] old(game).coords@[k],
            ),
    ensures
        final(game).wf(),
        old(game).moves@.len() == 0 ==> final(game).coords@ == old(game).coords@
            && final(game).moves@ == old(game).moves@,
        old(game).moves@.len() > 0 ==> {
            &&& final(game).moves@ == old(game).moves@.drop_last()
            &&& forall|p: Coord|
                #[trigger] final(game).coords@.contains(p) <==> exists|k: int|
                    0 <= k < old(game).coords@.len() && old(game).moves@.last().fold(
                        #[trigger] old(game).coords@[k],
                    ) == p
        },
{
    let next_move = match game.moves.pop() {
        None => return,
        Some(v) => v,
    };
    let ghost before = game.coords@;
    let mut folded: Vec<Coord> = Vec::new();
    let mut i: usize = 0;
    while i < game.coords.len()
        invariant
            game.coords@ == before,
            i <= before.len(),
            forall|k: int| 0 <= k < before.len() ==> next_move.keeps_on_sheet(#[trigger] before[k]),
            folded@.no_duplicates(),
            forall|p: Coord|
                #[trigger] folded@.contains(p) <==> exists|k: int|
                    0 <= k < i && next_move.fold(#[trigger] before[k]) == p,
        decreases before.len() - i,
    {
        let c = fold_coord(next_move, game.coords[i]);
        let mut present = false;
        let mut j: usize = 0;
        while j < folded.len()
            invariant
                j <= folded@.len(),
                present == exists|m: int| 0 <= m < j && folded@[m] == c,
            decreases folded@.len() - j,
        {
            if folded[j] == c {
                present = true;
            }
            j += 1;
        }
        let ghost f0 = folded@;
        if !present {
            folded.push(c);
        }
        proof {
            assert(before[i as int] == game.coords@[i as int]);
            assert forall|p: Coord|
                #[trigger] folded@.contains(p) <==> exists|k: int|
                    0 <= k < i + 1 && next_move.fold(#[trigger] before[k]) == p by {
                if folded@.contains(p) && p != c {
                    let m = choose|m: int| 0 <= m < folded@.len() && folded@[m] == p;
                    assert(f0.contains(p)) by {
                        assert(f0[m] == p);
                    }
                }
                if p == c {
                    if present {
                        let m = choose|m: int| 0 <= m < j && f0[m] == c;
                        assert(folded@.contains(p)) by {
                            assert(folded@[m] == p);
                        }
                    } else {
                        assert(folded@[f0.len() as int] == p);
                    }
                }
                if exists|k: int| 0 <= k < i + 1 && next_move.fold(#[trigger] before[k]) == p {
                    if p != c {
                        let k = choose|k: int| 0 <= k < i + 1 && next_move.fold(#[trigger] before[k]) == p;
                        assert(k < i);
                        assert(f0.contains(p));
                        let m = choose|m: int| 0 <= m < f0.len() && f0[m] == p;
                        assert(folded@[m] == p);
                    }
                }
            }
        }
        i += 1;
    }
    game.coords = folded;
}

} // verus!
