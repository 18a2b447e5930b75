use vstd::prelude::*;
use rand::RngExt;

verus! {

/// One square of a board: untouched water, a missed shot, a ship
/// section, or a hit ship section.
#[derive(Copy, Clone, PartialEq, Eq, Structural, Debug)]
pub enum Cell {
    Empty,
    Tagged,
    Ship,
    Wreckage,
}

/// A coordinate pair lies on the 10x10 board.
pub open spec fn in_bounds(x: int, y: int) -> bool {
    0 <= x < 10 && 0 <= y < 10
}

/// A 10x10 board of cells, indexed by (x, y) with x selecting the row.
pub struct Grid(pub [[Cell; 10]; 10]);

impl Grid {
    /// The cell at (x, y), as the contracts see it.
    pub open spec fn spec_at(self, x: int, y: int) -> Cell {
        self.0@[x]@[y]
    }

    /// A board with every cell Empty.
    pub fn new_empty() -> (g: Grid)
        ensures
            forall|x: int, y: int| in_bounds(x, y) ==> (#[trigger] g.spec_at(x, y)) == Cell::Empty,
    {
        Grid([[Cell::Empty; 10]; 10])
    }

    /// Read one cell.
    pub fn at(&self, x: i32, y: i32) -> (c: Cell)
        requires
            in_bounds(x as int, y as int),
        ensures
            c == self.spec_at(x as int, y as int),
    {
        self.0[x as usize][y as usize]
    }

    /// Overwrite one cell; every other cell keeps its value.
    pub fn set(&mut self, x: i32, y: i32, cell: Cell)
        requires
            in_bounds(x as int, y as int),
        ensures
            forall|i: int, j: int|
                in_bounds(i, j) ==> (#[trigger] final(self).spec_at(i, j)) == (if i == x as int && j
                    == y as int {
                    cell
                } else {
                    old(self).spec_at(i, j)
                }),
    {
        self.0[x as usize][y as usize] = cell;
    }

    /// A board carrying a randomly placed fleet; see `random_grid`.
    pub fn new_random() -> (g: Grid)
        ensures
            exists|ships: Seq<Placement>, idx: Seq<int>|
                fleet_placed(g, ships) && ships.len() <= 6 && lengths_from_fleet(ships, idx),
    {
        random_grid()
    }
}

/// One ship's position: its origin cell, its length, and whether it runs
/// to the right (horizontal) or downward.
pub ghost struct Placement {
    pub x: int,
    pub y: int,
    pub length: int,
    pub horizontal: bool,
}

impl Placement {
    /// The footprint covers cell (i, j).
    pub open spec fn covers(self, i: int, j: int) -> bool {
        if self.horizontal {
            i == self.x && self.y <= j < self.y + self.length
        } else {
            j == self.y && self.x <= i < self.x + self.length
        }
    }

    /// The whole footprint lies on the board.
    pub open spec fn fits(self) -> bool {
        if self.horizontal {
            in_bounds(self.x, self.y) && self.y + self.length <= 10
        } else {
            in_bounds(self.x, self.y) && self.x + self.length <= 10
        }
    }

    /// (i, j) lies in the box one cell around the footprint: the footprint
    /// itself together with its halo of neighbouring cells.
    pub open spec fn in_halo(self, i: int, j: int) -> bool {
        if self.horizontal {
            self.x - 1 <= i <= self.x + 1 && self.y - 1 <= j <= self.y + self.length
        } else {
            self.x - 1 <= i <= self.x + self.length && self.y - 1 <= j <= self.y + 1
        }
    }
}

/// Every on-board cell the halo box reaches is still open water.
pub open spec fn halo_clear(g: Grid, p: Placement) -> bool {
    forall|i: int, j: int|
        in_bounds(i, j) && #[trigger] p.in_halo(i, j) ==> g.spec_at(i, j) == Cell::Empty
}

/// No cell of one footprint equals or touches, diagonals included, a cell
/// of the other.
pub open spec fn separated(p: Placement, q: Placement) -> bool {
    forall|i: int, j: int, a: int, b: int|
        #[trigger] p.covers(i, j) && #[trigger] q.covers(a, b) ==> !(-1 <= i - a <= 1 && -1 <= j
            - b <= 1)
}

/// The board is exactly the given ships on open water: Ship on each
/// footprint and Empty everywhere else, every ship on the board and no two
/// ships touching.
pub open spec fn fleet_placed(g: Grid, ships: Seq<Placement>) -> bool {
    &&& forall|k: int|
        0 <= k < ships.len() ==> (#[trigger] ships[k]).fits() && 1 <= ships[k].length
    &&& forall|k: int, l: int|
        0 <= k < l < ships.len() ==> separated(#[trigger] ships[k], #[trigger] ships[l])
    &&& forall|i: int, j: int|
        in_bounds(i, j) ==> ((#[trigger] g.spec_at(i, j)) == Cell::Ship <==> exists|k: int|
            0 <= k < ships.len() && (#[trigger] ships[k]).covers(i, j))
    &&& forall|i: int, j: int|
        in_bounds(i, j) ==> (#[trigger] g.spec_at(i, j)) == Cell::Ship || g.spec_at(i, j)
            == Cell::Empty
}

/// A footprint that fits on the board covers only on-board cells.
pub proof fn lemma_fits_covers_in_bounds(p: Placement, i: int, j: int)
    requires
        p.fits(),
        p.covers(i, j),
    ensures
        in_bounds(i, j),
{
}

/// A cell that equals or touches a covered cell lies in the halo box.
proof fn lemma_near_footprint_in_halo(p: Placement, i: int, j: int, a: int, b: int)
    requires
        p.covers(a, b),
        -1 <= i - a <= 1,
        -1 <= j - b <= 1,
    ensures
        p.in_halo(i, j),
{
}

/// On a board of separated ships, a cell of one ship never equals or
/// touches, diagonals included, a cell of a different ship.
pub proof fn lemma_fleet_ships_not_adjacent(
    g: Grid,
    ships: Seq<Placement>,
    k: int,
    l: int,
    i: int,
    j: int,
    a: int,
    b: int,
)
    requires
        fleet_placed(g, ships),
        0 <= k < ships.len(),
        0 <= l < ships.len(),
        k != l,
        ships[k].covers(i, j),
        ships[l].covers(a, b),
    ensures
        !(-1 <= i - a <= 1 && -1 <= j - b <= 1),
{
    if k < l {
        assert(separated(ships[k], ships[l]));
    } else {
        assert(separated(ships[l], ships[k]));
    }
}

/// A cell is free for a new ship if it lies off the board or is Empty.
pub fn is_free(g: &Grid, xy: (i32, i32)) -> (r: bool)
    ensures
        r == (in_bounds(xy.0 as int, xy.1 as int) ==> g.spec_at(xy.0 as int, xy.1 as int)
            == Cell::Empty),
{
    let (x, y) = xy;
    if x > 9 || y > 9 || x < 0 || y < 0 {
        return true;
    }
    if g.at(x, y) == Cell::Empty {
        return true;
    }
    false
}

/// A candidate run is valid when its far end stays on the board and every
/// on-board cell of its halo box is Empty.
pub fn is_valid_placement(g: &Grid, x: i32, y: i32, length: i32, horizontal: bool) -> (r: bool)
    requires
        in_bounds(x as int, y as int),
        1 <= length <= 10,
    ensures
        ({
            let p = (Placement {
                x: x as int,
                y: y as int,
                length: length as int,
                horizontal,
            });
            r == (p.fits() && halo_clear(*g, p))
        }),
{
    let ghost p = Placement { x: x as int, y: y as int, length: length as int, horizontal };
    let (left_x, top_y, right_x, bottom_y, end) = if horizontal {
        (x - 1, y - 1, x + 1, y + length, y + length)
    } else {
        (x - 1, y - 1, x + length, y + 1, x + length)
    };
    if end > 10 {
        return false;
    }
    let mut i = left_x;
    while i <= right_x
        invariant
            in_bounds(x as int, y as int),
            1 <= length <= 10,
            p == (Placement { x: x as int, y: y as int, length: length as int, horizontal }),
            p.fits(),
            left_x <= i <= right_x + 1,
            left_x == x - 1 && top_y == y - 1,
            if horizontal {
                right_x == x + 1 && bottom_y == y + length
            } else {
                right_x == x + length && bottom_y == y + 1
            },
            forall|a: int, b: int|
                left_x <= a < i && top_y <= b <= bottom_y && in_bounds(a, b)
                    ==> g.spec_at(a, b) == Cell::Empty,
        decreases right_x + 1 - i,
    {
        let mut j = top_y;
        while j <= bottom_y
            invariant
                in_bounds(x as int, y as int),
                1 <= length <= 10,
                p == (Placement { x: x as int, y: y as int, length: length as int, horizontal }),
                p.fits(),
                left_x <= i <= right_x,
                top_y <= j <= bottom_y + 1,
                left_x == x - 1 && top_y == y - 1,
                if horizontal {
                    right_x == x + 1 && bottom_y == y + length
                } else {
                    right_x == x + length && bottom_y == y + 1
                },
                forall|a: int, b: int|
                    left_x <= a < i && top_y <= b <= bottom_y && in_bounds(a, b)
                        ==> g.spec_at(a, b) == Cell::Empty,
                forall|b: int|
                    top_y <= b < j && in_bounds(i as int, b) ==> g.spec_at(i as int, b)
                        == Cell::Empty,
            decreases bottom_y + 1 - j,
        {
            if !is_free(g, (i, j)) {
                assert(in_bounds(i as int, j as int) && p.in_halo(i as int, j as int)
                    && g.spec_at(i as int, j as int) != Cell::Empty);
                return false;
            }
            j += 1;
        }
        i += 1;
    }
    assert forall|a: int, b: int| in_bounds(a, b) && #[trigger] p.in_halo(a, b)
        implies g.spec_at(a, b) == Cell::Empty by {
        assert(left_x <= a <= right_x && top_y <= b <= bottom_y);
    }
    true
}

/// Mark the run's footprint as Ship, provided the run is valid; an invalid
/// run leaves the board untouched.
pub fn place_ship(grid: &mut Grid, x: i32, y: i32, length: i32, horizontal: bool) -> (r: Result<
    (),
    &'static str,
>)
    requires
        in_bounds(x as int, y as int),
        1 <= length <= 10,
    ensures
        ({
            let p = (Placement {
                x: x as int,
                y: y as int,
                length: length as int,
                horizontal,
            });
            &&& (r is Ok) == (p.fits() && halo_clear(*old(grid), p))
            &&& r matches Err(e) ==> *final(grid) == *old(grid) && e@
                == "ship placement is incorrect"@
            &&& r is Ok ==> forall|i: int, j: int|
                in_bounds(i, j) ==> (#[trigger] final(grid).spec_at(i, j)) == (if p.covers(i, j) {
                    Cell::Ship
                } else {
                    old(grid).spec_at(i, j)
                })
        }),
{
    let ghost p = Placement { x: x as int, y: y as int, length: length as int, horizontal };
    if !is_valid_placement(grid, x, y, length, horizontal) {
        return Err("ship placement is incorrect");
    }
    let mut k: i32 = 0;
    while k < length
        invariant
            in_bounds(x as int, y as int),
            1 <= length <= 10,
            p.fits(),
            p == (Placement { x: x as int, y: y as int, length: length as int, horizontal }),
            0 <= k <= length,
            forall|i: int, j: int|
                in_bounds(i, j) ==> grid.spec_at(i, j) == (if p.covers(i, j) && (if horizontal {
                    j < y + k
                } else {
                    i < x + k
                }) {
                    Cell::Ship
                } else {
                    old(grid).spec_at(i, j)
                }),
        decreases length - k,
    {
        if horizontal {
            grid.set(x, y + k, Cell::Ship);
        } else {
            grid.set(x + k, y, Cell::Ship);
        }
        k += 1;
    }
    Ok(())
}

/// Declares rand::rngs::ThreadRng so a generator handle can pass through
/// verified code; nothing is assumed of its contents.
#[verifier::external_type_specification]
#[verifier::external_body]
pub struct ExThreadRng(rand::rngs::ThreadRng);

/// Relies on rand::rng: a handle to the thread-local random generator.
#[verifier::external_body]
fn fresh_rng() -> rand::rngs::ThreadRng {
    rand::rng()
}

/// Relies on rand::RngExt::random_range: the sample lies in the half-open
/// range it is given, which must not be empty.
#[verifier::external_body]
fn rng_range(rng: &mut rand::rngs::ThreadRng, lo: i32, hi: i32) -> (r: i32)
    requires
        lo < hi,
    ensures
        lo <= r < hi,
{
    rng.random_range(lo..hi)
}

/// Relies on rand::random: a bool drawn from the thread-local generator;
/// nothing is promised of its value.
#[verifier::external_body]
fn random_flag() -> (r: bool) {
    rand::random()
}

/// The k-th length of the fixed fleet 5, 4, 4, 3, 3, 3.
pub open spec fn fleet_len_spec(k: int) -> int {
    if k == 0 {
        5
    } else if k <= 2 {
        4
    } else {
        3
    }
}

/// The ships' lengths are drawn from the fixed fleet 5, 4, 4, 3, 3, 3:
/// `idx` picks, in increasing order, the fleet slot each ship filled, so
/// the run lengths form a sub-multiset of the fleet.
pub open spec fn lengths_from_fleet(ships: Seq<Placement>, idx: Seq<int>) -> bool {
    &&& idx.len() == ships.len()
    &&& forall|k: int| 0 <= k < idx.len() ==> 0 <= #[trigger] idx[k] < 6
    &&& forall|k: int, l: int| 0 <= k < l < idx.len() ==> #[trigger] idx[k] < #[trigger] idx[l]
    &&& forall|k: int|
        0 <= k < idx.len() ==> ships[k].length == fleet_len_spec(#[trigger] idx[k])
}

fn fleet_length(k: usize) -> (r: i32)
    requires
        k < 6,
    ensures
        r as int == fleet_len_spec(k as int),
        3 <= r <= 5,
{
    match k {
        0 => 5,
        1 => 4,
        2 => 4,
        _ => 3,
    }
}

/// Place the fixed fleet at random: for each ship length, up to 100
/// independent random trials of an origin and an orientation; a ship whose
/// trials are all rejected is skipped, so the fleet may be under-filled.
fn random_grid() -> (g: Grid)
    ensures
        exists|ships: Seq<Placement>, idx: Seq<int>|
            fleet_placed(g, ships) && ships.len() <= 6 && lengths_from_fleet(ships, idx),
{
    let mut grid = Grid::new_empty();
    let mut rng = fresh_rng();
    let ghost mut ships: Seq<Placement> = Seq::empty();
    let ghost mut idx: Seq<int> = Seq::empty();
    let mut s: usize = 0;
    while s < 6
        invariant
            s <= 6,
            fleet_placed(grid, ships),
            ships.len() <= s,
            lengths_from_fleet(ships, idx),
            forall|k: int| 0 <= k < idx.len() ==> #[trigger] idx[k] < s as int,
        decreases 6 - s,
    {
        let ship_length = fleet_length(s);
        let mut t: usize = 0;
        let mut placed = false;
        while t < 100 && !placed
            invariant
                fleet_placed(grid, ships),
                ships.len() <= s + 1,
                s < 6,
                3 <= ship_length <= 5,
                ship_length as int == fleet_len_spec(s as int),
                lengths_from_fleet(ships, idx),
                forall|k: int| 0 <= k < idx.len() ==> #[trigger] idx[k] <= s as int,
                !placed ==> ships.len() <= s && (forall|k: int|
                    0 <= k < idx.len() ==> #[trigger] idx[k] < s as int),
            decreases 100 - t,
        {
            let x = rng_range(&mut rng, 0, 10);
            let y = rng_range(&mut rng, 0, 10);
            let d = random_flag();
            let ghost before = grid;
            let ghost p = Placement {
                x: x as int,
                y: y as int,
                length: ship_length as int,
                horizontal: d,
            };
            if place_ship(&mut grid, x, y, ship_length, d).is_ok() {
                proof {
                    lemma_fleet_grows(before, grid, ships, p);
                    ships = ships.push(p);
                    idx = idx.push(s as int);
                }
                placed = true;
            }
            t += 1;
        }
        s += 1;
    }
    grid
}

/// Committing a valid run on a board that already carries a separated
/// fleet yields the board that carries that fleet plus the new ship.
proof fn lemma_fleet_grows(before: Grid, after: Grid, ships: Seq<Placement>, p: Placement)
    requires
        fleet_placed(before, ships),
        p.fits(),
        1 <= p.length,
        halo_clear(before, p),
        forall|i: int, j: int|
            in_bounds(i, j) ==> after.spec_at(i, j) == (if p.covers(i, j) {
                Cell::Ship
            } else {
                before.spec_at(i, j)
            }),
    ensures
        fleet_placed(after, ships.push(p)),
{
    let grown = ships.push(p);
    assert(grown[ships.len() as int] == p);
    assert(forall|k: int| 0 <= k < ships.len() ==> grown[k] == ships[k]);
    // the new ship touches no older one: any older cell near the new
    // footprint would sit in the new ship's halo, which was clear, yet an
    // older ship's cells are Ship on the old board.
    assert forall|k: int| 0 <= k < ships.len() implies separated(#[trigger] ships[k], p) by {
        assert forall|i: int, j: int, a: int, b: int|
            #[trigger] ships[k].covers(i, j) && #[trigger] p.covers(a, b) implies !(-1 <= i - a
            <= 1 && -1 <= j - b <= 1) by {
            if -1 <= i - a <= 1 && -1 <= j - b <= 1 {
                lemma_fits_covers_in_bounds(ships[k], i, j);
                lemma_near_footprint_in_halo(p, i, j, a, b);
                assert(before.spec_at(i, j) == Cell::Ship);
                assert(before.spec_at(i, j) == Cell::Empty);
            }
        }
    }
    assert forall|i: int, j: int| in_bounds(i, j) implies ((#[trigger] after.spec_at(i, j))
        == Cell::Ship <==> exists|k: int| 0 <= k < grown.len() && (#[trigger] grown[k]).covers(
        i,
        j,
    )) by {
        if p.covers(i, j) {
            assert(grown[ships.len() as int].covers(i, j));
        } else {
            if after.spec_at(i, j) == Cell::Ship {
                let k = choose|k: int| 0 <= k < ships.len() && (#[trigger] ships[k]).covers(i, j);
                assert(grown[k].covers(i, j));
            }
            if exists|k: int| 0 <= k < grown.len() && (#[trigger] grown[k]).covers(i, j) {
                let k = choose|k: int| 0 <= k < grown.len() && (#[trigger] grown[k]).covers(i, j);
                if k < ships.len() {
                    assert(ships[k].covers(i, j));
                    assert(before.spec_at(i, j) == Cell::Ship);
                }
            }
        }
    }
}

} // verus!
