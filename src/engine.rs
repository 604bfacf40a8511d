use vstd::prelude::*;
use vstd::set_lib::{lemma_int_range, lemma_map_size, lemma_set_disjoint_lens, set_int_range};
use crate::direction::Direction;
use crate::game_status::GameStatus;
use crate::position::Position;
use crate::ship::Ship;
use crate::ship_status::ShipStatus;

verus! {

pub const MIN_DIMENSION: usize = 10;

pub const MAX_DIMENSION: usize = 26;

pub const DEFAULT_DIMENSION: usize = 10;

/// Symbol of a cell that holds no ship and has not been shot at.
pub const OPEN_CODE: char = '.';

/// Symbol of a cell that held no ship and has been shot at.
pub const MISS_CODE: char = '*';

/// Number of ships in the fleet.
pub const FLEET_LEN: usize = 5;

/// Random anchors tried for one ship before placement falls back to a fixed layout.
const PLACEMENT_ATTEMPTS: u32 = 100000;

/// The fleet catalog, in placement order.
pub open spec fn fleet_name(i: int) -> Seq<char> {
    if i == 0 {
        "Carrier"@
    } else if i == 1 {
        "Battleship"@
    } else if i == 2 {
        "Cruiser"@
    } else if i == 3 {
        "Submarine"@
    } else {
        "Destroyer"@
    }
}

pub open spec fn fleet_code(i: int) -> char {
    if i == 0 {
        'c'
    } else if i == 1 {
        'b'
    } else if i == 2 {
        'r'
    } else if i == 3 {
        's'
    } else {
        'd'
    }
}

/// The code a cell of ship `i` shows once it has been hit.
pub open spec fn fleet_hit_code(i: int) -> char {
    if i == 0 {
        'C'
    } else if i == 1 {
        'B'
    } else if i == 2 {
        'R'
    } else if i == 3 {
        'S'
    } else {
        'D'
    }
}

pub open spec fn fleet_size(i: int) -> nat {
    if i == 0 {
        5
    } else if i == 1 {
        4
    } else if i == 2 || i == 3 {
        3
    } else {
        2
    }
}

/// Total number of cells the fleet occupies.
pub open spec fn fleet_cells_total() -> nat {
    fleet_size(0) + fleet_size(1) + fleet_size(2) + fleet_size(3) + fleet_size(4)
}

/// A requested dimension, kept when it lies in the allowed range, else `default`.
pub open spec fn clamped(dimension: Option<usize>, default: usize) -> nat {
    match dimension {
        Some(d) => if MIN_DIMENSION <= d <= MAX_DIMENSION {
            d as nat
        } else {
            default as nat
        },
        None => default as nat,
    }
}

/// Whether `(r, c)` is one of the `len` cells of a run anchored at `(row, column)`,
/// extending rightward when `horizontal`, downward otherwise.
pub open spec fn in_run(row: int, column: int, horizontal: bool, len: int, r: int, c: int) -> bool {
    if horizontal {
        r == row && column <= c < column + len
    } else {
        c == column && row <= r < row + len
    }
}

/// The boundary rule of placement: the anchor lies on the board and the run
/// ends strictly before the last column (horizontal) or last row (vertical).
pub open spec fn run_fits(
    rows: int,
    columns: int,
    row: int,
    column: int,
    horizontal: bool,
    len: int,
) -> bool {
    &&& 0 <= row < rows
    &&& 0 <= column < columns
    &&& if horizontal {
        column + len < columns
    } else {
        row + len < rows
    }
}

/// A cell that has already been shot at: a miss, or a hit on some ship.
pub open spec fn resolved(ch: char) -> bool {
    ||| ch == MISS_CODE
    ||| ch == fleet_hit_code(0)
    ||| ch == fleet_hit_code(1)
    ||| ch == fleet_hit_code(2)
    ||| ch == fleet_hit_code(3)
    ||| ch == fleet_hit_code(4)
}

pub open spec fn is_ascii_lower(c: char) -> bool {
    'a' <= c <= 'z'
}

/// Relies on `char::to_ascii_uppercase`: 'a'..='z' map to 'A'..='Z', any
/// other character is returned as it is.
#[verifier::external_body]
fn ascii_upper(c: char) -> (r: char)
    ensures
        is_ascii_lower(c) ==> r as u32 == c as u32 - 32,
        !is_ascii_lower(c) ==> r == c,
{
    c.to_ascii_uppercase()
}

/// Relies on `rand::random::<bool>`: a fair coin from the thread-local generator.
#[verifier::external_body]
fn random_flag() -> (r: bool) {
    rand::random()
}

/// Relies on `rand::random_range` over `0..bound`: a value drawn from that range
/// by the thread-local generator; it panics on an empty range.
#[verifier::external_body]
fn random_below(bound: usize) -> (r: usize)
    requires
        bound > 0,
    ensures
        r < bound,
{
    rand::random_range(0..bound)
}


/// The engine's whole state: board dimensions, fleet catalog, the grid of cell
/// symbols, where each ship was placed, and the game statistics.
#[derive(Clone)]
pub struct BattleshipEngine {
    rows: usize,
    columns: usize,
    ships: Vec<Ship>,
    board: Vec<Vec<char>>,
    game_status: GameStatus,
    placements: Vec<(Position, Direction)>,
}

impl BattleshipEngine {
    pub closed spec fn spec_rows(&self) -> int {
        self.rows as int
    }

    pub closed spec fn spec_columns(&self) -> int {
        self.columns as int
    }

    /// Symbol of the cell at row `r`, column `c`.
    pub closed spec fn spec_cell(&self, r: int, c: int) -> char {
        self.board@[r]@[c]
    }

    /// Number of fleet ships placed so far.
    pub closed spec fn spec_placed(&self) -> int {
        self.placements@.len() as int
    }

    pub closed spec fn spec_anchor_row(&self, i: int) -> int {
        self.placements@[i].0.spec_row() as int
    }

    pub closed spec fn spec_anchor_column(&self, i: int) -> int {
        self.placements@[i].0.spec_column() as int
    }

    pub closed spec fn spec_horizontal(&self, i: int) -> bool {
        self.placements@[i].1 == Direction::Horizontal
    }

    pub closed spec fn spec_fleet(&self) -> Seq<Ship> {
        self.ships@
    }

    pub closed spec fn spec_status(&self) -> GameStatus {
        self.game_status
    }

    pub closed spec fn shape_ok(&self) -> bool {
        &&& self.board@.len() == self.rows
        &&& forall|r: int| 0 <= r < self.rows ==> (#[trigger] self.board@[r])@.len() == self.columns
    }

    pub open spec fn on_board(&self, r: int, c: int) -> bool {
        0 <= r < self.spec_rows() && 0 <= c < self.spec_columns()
    }

    /// Whether ship `i` occupies the cell at row `r`, column `c`.
    pub open spec fn covers(&self, i: int, r: int, c: int) -> bool {
        in_run(
            self.spec_anchor_row(i),
            self.spec_anchor_column(i),
            self.spec_horizontal(i),
            fleet_size(i) as int,
            r,
            c,
        )
    }

    /// The `t`-th cell of ship `i`, counted from its anchor.
    pub open spec fn ship_cell(&self, i: int, t: int) -> (int, int) {
        if self.spec_horizontal(i) {
            (self.spec_anchor_row(i), self.spec_anchor_column(i) + t)
        } else {
            (self.spec_anchor_row(i) + t, self.spec_anchor_column(i))
        }
    }

    /// How many of the first `n` cells of ship `i` have been hit.
    pub open spec fn hit_cells(&self, i: int, n: nat) -> nat
        decreases n,
    {
        if n == 0 {
            0
        } else {
            let (r, c) = self.ship_cell(i, n - 1);
            self.hit_cells(i, (n - 1) as nat) + if self.spec_cell(r, c) == fleet_hit_code(i) {
                1nat
            } else {
                0nat
            }
        }
    }

    pub open spec fn fleet_ok(&self) -> bool {
        &&& self.spec_fleet().len() == FLEET_LEN
        &&& forall|i: int|
            0 <= i < FLEET_LEN ==> {
                &&& (#[trigger] self.spec_fleet()[i]).spec_name() == fleet_name(i)
                &&& self.spec_fleet()[i].spec_code() == fleet_code(i)
                &&& self.spec_fleet()[i].spec_size() == fleet_size(i)
            }
    }

    /// The placed ships fit the board, do not overlap, and every cell holds the
    /// open or miss symbol, or the plain or hit code of the one ship covering it.
    pub open spec fn layout_ok(&self) -> bool {
        &&& MIN_DIMENSION <= self.spec_rows() <= MAX_DIMENSION
        &&& MIN_DIMENSION <= self.spec_columns() <= MAX_DIMENSION
        &&& self.shape_ok()
        &&& self.fleet_ok()
        &&& 0 <= self.spec_placed() <= FLEET_LEN
        &&& forall|i: int|
            0 <= i < self.spec_placed() ==> run_fits(
                self.spec_rows(),
                self.spec_columns(),
                #[trigger] self.spec_anchor_row(i),
                self.spec_anchor_column(i),
                self.spec_horizontal(i),
                fleet_size(i) as int,
            )
        &&& forall|i: int, j: int, r: int, c: int|
            0 <= i < self.spec_placed() && 0 <= j < self.spec_placed() && i != j
                && #[trigger] self.covers(i, r, c) ==> !#[trigger] self.covers(j, r, c)
        &&& forall|i: int, r: int, c: int|
            0 <= i < self.spec_placed() && #[trigger] self.covers(i, r, c) ==> {
                ||| self.spec_cell(r, c) == fleet_code(i)
                ||| self.spec_cell(r, c) == fleet_hit_code(i)
            }
        &&& forall|r: int, c: int|
            self.on_board(r, c) && #[trigger] self.spec_cell(r, c) != OPEN_CODE
                && self.spec_cell(r, c) != MISS_CODE ==> exists|i: int|
                0 <= i < self.spec_placed() && #[trigger] self.covers(i, r, c)
    }

    /// No shot has been taken: no miss symbol, and every ship cell is unhit.
    pub open spec fn fresh(&self) -> bool {
        &&& forall|r: int, c: int| self.on_board(r, c) ==> #[trigger] self.spec_cell(r, c) != MISS_CODE
        &&& forall|i: int, r: int, c: int|
            0 <= i < self.spec_placed() && #[trigger] self.covers(i, r, c) ==> self.spec_cell(r, c)
                == fleet_code(i)
    }

    /// One status per fleet ship, each counting exactly the hit cells of its ship.
    pub open spec fn statuses_ok(&self) -> bool {
        &&& self.spec_status().wf()
        &&& self.spec_status().spec_statuses().len() == FLEET_LEN
        &&& forall|i: int|
            0 <= i < FLEET_LEN ==> {
                &&& (#[trigger] self.spec_status().spec_statuses()[i]).spec_name() == fleet_name(i)
                &&& self.spec_status().spec_statuses()[i].spec_code() == fleet_code(i)
                &&& self.spec_status().spec_statuses()[i].spec_size() == fleet_size(i)
                &&& self.spec_status().spec_statuses()[i].spec_hits() == self.hit_cells(
                    i,
                    fleet_size(i),
                )
            }
    }

    /// No cell of the board has been shot at.
    pub open spec fn untouched(&self) -> bool {
        forall|r: int, c: int| self.on_board(r, c) ==> !resolved(#[trigger] self.spec_cell(r, c))
    }

    /// A complete game state: the whole fleet placed and statistics in step with
    /// the board; misses are only counted once some cell has been shot at, and
    /// every miss symbol on the board is counted as a miss.
    pub open spec fn wf(&self) -> bool {
        &&& self.layout_ok()
        &&& self.spec_placed() == FLEET_LEN
        &&& self.statuses_ok()
        &&& (self.untouched() ==> self.spec_status().spec_misses() == 0)
        &&& self.miss_cells() <= self.spec_status().spec_misses()
    }

    fn clamp_dimension(dimension: Option<usize>, default: usize) -> (r: usize)
        ensures
            r == clamped(dimension, default),
    {
        if let Some(dimension) = dimension {
            if dimension <= MAX_DIMENSION && dimension >= MIN_DIMENSION {
                dimension
            } else {
                default
            }
        } else {
            default
        }
    }

    /// The fleet catalog, in placement order.
    pub fn ships() -> (r: Vec<Ship>)
        ensures
            r@.len() == FLEET_LEN,
            forall|i: int|
                0 <= i < FLEET_LEN ==> {
                    &&& (#[trigger] r@[i]).spec_name() == fleet_name(i)
                    &&& r@[i].spec_code() == fleet_code(i)
                    &&& r@[i].spec_size() == fleet_size(i)
                },
    {
        let r = vec![
            Ship::new("Carrier".to_string(), 'c', 5),
            Ship::new("Battleship".to_string(), 'b', 4),
            Ship::new("Cruiser".to_string(), 'r', 3),
            Ship::new("Submarine".to_string(), 's', 3),
            Ship::new("Destroyer".to_string(), 'd', 2),
        ];
        r
    }

    fn create_empty_board(rows: usize, columns: usize) -> (r: Vec<Vec<char>>)
        ensures
            r@.len() == rows,
            forall|i: int| 0 <= i < rows ==> (#[trigger] r@[i])@.len() == columns,
            forall|i: int, j: int| 0 <= i < rows && 0 <= j < columns ==> r@[i]@[j] == OPEN_CODE,
    {
        let mut board: Vec<Vec<char>> = Vec::new();
        let mut i: usize = 0;
        while i < rows
            invariant
                i <= rows,
                board@.len() == i,
                forall|k: int| 0 <= k < i ==> (#[trigger] board@[k])@.len() == columns,
                forall|k: int, j: int| 0 <= k < i && 0 <= j < columns ==> board@[k]@[j] == OPEN_CODE,
            decreases rows - i,
        {
            let mut row: Vec<char> = Vec::new();
            let mut j: usize = 0;
            while j < columns
                invariant
                    j <= columns,
                    row@.len() == j,
                    forall|k: int| 0 <= k < j ==> row@[k] == OPEN_CODE,
                decreases columns - j,
            {
                row.push(OPEN_CODE);
                j = j + 1;
            }
            board.push(row);
            i = i + 1;
        }
        board
    }

    fn is_position_on_board(&self, position: &Position) -> (r: bool)
        ensures
            r == self.on_board(position.spec_row() as int, position.spec_column() as int),
    {
        position.row() < self.rows && position.column() < self.columns
    }

    fn code_at(&self, position: &Position) -> (r: Option<char>)
        requires
            self.shape_ok(),
        ensures
            r is Some == self.on_board(position.spec_row() as int, position.spec_column() as int),
            r matches Some(ch) ==> ch == self.spec_cell(
                position.spec_row() as int,
                position.spec_column() as int,
            ),
    {
        if self.is_position_on_board(position) {
            Some(self.board[position.row()][position.column()])
        } else {
            None
        }
    }

    fn is_cell_free(&self, position: &Position) -> (r: bool)
        requires
            self.shape_ok(),
        ensures
            r == (self.on_board(position.spec_row() as int, position.spec_column() as int)
                && self.spec_cell(position.spec_row() as int, position.spec_column() as int)
                == OPEN_CODE),
    {
        match self.code_at(position) {
            Some(code) => code == OPEN_CODE,
            None => false,
        }
    }

    fn set_code_at(&mut self, position: &Position, code: char)
        requires
            old(self).shape_ok(),
        ensures
            final(self).shape_ok(),
            final(self).rows == old(self).rows,
            final(self).columns == old(self).columns,
            final(self).ships == old(self).ships,
            final(self).game_status == old(self).game_status,
            final(self).placements == old(self).placements,
            forall|r: int, c: int|
                #![trigger final(self).spec_cell(r, c)]
                final(self).on_board(r, c) ==> final(self).spec_cell(r, c) == if r
                    == position.spec_row() && c == position.spec_column() {
                    code
                } else {
                    old(self).spec_cell(r, c)
                },
    {
        if self.is_position_on_board(position) {
            let row = position.row();
            let column = position.column();
            self.board[row].set(column, code);
        }
    }

    /// Every cell of the run lies on the board and is open.
    pub open spec fn run_open(&self, row: int, column: int, horizontal: bool, len: int) -> bool {
        forall|r: int, c: int|
            #[trigger] in_run(row, column, horizontal, len, r, c) ==> self.on_board(r, c)
                && self.spec_cell(r, c) == OPEN_CODE
    }

    /// The run ends strictly before the last column (horizontal) or row (vertical).
    pub open spec fn run_within(&self, row: int, column: int, horizontal: bool, len: int) -> bool {
        if horizontal {
            column + len < self.spec_columns()
        } else {
            row + len < self.spec_rows()
        }
    }

    /// Whether `ship` can be placed at `position` in `direction`: the boundary
    /// rule holds and every cell it would occupy is open.
    fn ship_will_fit(&self, ship: &Ship, position: &Position, direction: &Direction) -> (r: bool)
        requires
            self.shape_ok(),
        ensures
            r == (self.run_within(
                position.spec_row() as int,
                position.spec_column() as int,
                *direction == Direction::Horizontal,
                ship.spec_size() as int,
            ) && self.run_open(
                position.spec_row() as int,
                position.spec_column() as int,
                *direction == Direction::Horizontal,
                ship.spec_size() as int,
            )),
    {
        let row = position.row();
        let column = position.column();
        let size = ship.size();
        let horizontal = *direction == Direction::Horizontal;
        if horizontal {
            if size >= self.columns || column >= self.columns - size {
                return false;
            }
        } else {
            if size >= self.rows || row >= self.rows - size {
                return false;
            }
        }
        let mut t: usize = 0;
        while t < size
            invariant
                self.shape_ok(),
                t <= size,
                size == ship.spec_size(),
                row == position.spec_row(),
                column == position.spec_column(),
                horizontal == (*direction == Direction::Horizontal),
                horizontal ==> column + size < self.columns,
                !horizontal ==> row + size < self.rows,
                forall|r: int, c: int|
                    #[trigger] in_run(row as int, column as int, horizontal, t as int, r, c)
                        ==> self.on_board(r, c) && self.spec_cell(r, c) == OPEN_CODE,
            decreases size - t,
        {
            let cell = if horizontal {
                Position::new(row, column + t)
            } else {
                Position::new(row + t, column)
            };
            if !self.is_cell_free(&cell) {
                assert(in_run(
                    row as int,
                    column as int,
                    horizontal,
                    size as int,
                    cell.spec_row() as int,
                    cell.spec_column() as int,
                ));
                assert(!(self.on_board(cell.spec_row() as int, cell.spec_column() as int)
                    && self.spec_cell(cell.spec_row() as int, cell.spec_column() as int) == OPEN_CODE));
                return false;
            }
            let ghost t0 = t as int;
            t = t + 1;
            assert forall|r: int, c: int|
                #[trigger] in_run(row as int, column as int, horizontal, t as int, r, c) implies self.on_board(r, c)
                && self.spec_cell(r, c) == OPEN_CODE by {
                if !in_run(row as int, column as int, horizontal, t0, r, c) {
                    assert(r == cell.spec_row() && c == cell.spec_column());
                }
            }
        }
        true
    }

    /// Writes the code of `ship` into each cell of its run that lies on the
    /// board; cells of the run past the board are skipped.
    fn place_ship(&mut self, ship: &Ship, position: &Position, direction: &Direction)
        requires
            old(self).shape_ok(),
        ensures
            final(self).shape_ok(),
            final(self).rows == old(self).rows,
            final(self).columns == old(self).columns,
            final(self).ships == old(self).ships,
            final(self).game_status == old(self).game_status,
            final(self).placements == old(self).placements,
            forall|r: int, c: int|
                #![trigger final(self).spec_cell(r, c)]
                final(self).on_board(r, c) ==> final(self).spec_cell(r, c) == if in_run(
                    position.spec_row() as int,
                    position.spec_column() as int,
                    *direction == Direction::Horizontal,
                    ship.spec_size() as int,
                    r,
                    c,
                ) {
                    ship.spec_code()
                } else {
                    old(self).spec_cell(r, c)
                },
    {
        let row = position.row();
        let column = position.column();
        let size = ship.size();
        let code = ship.code();
        let horizontal = *direction == Direction::Horizontal;
        let mut t: usize = 0;
        while t < size
            invariant
                self.shape_ok(),
                t <= size,
                size == ship.spec_size(),
                code == ship.spec_code(),
                row == position.spec_row(),
                column == position.spec_column(),
                horizontal == (*direction == Direction::Horizontal),
                self.rows == old(self).rows,
                self.columns == old(self).columns,
                self.ships == old(self).ships,
                self.game_status == old(self).game_status,
                self.placements == old(self).placements,
                forall|r: int, c: int|
                    #![trigger self.spec_cell(r, c)]
                    self.on_board(r, c) ==> self.spec_cell(r, c) == if in_run(
                        row as int,
                        column as int,
                        horizontal,
                        t as int,
                        r,
                        c,
                    ) {
                        code
                    } else {
                        old(self).spec_cell(r, c)
                    },
            decreases size - t,
        {
            let on_board = if horizontal {
                row < self.rows && column < self.columns && t < self.columns - column
            } else {
                column < self.columns && row < self.rows && t < self.rows - row
            };
            if on_board {
                let cell = if horizontal {
                    Position::new(row, column + t)
                } else {
                    Position::new(row + t, column)
                };
                self.set_code_at(&cell, code);
            }
            t = t + 1;
        }
    }

    /// On a board where no shot has been taken, a cell is open exactly when no
    /// placed ship covers it.
    proof fn lemma_open_iff_uncovered(&self, r: int, c: int)
        requires
            self.layout_ok(),
            self.fresh(),
            self.on_board(r, c),
        ensures
            self.spec_cell(r, c) == OPEN_CODE <==> !(exists|i: int|
                0 <= i < self.spec_placed() && #[trigger] self.covers(i, r, c)),
    {
        if exists|i: int| 0 <= i < self.spec_placed() && #[trigger] self.covers(i, r, c) {
            let i = choose|i: int| 0 <= i < self.spec_placed() && #[trigger] self.covers(i, r, c);
            assert(self.spec_cell(r, c) == fleet_code(i));
        }
    }

    /// Whether the next ship of the fleet, anchored at `(row, column)`, obeys the
    /// boundary rule and avoids every ship placed before it.
    pub open spec fn next_fits(&self, row: int, column: int, horizontal: bool) -> bool {
        let k = self.spec_placed();
        &&& run_fits(
            self.spec_rows(),
            self.spec_columns(),
            row,
            column,
            horizontal,
            fleet_size(k) as int,
        )
        &&& forall|i: int, r: int, c: int|
            0 <= i < k && #[trigger] self.covers(i, r, c) ==> !in_run(
                row,
                column,
                horizontal,
                fleet_size(k) as int,
                r,
                c,
            )
    }

    /// Places the next ship of the fleet at `(row, column)` in `direction` when it
    /// fits there; otherwise leaves the engine as it is.
    fn try_place_ship(&mut self, row: usize, column: usize, direction: Direction) -> (r: bool)
        requires
            old(self).layout_ok(),
            old(self).fresh(),
            old(self).spec_placed() < FLEET_LEN,
        ensures
            final(self).layout_ok(),
            final(self).fresh(),
            final(self).rows == old(self).rows,
            final(self).columns == old(self).columns,
            final(self).ships == old(self).ships,
            final(self).game_status == old(self).game_status,
            r == old(self).next_fits(row as int, column as int, direction == Direction::Horizontal),
            r ==> {
                &&& final(self).spec_placed() == old(self).spec_placed() + 1
                &&& final(self).placements@.subrange(0, old(self).spec_placed()) == old(self).placements@
                &&& final(self).spec_anchor_row(old(self).spec_placed()) == row
                &&& final(self).spec_anchor_column(old(self).spec_placed()) == column
                &&& final(self).spec_horizontal(old(self).spec_placed()) == (direction
                    == Direction::Horizontal)
            },
            !r ==> *final(self) == *old(self),
    {
        let k = self.placements.len();
        let ship = self.ships[k].duplicate();
        let position = Position::new(row, column);
        let ghost h = direction == Direction::Horizontal;
        let ghost size = fleet_size(k as int) as int;
        let ghost pre = *self;
        assert(self.spec_fleet()[k as int] == ship);
        let fits = self.ship_will_fit(&ship, &position, &direction);
        proof {
            if fits {
                assert(in_run(row as int, column as int, h, size, row as int, column as int));
                assert forall|i: int, r: int, c: int|
                    0 <= i < k && #[trigger] self.covers(i, r, c) implies !in_run(
                    row as int,
                    column as int,
                    h,
                    size,
                    r,
                    c,
                ) by {
                    if in_run(row as int, column as int, h, size, r, c) {
                        self.lemma_open_iff_uncovered(r, c);
                    }
                }
            }
            if self.next_fits(row as int, column as int, h) {
                assert forall|r: int, c: int|
                    #[trigger] in_run(row as int, column as int, h, size, r, c) implies self.on_board(r, c)
                    && self.spec_cell(r, c) == OPEN_CODE by {
                    self.lemma_open_iff_uncovered(r, c);
                }
            }
        }
        if fits {
            self.place_ship(&ship, &position, &direction);
            let ghost mid = *self;
            self.placements.push((position, direction));
            proof {
                assert(self.placements@[k as int] == (position, direction));
                assert forall|r: int, c: int|
                    self.on_board(r, c) implies #[trigger] self.spec_cell(r, c) == if in_run(
                        row as int,
                        column as int,
                        h,
                        size,
                        r,
                        c,
                    ) {
                        fleet_code(k as int)
                    } else {
                        pre.spec_cell(r, c)
                    } by {
                    assert(mid.spec_cell(r, c) == self.spec_cell(r, c));
                }
                assert forall|i: int| 0 <= i < k implies #[trigger] self.placements@[i] == pre.placements@[i] by {}
                assert(self.placements@.subrange(0, k as int) =~= pre.placements@);
                assert forall|i: int, r: int, c: int|
                    0 <= i < k implies #[trigger] self.covers(i, r, c) == pre.covers(i, r, c) by {
                    assert(self.placements@[i] == pre.placements@[i]);
                }
                assert forall|r: int, c: int|
                    #![trigger self.covers(k as int, r, c)]
                    self.covers(k as int, r, c) == in_run(row as int, column as int, h, size, r, c) by {}
                assert forall|i: int, r: int, c: int|
                    0 <= i < k + 1 && #[trigger] self.covers(i, r, c) implies self.on_board(r, c)
                    && self.spec_cell(r, c) == fleet_code(i) by {
                    if i < k {
                        assert(pre.covers(i, r, c));
                        assert(!in_run(row as int, column as int, h, size, r, c));
                    }
                }
                assert forall|r: int, c: int|
                    self.on_board(r, c) && #[trigger] self.spec_cell(r, c) != OPEN_CODE
                        && self.spec_cell(r, c) != MISS_CODE implies exists|i: int|
                    0 <= i < self.spec_placed() && #[trigger] self.covers(i, r, c) by {
                    if in_run(row as int, column as int, h, size, r, c) {
                        assert(self.covers(k as int, r, c));
                    } else {
                        assert(pre.spec_cell(r, c) == self.spec_cell(r, c));
                        let i = choose|i: int| 0 <= i < pre.spec_placed() && #[trigger] pre.covers(i, r, c);
                        assert(self.covers(i, r, c));
                    }
                }
                assert forall|i: int, j: int, r: int, c: int|
                    0 <= i < self.spec_placed() && 0 <= j < self.spec_placed() && i != j
                        && #[trigger] self.covers(i, r, c) implies !#[trigger] self.covers(j, r, c) by {
                    if i < k && j < k {
                        assert(pre.covers(i, r, c));
                    } else if i < k {
                        assert(pre.covers(i, r, c));
                    } else if j < k {
                        if self.covers(j, r, c) {
                            assert(pre.covers(j, r, c));
                        }
                    }
                }
                assert forall|i: int|
                    0 <= i < self.spec_placed() implies run_fits(
                    self.spec_rows(),
                    self.spec_columns(),
                    #[trigger] self.spec_anchor_row(i),
                    self.spec_anchor_column(i),
                    self.spec_horizontal(i),
                    fleet_size(i) as int,
                ) by {
                    if i < k {
                        assert(self.placements@[i] == pre.placements@[i]);
                        assert(pre.spec_anchor_row(i) == self.spec_anchor_row(i));
                    } else {
                        assert(pre.next_fits(row as int, column as int, h));
                        assert(i == k);
                        assert(self.spec_anchor_row(i) == row);
                        assert(self.spec_anchor_column(i) == column);
                        assert(self.spec_horizontal(i) == h);
                    }
                }
                assert forall|r: int, c: int| self.on_board(r, c) implies #[trigger] self.spec_cell(r, c) != MISS_CODE by {
                    if !in_run(row as int, column as int, h, size, r, c) {
                        assert(pre.spec_cell(r, c) == self.spec_cell(r, c));
                    }
                }
            }
            true
        } else {
            false
        }
    }

    /// Tries random orientations and anchors for the next ship until one fits,
    /// for at most a fixed number of attempts.
    fn place_at_random(&mut self) -> (r: bool)
        requires
            old(self).layout_ok(),
            old(self).fresh(),
            old(self).spec_placed() < FLEET_LEN,
        ensures
            final(self).layout_ok(),
            final(self).fresh(),
            final(self).rows == old(self).rows,
            final(self).columns == old(self).columns,
            final(self).ships == old(self).ships,
            final(self).game_status == old(self).game_status,
            r ==> final(self).spec_placed() == old(self).spec_placed() + 1,
            !r ==> final(self).spec_placed() == old(self).spec_placed(),
    {
        let mut attempts: u32 = 0;
        while attempts < PLACEMENT_ATTEMPTS
            invariant
                *self == *old(self),
                self.layout_ok(),
                self.fresh(),
                self.spec_placed() < FLEET_LEN,
            decreases PLACEMENT_ATTEMPTS - attempts,
        {
            let direction = if random_flag() {
                Direction::Horizontal
            } else {
                Direction::Vertical
            };
            let row = random_below(self.rows);
            let column = random_below(self.columns);
            if self.try_place_ship(row, column, direction) {
                return true;
            }
            attempts = attempts + 1;
        }
        false
    }

    /// Places every ship of the fleet at random. Should the random search give up
    /// on a ship, the board is cleared and the fleet is laid out horizontally from
    /// the first column, one ship on every second row.
    #[verifier::spinoff_prover]
    fn init_board(&mut self)
        requires
            old(self).layout_ok(),
            old(self).fresh(),
            old(self).spec_placed() == 0,
        ensures
            final(self).layout_ok(),
            final(self).fresh(),
            final(self).spec_placed() == FLEET_LEN,
            final(self).rows == old(self).rows,
            final(self).columns == old(self).columns,
            final(self).ships == old(self).ships,
            final(self).game_status == old(self).game_status,
    {
        let mut complete = true;
        while self.placements.len() < FLEET_LEN && complete
            invariant
                self.layout_ok(),
                self.fresh(),
                self.rows == old(self).rows,
                self.columns == old(self).columns,
                self.ships == old(self).ships,
                self.game_status == old(self).game_status,
            decreases (FLEET_LEN - self.spec_placed()) * 2 + if complete {
                1int
            } else {
                0int
            },
        {
            if !self.place_at_random() {
                complete = false;
            }
        }
        if self.placements.len() < FLEET_LEN {
            self.board = Self::create_empty_board(self.rows, self.columns);
            self.placements = Vec::new();
            let mut k: usize = 0;
            while k < FLEET_LEN
                invariant
                    self.layout_ok(),
                    self.fresh(),
                    k <= FLEET_LEN,
                    self.spec_placed() == k,
                    forall|i: int|
                        0 <= i < k ==> #[trigger] self.spec_anchor_row(i) == 2 * i
                            && self.spec_horizontal(i),
                    self.rows == old(self).rows,
                    self.columns == old(self).columns,
                    self.ships == old(self).ships,
                    self.game_status == old(self).game_status,
                decreases FLEET_LEN - k,
            {
                proof {
                    assert forall|i: int, r: int, c: int|
                        0 <= i < k && #[trigger] self.covers(i, r, c) implies !in_run(
                        2 * k,
                        0,
                        true,
                        fleet_size(k as int) as int,
                        r,
                        c,
                    ) by {
                        assert(self.spec_anchor_row(i) == 2 * i);
                    }
                }
                let ghost pre = *self;
                let placed = self.try_place_ship(2 * k, 0, Direction::Horizontal);
                assert(placed);
                assert forall|i: int|
                    0 <= i < k + 1 implies #[trigger] self.spec_anchor_row(i) == 2 * i
                    && self.spec_horizontal(i) by {
                    if i < k {
                        assert(pre.spec_anchor_row(i) == 2 * i);
                        assert(self.placements@.subrange(0, k as int)[i] == self.placements@[i]);
                        assert(pre.placements@[i] == self.placements@[i]);
                    } else {
                        assert(i == k);
                    }
                }
                k = k + 1;
            }
        }
    }

    /// A new game on a board of `rows` by `columns`, each kept when it lies in
    /// `MIN_DIMENSION..=MAX_DIMENSION`; rows default to `DEFAULT_DIMENSION` and
    /// columns to the resolved rows. The fleet is placed at random.
    pub fn new(rows: Option<usize>, columns: Option<usize>) -> (r: BattleshipEngine)
        ensures
            r.wf(),
            r.fresh(),
            r.spec_rows() == clamped(rows, DEFAULT_DIMENSION),
            r.spec_columns() == clamped(columns, clamped(rows, DEFAULT_DIMENSION) as usize),
            r.spec_status().spec_shots() == 0,
            r.spec_status().spec_hits() == 0,
            r.spec_status().spec_misses() == 0,
    {
        let mut engine = Self::blank(rows, columns);
        engine.init_board();
        proof {
            engine.lemma_fresh_statuses();
        }
        engine
    }

    /// An engine with the board resolved from `rows` and `columns`, every cell
    /// open, no ship placed yet and statistics at zero.
    fn blank(rows: Option<usize>, columns: Option<usize>) -> (r: BattleshipEngine)
        ensures
            r.layout_ok(),
            r.fresh(),
            r.spec_placed() == 0,
            r.spec_rows() == clamped(rows, DEFAULT_DIMENSION),
            r.spec_columns() == clamped(columns, clamped(rows, DEFAULT_DIMENSION) as usize),
            r.spec_status().spec_shots() == 0,
            r.spec_status().spec_hits() == 0,
            r.spec_status().spec_misses() == 0,
            r.spec_status().wf(),
            r.spec_status().spec_statuses().len() == FLEET_LEN,
            forall|i: int|
                0 <= i < FLEET_LEN ==> {
                    &&& (#[trigger] r.spec_status().spec_statuses()[i]).spec_name() == fleet_name(i)
                    &&& r.spec_status().spec_statuses()[i].spec_code() == fleet_code(i)
                    &&& r.spec_status().spec_statuses()[i].spec_size() == fleet_size(i)
                    &&& r.spec_status().spec_statuses()[i].spec_hits() == 0
                },
    {
        let rows: usize = Self::clamp_dimension(rows, DEFAULT_DIMENSION);
        let columns: usize = Self::clamp_dimension(columns, rows);
        let ships = Self::ships();
        let game_status = GameStatus::new(ships.as_slice());
        assert forall|i: int| 0 <= i < FLEET_LEN implies {
            &&& (#[trigger] game_status.spec_statuses()[i]).spec_name() == fleet_name(i)
            &&& game_status.spec_statuses()[i].spec_code() == fleet_code(i)
            &&& game_status.spec_statuses()[i].spec_size() == fleet_size(i)
            &&& game_status.spec_statuses()[i].spec_hits() == 0
        } by {
            assert(ships@[i].spec_name() == fleet_name(i));
        }
        let engine = BattleshipEngine {
            rows,
            columns,
            ships,
            board: Self::create_empty_board(rows, columns),
            game_status,
            placements: Vec::new(),
        };
        assert(forall|i: int| 0 <= i < FLEET_LEN ==> #[trigger] engine.spec_fleet()[i] == engine.ships@[i]);
        engine
    }

    /// No cell of ship `i` shows a hit on a board where no shot has been taken.
    proof fn lemma_no_hits(&self, i: int, n: nat)
        requires
            self.layout_ok(),
            self.fresh(),
            0 <= i < self.spec_placed(),
            n <= fleet_size(i),
        ensures
            self.hit_cells(i, n) == 0,
        decreases n,
    {
        if n > 0 {
            self.lemma_no_hits(i, (n - 1) as nat);
            let (r, c) = self.ship_cell(i, n - 1);
            assert(self.covers(i, r, c));
        }
    }

    /// Statuses that count no hit are in step with a board where no shot has been taken.
    proof fn lemma_fresh_statuses(&self)
        requires
            self.layout_ok(),
            self.fresh(),
            self.spec_placed() == FLEET_LEN,
            self.spec_status().spec_misses() == 0,
            self.spec_status().wf(),
            self.spec_status().spec_statuses().len() == FLEET_LEN,
            forall|i: int|
                0 <= i < FLEET_LEN ==> {
                    &&& (#[trigger] self.spec_status().spec_statuses()[i]).spec_name() == fleet_name(i)
                    &&& self.spec_status().spec_statuses()[i].spec_code() == fleet_code(i)
                    &&& self.spec_status().spec_statuses()[i].spec_size() == fleet_size(i)
                    &&& self.spec_status().spec_statuses()[i].spec_hits() == 0
                },
        ensures
            self.wf(),
    {
        assert forall|i: int| 0 <= i < FLEET_LEN implies #[trigger] self.spec_status().spec_statuses()[i].spec_hits() == self.hit_cells(i, fleet_size(i)) by {
            self.lemma_no_hits(i, fleet_size(i));
        }
        Self::lemma_no_miss_cells(self, self.spec_rows() as nat);
    }

    /// The anchors of ship `i` agree between two states.
    pub open spec fn same_anchor(&self, other: &Self, i: int) -> bool {
        &&& self.spec_anchor_row(i) == other.spec_anchor_row(i)
        &&& self.spec_anchor_column(i) == other.spec_anchor_column(i)
        &&& self.spec_horizontal(i) == other.spec_horizontal(i)
    }

    /// Board size and fleet placement agree between two states.
    pub open spec fn same_layout(&self, other: &Self) -> bool {
        &&& self.spec_rows() == other.spec_rows()
        &&& self.spec_columns() == other.spec_columns()
        &&& self.spec_placed() == other.spec_placed()
        &&& forall|i: int| 0 <= i < self.spec_placed() ==> #[trigger] self.same_anchor(other, i)
    }

    proof fn lemma_hit_cells_bounded(&self, i: int, n: nat)
        ensures
            self.hit_cells(i, n) <= n,
        decreases n,
    {
        if n > 0 {
            self.lemma_hit_cells_bounded(i, (n - 1) as nat);
        }
    }

    proof fn lemma_hit_cells_same(pre: &Self, post: &Self, i: int, n: nat)
        requires
            post.same_anchor(pre, i),
            forall|t: int|
                0 <= t < n ==> post.spec_cell(#[trigger] pre.ship_cell(i, t).0, pre.ship_cell(i, t).1)
                    == pre.spec_cell(pre.ship_cell(i, t).0, pre.ship_cell(i, t).1),
        ensures
            post.hit_cells(i, n) == pre.hit_cells(i, n),
        decreases n,
    {
        if n > 0 {
            Self::lemma_hit_cells_same(pre, post, i, (n - 1) as nat);
            assert(pre.ship_cell(i, n - 1) == post.ship_cell(i, n - 1));
        }
    }

    proof fn lemma_hit_cells_plus(pre: &Self, post: &Self, i: int, n: nat, t0: int)
        requires
            post.same_anchor(pre, i),
            0 <= t0 < n,
            forall|t: int|
                0 <= t < n && t != t0 ==> post.spec_cell(
                    #[trigger] pre.ship_cell(i, t).0,
                    pre.ship_cell(i, t).1,
                ) == pre.spec_cell(pre.ship_cell(i, t).0, pre.ship_cell(i, t).1),
            pre.spec_cell(pre.ship_cell(i, t0).0, pre.ship_cell(i, t0).1) != fleet_hit_code(i),
            post.spec_cell(pre.ship_cell(i, t0).0, pre.ship_cell(i, t0).1) == fleet_hit_code(i),
        ensures
            post.hit_cells(i, n) == pre.hit_cells(i, n) + 1,
        decreases n,
    {
        assert(pre.ship_cell(i, n - 1) == post.ship_cell(i, n - 1));
        if n - 1 == t0 {
            Self::lemma_hit_cells_same(pre, post, i, (n - 1) as nat);
        } else {
            Self::lemma_hit_cells_plus(pre, post, i, (n - 1) as nat, t0);
        }
    }

    /// Index of the first catalog ship whose code is `code`, if any.
    fn ship_with_code(&self, code: char) -> (r: Option<usize>)
        requires
            self.fleet_ok(),
        ensures
            r matches Some(i) ==> i < FLEET_LEN && fleet_code(i as int) == code,
            r is None ==> forall|i: int| 0 <= i < FLEET_LEN ==> fleet_code(i) != code,
    {
        let mut k: usize = 0;
        while k < self.ships.len()
            invariant
                self.fleet_ok(),
                k <= FLEET_LEN,
                forall|i: int| 0 <= i < k ==> fleet_code(i) != code,
            decreases FLEET_LEN - k,
        {
            assert(self.spec_fleet()[k as int].spec_code() == fleet_code(k as int));
            if self.ships[k].code() == code {
                return Some(k);
            }
            k = k + 1;
        }
        None
    }

    /// Fires at `(row, column)`. Off the board nothing changes. On a cell that holds
    /// a ship's unhit code the cell takes the hit code, the shot counts as a hit on
    /// that ship and its updated status is returned. On any other cell the shot
    /// counts as a miss, an open cell takes the miss symbol, and nothing is returned.
    #[verifier::spinoff_prover]
    pub fn take_shot(&mut self, row: usize, column: usize) -> (r: Option<ShipStatus>)
        requires
            old(self).wf(),
            old(self).on_board(row as int, column as int) ==> old(self).spec_status().spec_shots()
                < u32::MAX,
        ensures
            final(self).wf(),
            final(self).same_layout(old(self)),
            r matches Some(st) ==> st.spec_hits() <= st.spec_size(),
            old(self).on_board(row as int, column as int) ==> resolved(
                final(self).spec_cell(row as int, column as int),
            ),
            old(self).on_board(row as int, column as int) && resolved(
                old(self).spec_cell(row as int, column as int),
            ) ==> {
                &&& r is None
                &&& final(self).spec_cell(row as int, column as int) == old(self).spec_cell(
                    row as int,
                    column as int,
                )
                &&& final(self).spec_status().spec_statuses() == old(
                    self,
                ).spec_status().spec_statuses()
                &&& final(self).spec_status().spec_hits() == old(self).spec_status().spec_hits()
                &&& final(self).spec_status().spec_misses() == old(self).spec_status().spec_misses()
                    + 1
            },
            !old(self).on_board(row as int, column as int) ==> r is None && *final(self) == *old(self),
            old(self).on_board(row as int, column as int) ==> {
                &&& forall|r: int, c: int|
                    #![trigger final(self).spec_cell(r, c)]
                    final(self).on_board(r, c) && (r != row || c != column) ==> final(self).spec_cell(r, c)
                        == old(self).spec_cell(r, c)
                &&& final(self).spec_status().spec_shots() == old(self).spec_status().spec_shots() + 1
            },
            forall|i: int|
                0 <= i < FLEET_LEN && old(self).on_board(row as int, column as int) && old(
                    self,
                ).spec_cell(row as int, column as int) == #[trigger] fleet_code(i) ==> {
                    &&& final(self).spec_cell(row as int, column as int) == fleet_hit_code(i)
                    &&& final(self).spec_status().spec_hits() == old(self).spec_status().spec_hits() + 1
                    &&& final(self).spec_status().spec_misses() == old(
                        self,
                    ).spec_status().spec_misses()
                    &&& r matches Some(st) && {
                        &&& st.spec_hits() == old(self).spec_status().spec_statuses()[i].spec_hits() + 1
                        &&& st.spec_code() == fleet_code(i)
                        &&& st.spec_size() == fleet_size(i)
                        &&& st.spec_name() == fleet_name(i)
                        &&& final(self).spec_status().spec_statuses()
                            == old(self).spec_status().spec_statuses().update(i, st)
                    }
                },
            old(self).on_board(row as int, column as int) && (forall|i: int|
                0 <= i < FLEET_LEN ==> old(self).spec_cell(row as int, column as int)
                    != #[trigger] fleet_code(i)) ==> {
                &&& r is None
                &&& final(self).spec_cell(row as int, column as int) == if old(self).spec_cell(
                    row as int,
                    column as int,
                ) == OPEN_CODE {
                    MISS_CODE
                } else {
                    old(self).spec_cell(row as int, column as int)
                }
                &&& final(self).spec_status().spec_misses() == old(self).spec_status().spec_misses()
                    + 1
                &&& final(self).spec_status().spec_hits() == old(self).spec_status().spec_hits()
                &&& final(self).spec_status().spec_statuses() == old(
                    self,
                ).spec_status().spec_statuses()
            },
    {
        let ghost pre = *self;
        let position = Position::new(row, column);
        let code = match self.code_at(&position) {
            Some(code) => code,
            None => {
                return None;
            },
        };
        let ghost ri = row as int;
        let ghost ci = column as int;
        proof {
            assert forall|i: int| 0 <= i < self.spec_placed() implies #[trigger] self.same_anchor(&pre, i) by {}
        }
        match self.ship_with_code(code) {
            Some(k) => {
                let ghost i = k as int;
                let hit_code = ascii_upper(code);
                proof {
                    let j = choose|j: int| 0 <= j < pre.spec_placed() && #[trigger] pre.covers(j, ri, ci);
                    assert(j == i);
                    assert(hit_code == fleet_hit_code(i));
                }
                self.set_code_at(&position, hit_code);
                proof {
                    assert forall|x: int| 0 <= x < FLEET_LEN implies #[trigger] pre.spec_status().spec_statuses()[x].spec_hits() < u32::MAX by {
                        pre.lemma_hit_cells_bounded(x, fleet_size(x));
                    }
                }
                let ghost mid = *self;
                let st = self.game_status.record_hit(code);
                proof {
                    assert forall|r: int, c: int| #[trigger] self.spec_cell(r, c) == mid.spec_cell(r, c) by {}
                    self.lemma_shot_hit(&pre, i, ri, ci);
                    Self::lemma_miss_cells_delta(&pre, self, ri, ci);
                    assert(pre.spec_status().spec_statuses()[i].spec_code() == code);
                    let j = choose|j: int|
                        {
                            &&& GameStatus::first_with_code(pre.spec_status().spec_statuses(), code, j)
                            &&& st.unwrap().spec_name() == pre.spec_status().spec_statuses()[j].spec_name()
                            &&& st.unwrap().spec_code() == code
                            &&& st.unwrap().spec_size() == pre.spec_status().spec_statuses()[j].spec_size()
                            &&& st.unwrap().spec_hits() == pre.spec_status().spec_statuses()[j].spec_hits() + 1
                            &&& self.spec_status().spec_statuses() == pre.spec_status().spec_statuses().update(j, st.unwrap())
                            &&& self.spec_status().spec_hits() == pre.spec_status().spec_hits() + 1
                            &&& self.spec_status().wf()
                        };
                    assert(pre.spec_status().spec_statuses()[j].spec_code() == fleet_code(j));
                    assert(j == i);
                    assert forall|x: int| 0 <= x < FLEET_LEN implies (#[trigger] self.spec_status().spec_statuses()[x]).spec_hits() == self.hit_cells(x, fleet_size(x)) by {
                        if x != i {
                            assert(self.spec_status().spec_statuses()[x] == pre.spec_status().spec_statuses()[x]);
                        }
                    }
                    assert(self.spec_cell(ri, ci) == fleet_hit_code(i));
                    assert(!self.untouched());
                    Self::lemma_hits_within_size(self);
                    assert(self.spec_status().spec_statuses()[i] == st.unwrap());
                }
                st
            },
            None => {
                proof {
                    assert forall|x: int| 0 <= x < FLEET_LEN implies pre.spec_cell(ri, ci) != #[trigger] fleet_code(x) by {}
                    if code != OPEN_CODE && code != MISS_CODE {
                        let j = choose|j: int| 0 <= j < pre.spec_placed() && #[trigger] pre.covers(j, ri, ci);
                        assert(code == fleet_hit_code(j));
                    }
                }
                if code == OPEN_CODE {
                    self.set_code_at(&position, MISS_CODE);
                }
                let ghost mid = *self;
                self.game_status.record_miss();
                proof {
                    assert forall|r: int, c: int| #[trigger] self.spec_cell(r, c) == mid.spec_cell(r, c) by {}
                    self.lemma_shot_miss(&pre, ri, ci);
                    Self::lemma_miss_cells_delta(&pre, self, ri, ci);
                    assert(resolved(self.spec_cell(ri, ci)));
                    assert(!self.untouched());
                }
                None
            },
        }
    }

    /// `self` is `pre` with at most the cell at `(r0, c0)` changed.
    spec fn one_cell_changed(&self, pre: &Self, r0: int, c0: int) -> bool {
        &&& self.rows == pre.rows
        &&& self.columns == pre.columns
        &&& self.ships == pre.ships
        &&& self.placements == pre.placements
        &&& self.shape_ok()
        &&& forall|r: int, c: int|
            #![trigger self.spec_cell(r, c)]
            self.on_board(r, c) && (r != r0 || c != c0) ==> self.spec_cell(r, c) == pre.spec_cell(r, c)
    }

    /// Every ship cell lies on the board.
    proof fn lemma_ship_cells_on_board(&self, i: int, t: int)
        requires
            self.layout_ok(),
            0 <= i < self.spec_placed(),
            0 <= t < fleet_size(i),
        ensures
            self.covers(i, self.ship_cell(i, t).0, self.ship_cell(i, t).1),
            self.on_board(self.ship_cell(i, t).0, self.ship_cell(i, t).1),
    {
        assert(run_fits(
            self.spec_rows(),
            self.spec_columns(),
            self.spec_anchor_row(i),
            self.spec_anchor_column(i),
            self.spec_horizontal(i),
            fleet_size(i) as int,
        ));
    }

    /// Ships whose cells avoid `(r0, c0)` keep their hit count when only that cell changes.
    proof fn lemma_counts_kept(&self, pre: &Self, r0: int, c0: int, x: int)
        requires
            pre.layout_ok(),
            self.one_cell_changed(pre, r0, c0),
            0 <= x < pre.spec_placed(),
            !pre.covers(x, r0, c0),
        ensures
            self.hit_cells(x, fleet_size(x)) == pre.hit_cells(x, fleet_size(x)),
    {
        assert forall|t: int|
            0 <= t < fleet_size(x) implies self.spec_cell(#[trigger] pre.ship_cell(x, t).0, pre.ship_cell(x, t).1)
            == pre.spec_cell(pre.ship_cell(x, t).0, pre.ship_cell(x, t).1) by {
            pre.lemma_ship_cells_on_board(x, t);
        }
        Self::lemma_hit_cells_same(pre, self, x, fleet_size(x));
    }

    /// A hit on an unhit cell of ship `i` keeps the layout and adds one hit to that ship alone.
    proof fn lemma_shot_hit(&self, pre: &Self, i: int, r0: int, c0: int)
        requires
            pre.wf(),
            self.one_cell_changed(pre, r0, c0),
            0 <= i < FLEET_LEN,
            pre.on_board(r0, c0),
            pre.spec_cell(r0, c0) == fleet_code(i),
            self.spec_cell(r0, c0) == fleet_hit_code(i),
        ensures
            self.layout_ok(),
            self.spec_placed() == FLEET_LEN,
            self.hit_cells(i, fleet_size(i)) == pre.hit_cells(i, fleet_size(i)) + 1,
            forall|x: int|
                0 <= x < FLEET_LEN && x != i ==> #[trigger] self.hit_cells(x, fleet_size(x))
                    == pre.hit_cells(x, fleet_size(x)),
            forall|x: int|
                0 <= x < FLEET_LEN ==> #[trigger] pre.hit_cells(x, fleet_size(x)) <= fleet_size(x),
    {
        self.lemma_same_placements(pre);
        let j = choose|j: int| 0 <= j < pre.spec_placed() && #[trigger] pre.covers(j, r0, c0);
        assert(j == i);
        assert forall|i2: int, r: int, c: int| #[trigger] self.covers(i2, r, c) == pre.covers(i2, r, c) by {}
        assert forall|x: int|
            0 <= x < FLEET_LEN && x != i implies #[trigger] self.hit_cells(x, fleet_size(x))
            == pre.hit_cells(x, fleet_size(x)) by {
            self.lemma_counts_kept(pre, r0, c0, x);
        }
        assert forall|x: int| 0 <= x < FLEET_LEN implies #[trigger] pre.hit_cells(x, fleet_size(x)) <= fleet_size(x) by {
            pre.lemma_hit_cells_bounded(x, fleet_size(x));
        }
        let t0 = if pre.spec_horizontal(i) {
            c0 - pre.spec_anchor_column(i)
        } else {
            r0 - pre.spec_anchor_row(i)
        };
        assert(pre.ship_cell(i, t0) == (r0, c0));
        assert forall|t: int|
            0 <= t < fleet_size(i) && t != t0 implies self.spec_cell(
            #[trigger] pre.ship_cell(i, t).0,
            pre.ship_cell(i, t).1,
        ) == pre.spec_cell(pre.ship_cell(i, t).0, pre.ship_cell(i, t).1) by {
            pre.lemma_ship_cells_on_board(i, t);
        }
        Self::lemma_hit_cells_plus(pre, self, i, fleet_size(i), t0);
        assert forall|r: int, c: int|
            self.on_board(r, c) && #[trigger] self.spec_cell(r, c) != OPEN_CODE && self.spec_cell(r, c)
                != MISS_CODE implies exists|x: int| 0 <= x < self.spec_placed() && #[trigger] self.covers(x, r, c) by {
            if r == r0 && c == c0 {
                assert(self.covers(i, r, c));
            } else {
                assert(pre.spec_cell(r, c) == self.spec_cell(r, c));
                let x = choose|x: int| 0 <= x < pre.spec_placed() && #[trigger] pre.covers(x, r, c);
                assert(self.covers(x, r, c));
            }
        }
        assert forall|x: int, r: int, c: int|
            0 <= x < self.spec_placed() && #[trigger] self.covers(x, r, c) implies {
            ||| self.spec_cell(r, c) == fleet_code(x)
            ||| self.spec_cell(r, c) == fleet_hit_code(x)
        } by {
            assert(pre.covers(x, r, c));
            if r != r0 || c != c0 {
                assert(pre.on_board(r, c)) by {
                    let tt = if pre.spec_horizontal(x) {
                        c - pre.spec_anchor_column(x)
                    } else {
                        r - pre.spec_anchor_row(x)
                    };
                    pre.lemma_ship_cells_on_board(x, tt);
                }
                assert(pre.spec_cell(r, c) == self.spec_cell(r, c));
            } else {
                assert(x == i);
            }
        }
    }

    /// A miss changes no ship's hit count and keeps the layout.
    proof fn lemma_shot_miss(&self, pre: &Self, r0: int, c0: int)
        requires
            pre.wf(),
            self.one_cell_changed(pre, r0, c0),
            pre.on_board(r0, c0),
            forall|x: int| 0 <= x < FLEET_LEN ==> pre.spec_cell(r0, c0) != #[trigger] fleet_code(x),
            self.spec_cell(r0, c0) == if pre.spec_cell(r0, c0) == OPEN_CODE {
                MISS_CODE
            } else {
                pre.spec_cell(r0, c0)
            },
        ensures
            self.layout_ok(),
            self.spec_placed() == FLEET_LEN,
            forall|x: int|
                0 <= x < FLEET_LEN ==> #[trigger] self.hit_cells(x, fleet_size(x)) == pre.hit_cells(
                    x,
                    fleet_size(x),
                ),
    {
        self.lemma_same_placements(pre);
        assert forall|i2: int, r: int, c: int| #[trigger] self.covers(i2, r, c) == pre.covers(i2, r, c) by {}
        if pre.spec_cell(r0, c0) == OPEN_CODE {
            assert forall|x: int| 0 <= x < FLEET_LEN implies !#[trigger] pre.covers(x, r0, c0) by {}
            assert forall|x: int| 0 <= x < FLEET_LEN implies #[trigger] self.hit_cells(x, fleet_size(x))
                == pre.hit_cells(x, fleet_size(x)) by {
                self.lemma_counts_kept(pre, r0, c0, x);
            }
        } else {
            assert forall|r: int, c: int|
                self.on_board(r, c) implies #[trigger] self.spec_cell(r, c) == pre.spec_cell(r, c) by {}
            assert forall|x: int| 0 <= x < FLEET_LEN implies #[trigger] self.hit_cells(x, fleet_size(x))
                == pre.hit_cells(x, fleet_size(x)) by {
                assert forall|t: int|
                    0 <= t < fleet_size(x) implies self.spec_cell(#[trigger] pre.ship_cell(x, t).0, pre.ship_cell(x, t).1)
                    == pre.spec_cell(pre.ship_cell(x, t).0, pre.ship_cell(x, t).1) by {
                    pre.lemma_ship_cells_on_board(x, t);
                }
                Self::lemma_hit_cells_same(pre, self, x, fleet_size(x));
            }
        }
        assert forall|r: int, c: int|
            self.on_board(r, c) && #[trigger] self.spec_cell(r, c) != OPEN_CODE && self.spec_cell(r, c)
                != MISS_CODE implies exists|x: int| 0 <= x < self.spec_placed() && #[trigger] self.covers(x, r, c) by {
            assert(pre.spec_cell(r, c) == self.spec_cell(r, c));
            let x = choose|x: int| 0 <= x < pre.spec_placed() && #[trigger] pre.covers(x, r, c);
            assert(self.covers(x, r, c));
        }
        assert forall|x: int, r: int, c: int|
            0 <= x < self.spec_placed() && #[trigger] self.covers(x, r, c) implies {
            ||| self.spec_cell(r, c) == fleet_code(x)
            ||| self.spec_cell(r, c) == fleet_hit_code(x)
        } by {
            assert(pre.covers(x, r, c));
            let tt = if pre.spec_horizontal(x) {
                c - pre.spec_anchor_column(x)
            } else {
                r - pre.spec_anchor_row(x)
            };
            pre.lemma_ship_cells_on_board(x, tt);
            assert(pre.spec_cell(r, c) == self.spec_cell(r, c));
        }
    }

    /// Two states with the same placements and fleet agree on every anchor.
    proof fn lemma_same_placements(&self, other: &Self)
        requires
            self.placements == other.placements,
            self.ships == other.ships,
        ensures
            forall|i: int|
                {
                    &&& #[trigger] self.spec_anchor_row(i) == other.spec_anchor_row(i)
                    &&& self.spec_anchor_column(i) == other.spec_anchor_column(i)
                    &&& self.spec_horizontal(i) == other.spec_horizontal(i)
                },
            self.spec_placed() == other.spec_placed(),
            self.spec_fleet() == other.spec_fleet(),
    {
    }

    /// Whether `(r, c)` is a cell of ship `i` when placed as `layout` says.
    pub open spec fn layout_run(layout: Seq<(usize, usize, Direction)>, i: int, r: int, c: int) -> bool {
        in_run(
            layout[i].0 as int,
            layout[i].1 as int,
            layout[i].2 == Direction::Horizontal,
            fleet_size(i) as int,
            r,
            c,
        )
    }

    /// The first `n` entries of `layout` obey the boundary rule on a board of
    /// `rows` by `columns` and no two of their runs share a cell.
    pub open spec fn layout_prefix_valid(
        rows: int,
        columns: int,
        layout: Seq<(usize, usize, Direction)>,
        n: int,
    ) -> bool {
        &&& forall|k: int|
            0 <= k < n ==> run_fits(
                rows,
                columns,
                (#[trigger] layout[k]).0 as int,
                layout[k].1 as int,
                layout[k].2 == Direction::Horizontal,
                fleet_size(k) as int,
            )
        &&& forall|i: int, j: int, r: int, c: int|
            0 <= i < j < n && #[trigger] Self::layout_run(layout, i, r, c) ==> !#[trigger] Self::layout_run(
                layout,
                j,
                r,
                c,
            )
    }

    /// `layout` gives one anchor and direction per fleet ship, in fleet order,
    /// and places the whole fleet on a board of `rows` by `columns`.
    pub open spec fn layout_valid(rows: int, columns: int, layout: Seq<(usize, usize, Direction)>) -> bool {
        layout.len() == FLEET_LEN && Self::layout_prefix_valid(rows, columns, layout, FLEET_LEN as int)
    }

    /// A new game whose fleet is placed as `layout` says: entry `k` gives the
    /// anchor row, anchor column and direction of the `k`-th fleet ship. The board
    /// is resolved from `rows` and `columns` as in `new`. Nothing is returned when
    /// the layout does not place the whole fleet within the boundary rule without
    /// overlap.
    #[verifier::spinoff_prover]
    pub fn with_layout(
        rows: Option<usize>,
        columns: Option<usize>,
        layout: &Vec<(usize, usize, Direction)>,
    ) -> (r: Option<BattleshipEngine>)
        ensures
            r is Some <==> Self::layout_valid(
                clamped(rows, DEFAULT_DIMENSION) as int,
                clamped(columns, clamped(rows, DEFAULT_DIMENSION) as usize) as int,
                layout@,
            ),
            r matches Some(e) ==> {
                &&& e.wf()
                &&& e.fresh()
                &&& e.spec_rows() == clamped(rows, DEFAULT_DIMENSION)
                &&& e.spec_columns() == clamped(columns, clamped(rows, DEFAULT_DIMENSION) as usize)
                &&& e.spec_status().spec_shots() == 0
                &&& e.spec_status().spec_hits() == 0
                &&& e.spec_status().spec_misses() == 0
                &&& e.anchors_follow(layout@, FLEET_LEN as int)
            },
    {
        let mut engine = Self::blank(rows, columns);
        if layout.len() != FLEET_LEN {
            return None;
        }
        let ghost nr = engine.spec_rows();
        let ghost nc = engine.spec_columns();
        let mut k: usize = 0;
        while k < FLEET_LEN
            invariant
                engine.layout_ok(),
                engine.fresh(),
                k <= FLEET_LEN,
                layout@.len() == FLEET_LEN,
                engine.spec_placed() == k,
                engine.spec_rows() == nr,
                engine.spec_columns() == nc,
                nr == clamped(rows, DEFAULT_DIMENSION),
                nc == clamped(columns, clamped(rows, DEFAULT_DIMENSION) as usize),
                engine.anchors_follow(layout@, k as int),
                Self::layout_prefix_valid(nr, nc, layout@, k as int),
                engine.spec_status().spec_shots() == 0,
                engine.spec_status().spec_hits() == 0,
                engine.spec_status().spec_misses() == 0,
                engine.spec_status().wf(),
                engine.spec_status().spec_statuses().len() == FLEET_LEN,
                forall|i: int|
                    0 <= i < FLEET_LEN ==> {
                        &&& (#[trigger] engine.spec_status().spec_statuses()[i]).spec_name() == fleet_name(i)
                        &&& engine.spec_status().spec_statuses()[i].spec_code() == fleet_code(i)
                        &&& engine.spec_status().spec_statuses()[i].spec_size() == fleet_size(i)
                        &&& engine.spec_status().spec_statuses()[i].spec_hits() == 0
                    },
            decreases FLEET_LEN - k,
        {
            let (row, column, direction) = layout[k];
            let ghost pre = engine;
            proof {
                assert forall|i: int, r: int, c: int| 0 <= i < k implies #[trigger] engine.covers(i, r, c) == Self::layout_run(layout@, i, r, c) by {
                    assert(engine.spec_anchor_row(i) == layout@[i].0);
                }
            }
            if !engine.try_place_ship(row, column, direction) {
                proof {
                    assert(layout@[k as int] == (row, column, direction));
                    if Self::layout_valid(nr, nc, layout@) {
                        assert(run_fits(nr, nc, row as int, column as int, direction == Direction::Horizontal, fleet_size(k as int) as int));
                        let (i, r, c) = choose|i: int, r: int, c: int|
                            0 <= i < k && #[trigger] pre.covers(i, r, c) && in_run(
                                row as int,
                                column as int,
                                direction == Direction::Horizontal,
                                fleet_size(k as int) as int,
                                r,
                                c,
                            );
                        assert(Self::layout_run(layout@, i, r, c));
                        assert(Self::layout_run(layout@, k as int, r, c));
                    }
                }
                return None;
            }
            proof {
                assert(layout@[k as int] == (row, column, direction));
                assert forall|i: int|
                    0 <= i < k + 1 implies {
                    &&& #[trigger] engine.spec_anchor_row(i) == layout@[i].0
                    &&& engine.spec_anchor_column(i) == layout@[i].1
                    &&& engine.spec_horizontal(i) == (layout@[i].2 == Direction::Horizontal)
                } by {
                    if i < k {
                        assert(engine.placements@.subrange(0, k as int)[i] == engine.placements@[i]);
                        assert(pre.spec_anchor_row(i) == layout@[i].0);
                    }
                }
                assert forall|i: int, j: int, r: int, c: int|
                    0 <= i < j < k + 1 && #[trigger] Self::layout_run(layout@, i, r, c) implies !#[trigger] Self::layout_run(
                    layout@,
                    j,
                    r,
                    c,
                ) by {
                    if j == k {
                        assert(pre.covers(i, r, c));
                    }
                }
                assert(Self::layout_prefix_valid(nr, nc, layout@, k + 1));
            }
            k = k + 1;
            proof {
                Self::lemma_anchors_extend(&engine, &pre, layout@, k - 1);
            }
        }
        proof {
            engine.lemma_fresh_statuses();
        }
        Some(engine)
    }

    /// The first `n` placed ships sit where `layout` says.
    pub open spec fn anchors_follow(&self, layout: Seq<(usize, usize, Direction)>, n: int) -> bool {
        forall|i: int|
            0 <= i < n ==> {
                &&& #[trigger] self.spec_anchor_row(i) == layout[i].0
                &&& self.spec_anchor_column(i) == layout[i].1
                &&& self.spec_horizontal(i) == (layout[i].2 == Direction::Horizontal)
            }
    }

    /// The cells ship `i` occupies.
    pub open spec fn ship_cells(&self, i: int) -> Set<(int, int)> {
        Set::new(|p: (int, int)| self.covers(i, p.0, p.1))
    }

    /// The cells the first `n` ships of the fleet occupy.
    pub open spec fn fleet_cells(&self, n: nat) -> Set<(int, int)>
        decreases n,
    {
        if n == 0 {
            Set::empty()
        } else {
            self.fleet_cells((n - 1) as nat) + self.ship_cells(n - 1)
        }
    }

    proof fn lemma_ship_cells_len(&self, i: int)
        requires
            self.layout_ok(),
            0 <= i < self.spec_placed(),
        ensures
            self.ship_cells(i).finite(),
            self.ship_cells(i).len() == fleet_size(i),
    {
        let f = |t: int| self.ship_cell(i, t);
        let dom = set_int_range(0, fleet_size(i) as int);
        lemma_int_range(0, fleet_size(i) as int);
        assert forall|p: (int, int)| #[trigger] self.ship_cells(i).contains(p) == dom.map(f).contains(p) by {
            if self.covers(i, p.0, p.1) {
                let t = if self.spec_horizontal(i) {
                    p.1 - self.spec_anchor_column(i)
                } else {
                    p.0 - self.spec_anchor_row(i)
                };
                assert(dom.contains(t) && f(t) == p);
            }
            if dom.map(f).contains(p) {
                let t = choose|t: int| dom.contains(t) && f(t) == p;
                assert(self.covers(i, p.0, p.1));
            }
        }
        assert(dom.map(f) =~= self.ship_cells(i));
        lemma_map_size(dom, self.ship_cells(i), f);
    }

    proof fn lemma_fleet_cells(&self, n: nat)
        requires
            self.layout_ok(),
            n <= self.spec_placed(),
        ensures
            self.fleet_cells(n).finite(),
            self.fleet_cells(n).len() == if n == 0 {
                0
            } else if n == 1 {
                fleet_size(0)
            } else if n == 2 {
                fleet_size(0) + fleet_size(1)
            } else if n == 3 {
                fleet_size(0) + fleet_size(1) + fleet_size(2)
            } else if n == 4 {
                fleet_size(0) + fleet_size(1) + fleet_size(2) + fleet_size(3)
            } else {
                fleet_cells_total()
            },
            forall|p: (int, int)|
                #[trigger] self.fleet_cells(n).contains(p) <==> exists|i: int|
                    0 <= i < n && #[trigger] self.covers(i, p.0, p.1),
        decreases n,
    {
        if n > 0 {
            let m = (n - 1) as nat;
            self.lemma_fleet_cells(m);
            self.lemma_ship_cells_len(m as int);
            assert(self.fleet_cells(m).disjoint(self.ship_cells(m as int))) by {
                assert forall|p: (int, int)| self.fleet_cells(m).contains(p) implies !self.ship_cells(m as int).contains(p) by {
                    let i = choose|i: int| 0 <= i < m && #[trigger] self.covers(i, p.0, p.1);
                }
            }
            lemma_set_disjoint_lens(self.fleet_cells(m), self.ship_cells(m as int));
            assert forall|p: (int, int)|
                #[trigger] self.fleet_cells(n).contains(p) <==> exists|i: int|
                    0 <= i < n && #[trigger] self.covers(i, p.0, p.1) by {
                if exists|i: int| 0 <= i < n && #[trigger] self.covers(i, p.0, p.1) {
                    let i = choose|i: int| 0 <= i < n && #[trigger] self.covers(i, p.0, p.1);
                    if i < m {
                        assert(self.fleet_cells(m).contains(p));
                    } else {
                        assert(self.ship_cells(m as int).contains(p));
                    }
                }
            }
        }
    }

    /// A complete fleet occupies exactly as many distinct cells as its ships'
    /// sizes add up to: no two ships share a cell, every ship obeys the boundary
    /// rule, each ship occupies as many cells as its size, and the occupied cells
    /// are exactly those that show a ship code. Before any shot, the cells that
    /// show a ship's code are exactly that ship's cells.
    pub proof fn lemma_fleet_occupies(e: &BattleshipEngine)
        requires
            e.wf(),
        ensures
            e.fleet_cells(FLEET_LEN as nat).finite(),
            e.fleet_cells(FLEET_LEN as nat).len() == fleet_cells_total(),
            forall|i: int, j: int|
                0 <= i < FLEET_LEN && 0 <= j < FLEET_LEN && i != j ==> e.ship_cells(i).disjoint(
                    e.ship_cells(j),
                ),
            forall|i: int|
                0 <= i < FLEET_LEN ==> run_fits(
                    e.spec_rows(),
                    e.spec_columns(),
                    #[trigger] e.spec_anchor_row(i),
                    e.spec_anchor_column(i),
                    e.spec_horizontal(i),
                    fleet_size(i) as int,
                ),
            forall|r: int, c: int|
                e.on_board(r, c) ==> (#[trigger] e.fleet_cells(FLEET_LEN as nat).contains((r, c)) <==> (
                e.spec_cell(r, c) != OPEN_CODE && e.spec_cell(r, c) != MISS_CODE)),
            forall|i: int|
                0 <= i < FLEET_LEN ==> #[trigger] e.ship_cells(i).finite() && e.ship_cells(i).len()
                    == fleet_size(i),
            e.fresh() ==> forall|i: int, r: int, c: int|
                0 <= i < FLEET_LEN && e.on_board(r, c) ==> (#[trigger] e.ship_cells(i).contains((r, c))
                    <==> e.spec_cell(r, c) == fleet_code(i)),
    {
        e.lemma_fleet_cells(FLEET_LEN as nat);
        assert forall|i: int| 0 <= i < FLEET_LEN implies #[trigger] e.ship_cells(i).finite() && e.ship_cells(i).len()
            == fleet_size(i) by {
            e.lemma_ship_cells_len(i);
        }
        if e.fresh() {
            assert forall|i: int, r: int, c: int|
                0 <= i < FLEET_LEN && e.on_board(r, c) implies (#[trigger] e.ship_cells(i).contains((r, c))
                <==> e.spec_cell(r, c) == fleet_code(i)) by {
                if e.spec_cell(r, c) == fleet_code(i) {
                    let j = choose|j: int| 0 <= j < e.spec_placed() && #[trigger] e.covers(j, r, c);
                    assert(j == i);
                }
            }
        }
        assert forall|i: int, j: int|
            0 <= i < FLEET_LEN && 0 <= j < FLEET_LEN && i != j implies e.ship_cells(i).disjoint(
            e.ship_cells(j),
        ) by {
            assert forall|p: (int, int)| e.ship_cells(i).contains(p) implies !e.ship_cells(j).contains(p) by {
                assert(e.covers(i, p.0, p.1));
            }
        }
        assert forall|r: int, c: int|
            e.on_board(r, c) implies (#[trigger] e.fleet_cells(FLEET_LEN as nat).contains((r, c)) <==> (
            e.spec_cell(r, c) != OPEN_CODE && e.spec_cell(r, c) != MISS_CODE)) by {
            if e.fleet_cells(FLEET_LEN as nat).contains((r, c)) {
                let i = choose|i: int| 0 <= i < FLEET_LEN && #[trigger] e.covers(i, r, c);
            }
        }
    }

    /// Every shot is counted either as a hit or as a miss, in any complete game state.
    pub proof fn lemma_shots_balance(e: &BattleshipEngine)
        requires
            e.wf(),
        ensures
            e.spec_status().spec_shots() == e.spec_status().spec_hits() + e.spec_status().spec_misses(),
    {
    }

    /// No ship counts more hits than it has cells, in any complete game state.
    pub proof fn lemma_hits_within_size(e: &BattleshipEngine)
        requires
            e.wf(),
        ensures
            forall|i: int|
                0 <= i < FLEET_LEN ==> #[trigger] e.spec_status().spec_statuses()[i].spec_hits()
                    <= e.spec_status().spec_statuses()[i].spec_size(),
    {
        assert forall|i: int| 0 <= i < FLEET_LEN implies #[trigger] e.spec_status().spec_statuses()[i].spec_hits()
            <= e.spec_status().spec_statuses()[i].spec_size() by {
            e.lemma_hit_cells_bounded(i, fleet_size(i));
        }
    }

    pub fn rows(&self) -> (r: usize)
        ensures
            r == self.spec_rows(),
    {
        self.rows
    }

    pub fn columns(&self) -> (r: usize)
        ensures
            r == self.spec_columns(),
    {
        self.columns
    }

    /// The symbol at `(row, column)`, or nothing off the board.
    pub fn cell(&self, row: usize, column: usize) -> (r: Option<char>)
        requires
            self.wf(),
        ensures
            r is Some == self.on_board(row as int, column as int),
            r matches Some(ch) ==> ch == self.spec_cell(row as int, column as int),
    {
        self.code_at(&Position::new(row, column))
    }

    pub fn game_status(&self) -> (r: &GameStatus)
        ensures
            *r == self.spec_status(),
    {
        &self.game_status
    }

    /// The fleet catalog this game was set up with.
    pub fn fleet(&self) -> (r: &[Ship])
        ensures
            r@ == self.spec_fleet(),
    {
        self.ships.as_slice()
    }

    /// Anchor row, anchor column and direction of the `index`-th fleet ship.
    pub fn placement(&self, index: usize) -> (r: Option<(usize, usize, Direction)>)
        ensures
            r is Some == (index < self.spec_placed()),
            r matches Some(p) ==> {
                &&& p.0 == self.spec_anchor_row(index as int)
                &&& p.1 == self.spec_anchor_column(index as int)
                &&& (p.2 == Direction::Horizontal) == self.spec_horizontal(index as int)
            },
    {
        if index < self.placements.len() {
            let (position, direction) = self.placements[index];
            Some((position.row(), position.column(), direction))
        } else {
            None
        }
    }

    /// Whether `ch` marks a cell that has been shot at.
    fn is_resolved(ch: char) -> (r: bool)
        ensures
            r == resolved(ch),
    {
        ch == MISS_CODE || ch == 'C' || ch == 'B' || ch == 'R' || ch == 'S' || ch == 'D'
    }

    /// Symbol `g` can stand on a cell that shows `f` on a board where no shot
    /// has been taken: unchanged, a miss on an open cell, or a hit on a ship cell.
    pub open spec fn cell_follows(f: char, g: char) -> bool {
        ||| g == f
        ||| f == OPEN_CODE && g == MISS_CODE
        ||| f == fleet_code(0) && g == fleet_hit_code(0)
        ||| f == fleet_code(1) && g == fleet_hit_code(1)
        ||| f == fleet_code(2) && g == fleet_hit_code(2)
        ||| f == fleet_code(3) && g == fleet_hit_code(3)
        ||| f == fleet_code(4) && g == fleet_hit_code(4)
    }

    /// `e` is a complete game made of exactly these parts.
    pub open spec fn made_of(
        e: BattleshipEngine,
        rows: usize,
        columns: usize,
        layout: Seq<(usize, usize, Direction)>,
        board: Seq<Vec<char>>,
        shots: u32,
        hits: u32,
        misses: u32,
    ) -> bool {
        &&& e.wf()
        &&& e.spec_rows() == rows
        &&& e.spec_columns() == columns
        &&& layout.len() == FLEET_LEN
        &&& e.anchors_follow(layout, FLEET_LEN as int)
        &&& board.len() == rows
        &&& forall|i: int| 0 <= i < rows ==> (#[trigger] board[i])@.len() == columns
        &&& forall|i: int, j: int| e.on_board(i, j) ==> #[trigger] e.spec_cell(i, j) == board[i]@[j]
        &&& e.spec_status().spec_shots() == shots
        &&& e.spec_status().spec_hits() == hits
        &&& e.spec_status().spec_misses() == misses
    }

    /// A complete game whose ships sit where `layout` says has a valid layout.
    proof fn lemma_layout_of(e: &BattleshipEngine, layout: Seq<(usize, usize, Direction)>)
        requires
            e.wf(),
            layout.len() == FLEET_LEN,
            e.anchors_follow(layout, FLEET_LEN as int),
        ensures
            Self::layout_valid(e.spec_rows(), e.spec_columns(), layout),
    {
        assert forall|i: int, r: int, c: int|
            0 <= i < FLEET_LEN implies #[trigger] e.covers(i, r, c) == Self::layout_run(layout, i, r, c) by {
            assert(e.spec_anchor_row(i) == layout[i].0);
        }
        assert forall|k: int|
            0 <= k < FLEET_LEN implies run_fits(
            e.spec_rows(),
            e.spec_columns(),
            (#[trigger] layout[k]).0 as int,
            layout[k].1 as int,
            layout[k].2 == Direction::Horizontal,
            fleet_size(k) as int,
        ) by {
            assert(e.spec_anchor_row(k) == layout[k].0);
        }
        assert forall|i: int, j: int, r: int, c: int|
            0 <= i < j < FLEET_LEN && #[trigger] Self::layout_run(layout, i, r, c) implies !#[trigger] Self::layout_run(
            layout,
            j,
            r,
            c,
        ) by {
            assert(e.covers(i, r, c));
            assert(e.covers(j, r, c) == Self::layout_run(layout, j, r, c));
        }
    }

    /// Two states whose ships sit alike agree on which ship covers which cell.
    proof fn lemma_same_covers(a: &BattleshipEngine, b: &BattleshipEngine, layout: Seq<(usize, usize, Direction)>)
        requires
            a.anchors_follow(layout, FLEET_LEN as int),
            b.anchors_follow(layout, FLEET_LEN as int),
        ensures
            forall|i: int, r: int, c: int|
                0 <= i < FLEET_LEN ==> #[trigger] a.covers(i, r, c) == b.covers(i, r, c),
            forall|i: int, t: int| 0 <= i < FLEET_LEN ==> #[trigger] a.ship_cell(i, t) == b.ship_cell(i, t),
            forall|i: int| 0 <= i < FLEET_LEN ==> #[trigger] a.same_anchor(b, i) && b.same_anchor(a, i),
    {
        assert forall|i: int| 0 <= i < FLEET_LEN implies #[trigger] a.same_anchor(b, i) && b.same_anchor(a, i) by {
            assert(a.spec_anchor_row(i) == layout[i].0);
            assert(b.spec_anchor_row(i) == layout[i].0);
        }
        assert forall|i: int, r: int, c: int| 0 <= i < FLEET_LEN implies #[trigger] a.covers(i, r, c) == b.covers(i, r, c) by {
            assert(a.spec_anchor_row(i) == layout[i].0);
            assert(b.spec_anchor_row(i) == layout[i].0);
        }
        assert forall|i: int, t: int| 0 <= i < FLEET_LEN implies #[trigger] a.ship_cell(i, t) == b.ship_cell(i, t) by {
            assert(a.spec_anchor_row(i) == layout[i].0);
            assert(b.spec_anchor_row(i) == layout[i].0);
        }
    }

    /// Every cell of a complete game follows the same cell of the untouched board
    /// with the same ships.
    proof fn lemma_follows(e: &BattleshipEngine, f: &BattleshipEngine, layout: Seq<(usize, usize, Direction)>, r: int, c: int)
        requires
            e.wf(),
            f.layout_ok(),
            f.fresh(),
            f.spec_placed() == FLEET_LEN,
            e.anchors_follow(layout, FLEET_LEN as int),
            f.anchors_follow(layout, FLEET_LEN as int),
            e.on_board(r, c),
            f.on_board(r, c),
        ensures
            Self::cell_follows(f.spec_cell(r, c), e.spec_cell(r, c)),
    {
        Self::lemma_same_covers(e, f, layout);
        if exists|i: int| 0 <= i < FLEET_LEN && #[trigger] f.covers(i, r, c) {
            let i = choose|i: int| 0 <= i < FLEET_LEN && #[trigger] f.covers(i, r, c);
            assert(e.covers(i, r, c));
        } else {
            f.lemma_open_iff_uncovered(r, c);
            if e.spec_cell(r, c) != OPEN_CODE && e.spec_cell(r, c) != MISS_CODE {
                let i = choose|i: int| 0 <= i < e.spec_placed() && #[trigger] e.covers(i, r, c);
                assert(f.covers(i, r, c));
            }
        }
    }

    /// An untouched board with some cells changed as `cell_follows` allows keeps its layout.
    proof fn lemma_overlay(e: &BattleshipEngine, f: &BattleshipEngine)
        requires
            f.layout_ok(),
            f.fresh(),
            e.shape_ok(),
            e.rows == f.rows,
            e.columns == f.columns,
            e.ships == f.ships,
            e.placements == f.placements,
            forall|r: int, c: int|
                e.on_board(r, c) ==> Self::cell_follows(f.spec_cell(r, c), #[trigger] e.spec_cell(r, c)),
        ensures
            e.layout_ok(),
    {
        e.lemma_same_placements(f);
        assert forall|i: int, r: int, c: int| #[trigger] e.covers(i, r, c) == f.covers(i, r, c) by {}
        assert forall|x: int, r: int, c: int|
            0 <= x < e.spec_placed() && #[trigger] e.covers(x, r, c) implies {
            ||| e.spec_cell(r, c) == fleet_code(x)
            ||| e.spec_cell(r, c) == fleet_hit_code(x)
        } by {
            let tt = if f.spec_horizontal(x) {
                c - f.spec_anchor_column(x)
            } else {
                r - f.spec_anchor_row(x)
            };
            f.lemma_ship_cells_on_board(x, tt);
            assert(f.spec_cell(r, c) == fleet_code(x));
            assert(Self::cell_follows(f.spec_cell(r, c), e.spec_cell(r, c)));
        }
        assert forall|r: int, c: int|
            e.on_board(r, c) && #[trigger] e.spec_cell(r, c) != OPEN_CODE && e.spec_cell(r, c) != MISS_CODE implies exists|x: int|
            0 <= x < e.spec_placed() && #[trigger] e.covers(x, r, c) by {
            assert(Self::cell_follows(f.spec_cell(r, c), e.spec_cell(r, c)));
            assert(f.spec_cell(r, c) != OPEN_CODE);
            assert(f.spec_cell(r, c) != MISS_CODE);
            let x = choose|x: int| 0 <= x < f.spec_placed() && #[trigger] f.covers(x, r, c);
            assert(e.covers(x, r, c));
        }
    }

    proof fn lemma_sums_agree(statuses: Seq<ShipStatus>, counts: Seq<u32>)
        requires
            statuses.len() == counts.len(),
            forall|i: int| 0 <= i < counts.len() ==> #[trigger] statuses[i].spec_hits() == counts[i],
        ensures
            GameStatus::hits_sum(statuses) == GameStatus::counts_sum(counts),
        decreases counts.len(),
    {
        if counts.len() > 0 {
            Self::lemma_sums_agree(statuses.drop_last(), counts.drop_last());
        }
    }

    /// Rebuilds a game from its parts: the fleet placed as `layout` says, the cell
    /// symbols of `board`, and the shot, hit and miss counters. The parts are
    /// checked against each other; a game is returned exactly when some complete
    /// game is made of them, and then it is made of them.
    #[verifier::spinoff_prover]
    pub fn from_parts(
        rows: usize,
        columns: usize,
        layout: &Vec<(usize, usize, Direction)>,
        board: &Vec<Vec<char>>,
        shots: u32,
        hits: u32,
        misses: u32,
    ) -> (r: Option<BattleshipEngine>)
        ensures
            r matches Some(e) ==> Self::made_of(e, rows, columns, layout@, board@, shots, hits, misses),
            forall|e: BattleshipEngine|
                #[trigger] Self::made_of(e, rows, columns, layout@, board@, shots, hits, misses) ==> r is Some,
    {
        let mut engine = match Self::with_layout(Some(rows), Some(columns), layout) {
            Some(e) => e,
            None => {
                proof {
                    assert forall|e: BattleshipEngine|
                        #[trigger] Self::made_of(e, rows, columns, layout@, board@, shots, hits, misses) implies false by {
                        Self::lemma_layout_of(&e, layout@);
                    }
                }
                return None;
            },
        };
        if engine.rows != rows || engine.columns != columns || board.len() != rows {
            return None;
        }
        let ghost fresh = engine;
        let mut any_resolved = false;
        let mut i: usize = 0;
        while i < rows
            invariant
                fresh.wf(),
                fresh.fresh(),
                fresh.anchors_follow(layout@, FLEET_LEN as int),
                fresh.rows == rows,
                fresh.columns == columns,
                fresh.spec_status().spec_shots() == 0,
                engine.shape_ok(),
                engine.rows == rows,
                engine.columns == columns,
                engine.ships == fresh.ships,
                engine.placements == fresh.placements,
                engine.game_status == fresh.game_status,
                board@.len() == rows,
                i <= rows,
                forall|k: int| 0 <= k < i ==> (#[trigger] board@[k])@.len() == columns,
                forall|k: int, l: int|
                    engine.on_board(k, l) ==> #[trigger] engine.spec_cell(k, l) == if k < i {
                        board@[k]@[l]
                    } else {
                        fresh.spec_cell(k, l)
                    },
                forall|k: int, l: int|
                    0 <= k < i && 0 <= l < columns ==> Self::cell_follows(
                        fresh.spec_cell(k, l),
                        #[trigger] board@[k]@[l],
                    ),
                !any_resolved ==> forall|k: int, l: int|
                    0 <= k < i && 0 <= l < columns ==> !resolved(#[trigger] board@[k]@[l]),
                any_resolved ==> exists|k: int, l: int|
                    0 <= k < rows && 0 <= l < columns && resolved(#[trigger] board@[k]@[l]),
            decreases rows - i,
        {
            if board[i].len() != columns {
                return None;
            }
            let mut j: usize = 0;
            while j < columns
                invariant
                    fresh.wf(),
                    fresh.fresh(),
                    fresh.anchors_follow(layout@, FLEET_LEN as int),
                    fresh.rows == rows,
                    fresh.columns == columns,
                    fresh.spec_status().spec_shots() == 0,
                    engine.shape_ok(),
                    engine.rows == rows,
                    engine.columns == columns,
                    engine.ships == fresh.ships,
                    engine.placements == fresh.placements,
                    engine.game_status == fresh.game_status,
                    board@.len() == rows,
                    i < rows,
                    j <= columns,
                    board@[i as int]@.len() == columns,
                    forall|k: int| 0 <= k < i ==> (#[trigger] board@[k])@.len() == columns,
                    forall|k: int, l: int|
                        engine.on_board(k, l) ==> #[trigger] engine.spec_cell(k, l) == if k < i || (k
                            == i && l < j) {
                            board@[k]@[l]
                        } else {
                            fresh.spec_cell(k, l)
                        },
                    forall|k: int, l: int|
                        (0 <= k < i && 0 <= l < columns) || (k == i && 0 <= l < j) ==> Self::cell_follows(
                            fresh.spec_cell(k, l),
                            #[trigger] board@[k]@[l],
                        ),
                    !any_resolved ==> forall|k: int, l: int|
                        (0 <= k < i && 0 <= l < columns) || (k == i && 0 <= l < j) ==> !resolved(
                            #[trigger] board@[k]@[l],
                        ),
                    any_resolved ==> exists|k: int, l: int|
                        0 <= k < rows && 0 <= l < columns && resolved(#[trigger] board@[k]@[l]),
                decreases columns - j,
            {
                let expected = engine.board[i][j];
                let given = board[i][j];
                let upper = ascii_upper(expected);
                proof {
                    assert(engine.spec_cell(i as int, j as int) == expected);
                    assert(expected == fresh.spec_cell(i as int, j as int));
                    if expected != OPEN_CODE {
                        fresh.lemma_open_iff_uncovered(i as int, j as int);
                        let x = choose|x: int| 0 <= x < FLEET_LEN && #[trigger] fresh.covers(x, i as int, j as int);
                        assert(expected == fleet_code(x));
                        assert(upper == fleet_hit_code(x));
                    }
                }
                if !(given == expected || (expected == OPEN_CODE && given == MISS_CODE) || (expected
                    != OPEN_CODE && given == upper)) {
                    proof {
                        assert forall|e: BattleshipEngine|
                            #[trigger] Self::made_of(e, rows, columns, layout@, board@, shots, hits, misses) implies false by {
                            Self::lemma_follows(&e, &fresh, layout@, i as int, j as int);
                            assert(e.spec_cell(i as int, j as int) == board@[i as int]@[j as int]);
                        }
                    }
                    return None;
                }
                if given != expected {
                    engine.set_code_at(&Position::new(i, j), given);
                }
                if Self::is_resolved(given) {
                    any_resolved = true;
                    assert(resolved(board@[i as int]@[j as int]));
                }
                j = j + 1;
            }
            i = i + 1;
        }
        proof {
            Self::lemma_overlay(&engine, &fresh);
            engine.lemma_same_placements(&fresh);
            assert forall|k: int| 0 <= k < FLEET_LEN implies {
                &&& #[trigger] engine.spec_anchor_row(k) == layout@[k].0
                &&& engine.spec_anchor_column(k) == layout@[k].1
                &&& engine.spec_horizontal(k) == (layout@[k].2 == Direction::Horizontal)
            } by {
                assert(fresh.spec_anchor_row(k) == layout@[k].0);
            }
            assert(engine.anchors_follow(layout@, FLEET_LEN as int));
        }
        let mut stars: u64 = 0;
        let mut k: usize = 0;
        while k < rows
            invariant
                engine.shape_ok(),
                engine.rows == rows,
                engine.columns == columns,
                k <= rows,
                rows <= MAX_DIMENSION,
                columns <= MAX_DIMENSION,
                stars == engine.board_misses(k as nat),
                stars <= MAX_DIMENSION * k,
            decreases rows - k,
        {
            let mut l: usize = 0;
            let mut in_row: u64 = 0;
            while l < columns
                invariant
                    engine.shape_ok(),
                    engine.rows == rows,
                    engine.columns == columns,
                    k < rows,
                    l <= columns,
                    columns <= MAX_DIMENSION,
                    in_row == engine.row_misses(k as int, l as nat),
                    in_row <= l,
                decreases columns - l,
            {
                assert(engine.spec_cell(k as int, l as int) == engine.board@[k as int]@[l as int]);
                if engine.board[k][l] == MISS_CODE {
                    in_row = in_row + 1;
                }
                l = l + 1;
            }
            stars = stars + in_row;
            k = k + 1;
        }
        let mut ship_hits: Vec<u32> = Vec::new();
        let mut total: u32 = 0;
        let mut x: usize = 0;
        while x < FLEET_LEN
            invariant
                engine.layout_ok(),
                engine.spec_placed() == FLEET_LEN,
                x <= FLEET_LEN,
                ship_hits@.len() == x,
                forall|y: int| 0 <= y < x ==> #[trigger] ship_hits@[y] == engine.hit_cells(y, fleet_size(y)),
                total == GameStatus::counts_sum(ship_hits@),
                total <= 5 * x,
            decreases FLEET_LEN - x,
        {
            let code = ascii_upper(engine.ships[x].code());
            let (anchor, direction) = engine.placements[x];
            let size = engine.ships[x].size();
            proof {
                assert(engine.spec_fleet()[x as int].spec_code() == fleet_code(x as int));
                assert(code == fleet_hit_code(x as int));
                assert(run_fits(
                    engine.spec_rows(),
                    engine.spec_columns(),
                    engine.spec_anchor_row(x as int),
                    engine.spec_anchor_column(x as int),
                    engine.spec_horizontal(x as int),
                    fleet_size(x as int) as int,
                ));
            }
            let mut t: usize = 0;
            let mut count: u32 = 0;
            while t < size
                invariant
                    engine.layout_ok(),
                    engine.spec_placed() == FLEET_LEN,
                    x < FLEET_LEN,
                    size == fleet_size(x as int),
                    code == fleet_hit_code(x as int),
                    (anchor, direction) == engine.placements@[x as int],
                    t <= size,
                    count == engine.hit_cells(x as int, t as nat),
                    count <= t,
                decreases size - t,
            {
                let cell = if direction == Direction::Horizontal {
                    engine.board[anchor.row()][anchor.column() + t]
                } else {
                    engine.board[anchor.row() + t][anchor.column()]
                };
                proof {
                    engine.lemma_ship_cells_on_board(x as int, t as int);
                }
                if cell == code {
                    count = count + 1;
                }
                t = t + 1;
            }
            proof {
                assert(ship_hits@.push(count).drop_last() =~= ship_hits@);
            }
            ship_hits.push(count);
            total = total + count;
            x = x + 1;
        }
        proof {
            assert forall|e: BattleshipEngine|
                #[trigger] Self::made_of(e, rows, columns, layout@, board@, shots, hits, misses) implies {
                &&& hits == total
                &&& e.untouched() ==> misses == 0
                &&& (!any_resolved ==> e.untouched())
                &&& shots == hits + misses
                &&& stars <= misses
            } by {
                Self::lemma_same_covers(&e, &engine, layout@);
                assert forall|y: int| 0 <= y < FLEET_LEN implies #[trigger] e.spec_status().spec_statuses()[y].spec_hits() == ship_hits@[y] by {
                    assert forall|t: int|
                        0 <= t < fleet_size(y) implies engine.spec_cell(#[trigger] e.ship_cell(y, t).0, e.ship_cell(y, t).1)
                        == e.spec_cell(e.ship_cell(y, t).0, e.ship_cell(y, t).1) by {
                        e.lemma_ship_cells_on_board(y, t);
                    }
                    assert(e.same_anchor(&engine, y));
                    Self::lemma_hit_cells_same(&e, &engine, y, fleet_size(y));
                }
                Self::lemma_sums_agree(e.spec_status().spec_statuses(), ship_hits@);
                Self::lemma_miss_cells_same(&e, &engine);
                if !any_resolved {
                    assert forall|r: int, c: int| e.on_board(r, c) implies !resolved(#[trigger] e.spec_cell(r, c)) by {
                        assert(e.spec_cell(r, c) == board@[r]@[c]);
                    }
                }
            }
        }
        if hits != total || (!any_resolved && misses != 0) || shots as u64 != hits as u64 + misses as u64
            || stars > misses as u64 {
            return None;
        }
        let status = GameStatus::with_counts(engine.ships.as_slice(), ship_hits.as_slice(), misses);
        let ghost before = engine;
        engine.game_status = status;
        proof {
            assert forall|r: int, c: int| #[trigger] engine.spec_cell(r, c) == before.spec_cell(r, c) by {}
            engine.lemma_same_placements(&before);
            assert forall|y: int| 0 <= y < FLEET_LEN implies #[trigger] engine.spec_status().spec_statuses()[y].spec_hits()
                == engine.hit_cells(y, fleet_size(y)) by {
                assert(engine.same_anchor(&before, y));
                Self::lemma_hit_cells_same(&before, &engine, y, fleet_size(y));
                assert(status.spec_statuses()[y].spec_name() == status.spec_statuses()[y].spec_name());
                assert(engine.spec_status().spec_statuses()[y].spec_hits() == ship_hits@[y]);
            }
            assert forall|k: int| 0 <= k < FLEET_LEN implies {
                &&& #[trigger] engine.spec_anchor_row(k) == layout@[k].0
                &&& engine.spec_anchor_column(k) == layout@[k].1
                &&& engine.spec_horizontal(k) == (layout@[k].2 == Direction::Horizontal)
            } by {
                assert(before.spec_anchor_row(k) == layout@[k].0);
            }
            assert forall|r: int, c: int| engine.on_board(r, c) implies #[trigger] engine.spec_cell(r, c) == board@[r]@[c] by {
                assert(before.spec_cell(r, c) == board@[r]@[c]);
            }
            if engine.untouched() {
                assert forall|r: int, c: int| 0 <= r < rows && 0 <= c < columns implies !resolved(#[trigger] board@[r]@[c]) by {
                    assert(engine.spec_cell(r, c) == board@[r]@[c]);
                }
                if any_resolved {
                    let (k, l) = choose|k: int, l: int|
                        0 <= k < rows && 0 <= l < columns && resolved(#[trigger] board@[k]@[l]);
                    assert(engine.spec_cell(k, l) == board@[k]@[l]);
                }
            }
        }
        assert(before.layout_ok());
        assert(engine.layout_ok()) by {
            assert forall|r: int, c: int|
                engine.on_board(r, c) implies Self::cell_follows(fresh.spec_cell(r, c), #[trigger] engine.spec_cell(r, c)) by {
                assert(engine.spec_cell(r, c) == board@[r]@[c]);
                assert(Self::cell_follows(fresh.spec_cell(r, c), board@[r]@[c]));
            }
            Self::lemma_overlay(&engine, &fresh);
        }
        assert(engine.spec_status().wf());
        assert(engine.statuses_ok());
        assert(engine.untouched() ==> engine.spec_status().spec_misses() == 0);
        proof {
            Self::lemma_miss_cells_same(&before, &engine);
        }
        assert(engine.wf());
        assert(engine.anchors_follow(layout@, FLEET_LEN as int));
        assert(forall|k: int| 0 <= k < rows ==> (#[trigger] board@[k])@.len() == columns);
        Some(engine)
    }

    /// All of the first `n` cells of ship `i` are hit exactly when all of them
    /// count as hit.
    proof fn lemma_hit_cells_full(&self, i: int, n: nat)
        ensures
            self.hit_cells(i, n) == n <==> forall|t: int|
                0 <= t < n ==> self.spec_cell(#[trigger] self.ship_cell(i, t).0, self.ship_cell(i, t).1)
                    == fleet_hit_code(i),
        decreases n,
    {
        if n > 0 {
            self.lemma_hit_cells_full(i, (n - 1) as nat);
            self.lemma_hit_cells_bounded(i, (n - 1) as nat);
        }
    }

    /// A ship is sunk exactly when no cell of the board still shows its unhit code.
    pub proof fn lemma_sunk_iff_no_unhit_cell(e: &BattleshipEngine, i: int)
        requires
            e.wf(),
            0 <= i < FLEET_LEN,
        ensures
            e.spec_status().spec_statuses()[i].spec_sunk() <==> forall|r: int, c: int|
                e.on_board(r, c) ==> #[trigger] e.spec_cell(r, c) != fleet_code(i),
    {
        let n = fleet_size(i);
        e.lemma_hit_cells_full(i, n);
        if e.hit_cells(i, n) == n {
            assert forall|r: int, c: int| e.on_board(r, c) implies #[trigger] e.spec_cell(r, c) != fleet_code(i) by {
                if e.spec_cell(r, c) == fleet_code(i) {
                    let j = choose|j: int| 0 <= j < e.spec_placed() && #[trigger] e.covers(j, r, c);
                    assert(j == i);
                    let t = if e.spec_horizontal(i) {
                        c - e.spec_anchor_column(i)
                    } else {
                        r - e.spec_anchor_row(i)
                    };
                    assert(0 <= t < n);
                    assert(e.ship_cell(i, t) == (r, c));
                    assert(e.spec_cell(e.ship_cell(i, t).0, e.ship_cell(i, t).1) == fleet_hit_code(i));
                    assert(false);
                }
            }
        }
        if forall|r: int, c: int| e.on_board(r, c) ==> #[trigger] e.spec_cell(r, c) != fleet_code(i) {
            assert forall|t: int|
                0 <= t < n implies e.spec_cell(#[trigger] e.ship_cell(i, t).0, e.ship_cell(i, t).1)
                == fleet_hit_code(i) by {
                e.lemma_ship_cells_on_board(i, t);
            }
        }
    }

    /// Number of miss symbols among the first `n` cells of row `r`.
    pub open spec fn row_misses(&self, r: int, n: nat) -> nat
        decreases n,
    {
        if n == 0 {
            0
        } else {
            self.row_misses(r, (n - 1) as nat) + if self.spec_cell(r, n - 1) == MISS_CODE {
                1nat
            } else {
                0nat
            }
        }
    }

    /// Number of miss symbols in the first `m` rows.
    pub open spec fn board_misses(&self, m: nat) -> nat
        decreases m,
    {
        if m == 0 {
            0
        } else {
            self.board_misses((m - 1) as nat) + self.row_misses(m - 1, self.spec_columns() as nat)
        }
    }

    /// Number of miss symbols on the board.
    pub open spec fn miss_cells(&self) -> nat {
        self.board_misses(self.spec_rows() as nat)
    }

    proof fn lemma_row_misses_delta(a: &Self, b: &Self, r: int, n: nat, c0: int)
        requires
            forall|c: int| 0 <= c < n && c != c0 ==> #[trigger] b.spec_cell(r, c) == a.spec_cell(r, c),
        ensures
            !(0 <= c0 < n) ==> b.row_misses(r, n) == a.row_misses(r, n),
            0 <= c0 < n ==> b.row_misses(r, n) + (if a.spec_cell(r, c0) == MISS_CODE { 1int } else { 0int })
                == a.row_misses(r, n) + (if b.spec_cell(r, c0) == MISS_CODE { 1int } else { 0int }),
        decreases n,
    {
        if n > 0 {
            Self::lemma_row_misses_delta(a, b, r, (n - 1) as nat, c0);
        }
    }

    proof fn lemma_board_misses_delta(a: &Self, b: &Self, m: nat, r0: int, c0: int)
        requires
            a.spec_columns() == b.spec_columns(),
            0 <= c0 < a.spec_columns(),
            forall|r: int, c: int|
                0 <= r < m && 0 <= c < a.spec_columns() && (r != r0 || c != c0) ==> #[trigger] b.spec_cell(r, c)
                    == a.spec_cell(r, c),
        ensures
            !(0 <= r0 < m) ==> b.board_misses(m) == a.board_misses(m),
            0 <= r0 < m ==> b.board_misses(m) + (if a.spec_cell(r0, c0) == MISS_CODE { 1int } else { 0int })
                == a.board_misses(m) + (if b.spec_cell(r0, c0) == MISS_CODE { 1int } else { 0int }),
        decreases m,
    {
        if m > 0 {
            Self::lemma_board_misses_delta(a, b, (m - 1) as nat, r0, c0);
            let r = m - 1;
            if r == r0 {
                Self::lemma_row_misses_delta(a, b, r, a.spec_columns() as nat, c0);
            } else {
                Self::lemma_row_misses_delta(a, b, r, a.spec_columns() as nat, -1);
            }
        }
    }

    /// States that differ in at most the cell `(r0, c0)` count misses alike,
    /// but for that cell.
    proof fn lemma_miss_cells_delta(a: &Self, b: &Self, r0: int, c0: int)
        requires
            a.spec_rows() == b.spec_rows(),
            a.spec_columns() == b.spec_columns(),
            a.on_board(r0, c0),
            forall|r: int, c: int|
                a.on_board(r, c) && (r != r0 || c != c0) ==> #[trigger] b.spec_cell(r, c) == a.spec_cell(r, c),
        ensures
            b.miss_cells() + (if a.spec_cell(r0, c0) == MISS_CODE { 1int } else { 0int }) == a.miss_cells()
                + (if b.spec_cell(r0, c0) == MISS_CODE { 1int } else { 0int }),
    {
        Self::lemma_board_misses_delta(a, b, a.spec_rows() as nat, r0, c0);
    }

    /// States with the same cells count the same misses.
    proof fn lemma_miss_cells_same(a: &Self, b: &Self)
        requires
            a.spec_rows() == b.spec_rows(),
            a.spec_columns() == b.spec_columns(),
            0 < a.spec_columns(),
            forall|r: int, c: int| a.on_board(r, c) ==> #[trigger] b.spec_cell(r, c) == a.spec_cell(r, c),
        ensures
            b.miss_cells() == a.miss_cells(),
    {
        Self::lemma_board_misses_delta(a, b, a.spec_rows() as nat, -1, 0);
    }

    /// A board without miss symbols counts none.
    proof fn lemma_no_miss_cells(a: &Self, m: nat)
        requires
            m <= a.spec_rows(),
            0 <= a.spec_columns(),
            forall|r: int, c: int| a.on_board(r, c) ==> #[trigger] a.spec_cell(r, c) != MISS_CODE,
        ensures
            a.board_misses(m) == 0,
        decreases m,
    {
        if m > 0 {
            Self::lemma_no_miss_cells(a, (m - 1) as nat);
            Self::lemma_row_zero(a, m - 1, a.spec_columns() as nat);
        }
    }

    proof fn lemma_row_zero(a: &Self, r: int, n: nat)
        requires
            0 <= r < a.spec_rows(),
            n <= a.spec_columns(),
            forall|r2: int, c: int| a.on_board(r2, c) ==> #[trigger] a.spec_cell(r2, c) != MISS_CODE,
        ensures
            a.row_misses(r, n) == 0,
        decreases n,
    {
        if n > 0 {
            Self::lemma_row_zero(a, r, (n - 1) as nat);
            assert(a.spec_cell(r, n - 1) != MISS_CODE);
        }
    }

    /// Placing the next ship where `layout` says extends the part of the fleet
    /// that follows `layout` by one ship.
    proof fn lemma_anchors_extend(post: &Self, pre: &Self, layout: Seq<(usize, usize, Direction)>, n: int)
        requires
            0 <= n,
            pre.spec_placed() == n,
            pre.anchors_follow(layout, n),
            post.spec_placed() == n + 1,
            post.placements@.subrange(0, n) == pre.placements@,
            post.spec_anchor_row(n) == layout[n].0,
            post.spec_anchor_column(n) == layout[n].1,
            post.spec_horizontal(n) == (layout[n].2 == Direction::Horizontal),
        ensures
            post.anchors_follow(layout, n + 1),
    {
        assert forall|i: int|
            0 <= i < n + 1 implies {
            &&& #[trigger] post.spec_anchor_row(i) == layout[i].0
            &&& post.spec_anchor_column(i) == layout[i].1
            &&& post.spec_horizontal(i) == (layout[i].2 == Direction::Horizontal)
        } by {
            if i < n {
                assert(post.placements@.subrange(0, n)[i] == post.placements@[i]);
                assert(pre.spec_anchor_row(i) == layout[i].0);
            }
        }
    }
}

} // verus!
