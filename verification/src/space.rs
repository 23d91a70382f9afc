//! The bounded simulation grid: a rectangular array of cells addressed by
//! `(x, y)`, together with a generation store for time navigation and the
//! rule engine that advances the automaton one generation at a time.

use vstd::prelude::*;
use crate::space::cell::{spec_aged, Cell, ALIVE_STATE};
use rayon::iter::{IntoParallelIterator, ParallelIterator};
use crate::space::history::{
    empty_history, history_contains, history_entries, history_insert, history_len, history_lookup,
    history_new, history_remove, HistoryMap,
};
use crate::space::shuffle::{fresh_rng, shuffle_indices};

pub mod cell;
pub mod history;
pub mod io;
pub mod shuffle;

verus! {

/// A grid coordinate: column `x`, then row `y`.
pub type Coord = (u16, u16);

/// Error returned by every coordinate-addressed accessor when the coordinate
/// falls outside the current grid dimensions.
#[derive(Debug)]
pub struct OutOfBoundsError {
    pub message: String,
}

impl OutOfBoundsError {
    pub fn new(message: &str) -> (e: OutOfBoundsError)
        ensures
            e.message@ == message@,
    {
        OutOfBoundsError { message: message.to_owned() }
    }
}

/// A rectangular grid of cells, indexed column first: `cells[x][y]`.
/// Dimensions are fixed after construction; resizing always builds a new
/// grid. The generation store maps each saved generation index to the list
/// of coordinates that were alive then, and `displayed_time` is the
/// generation currently shown or edited.
pub struct Space {
    pub cells: Vec<Vec<Cell>>,
    pub states_hash_map: HistoryMap,
    pub displayed_time: usize,
}

impl Space {
    /// Number of columns.
    pub open spec fn spec_x_dim(&self) -> int {
        self.cells@.len() as int
    }

    /// Number of rows; every column has this length in a well-formed grid.
    pub open spec fn spec_y_dim(&self) -> int {
        self.cells@[0]@.len() as int
    }

    pub open spec fn in_bounds(&self, x: int, y: int) -> bool {
        0 <= x < self.spec_x_dim() && 0 <= y < self.spec_y_dim()
    }

    pub open spec fn state_at(&self, x: int, y: int) -> u8 {
        self.cells@[x]@[y].state
    }

    pub open spec fn alive_at(&self, x: int, y: int) -> bool {
        self.state_at(x, y) == ALIVE_STATE
    }

    /// The generation store as a mathematical map.
    pub open spec fn history(&self) -> Map<int, Seq<Coord>> {
        history_entries(self.states_hash_map)
    }

    /// The grid is rectangular, at least 1 x 1, fits `u16` coordinates, and
    /// every cell records its own position.
    pub open spec fn wf_grid(&self) -> bool {
        &&& 1 <= self.spec_x_dim() <= u16::MAX
        &&& 1 <= self.spec_y_dim() <= u16::MAX
        &&& forall|x: int|
            0 <= x < self.spec_x_dim() ==> (#[trigger] self.cells@[x])@.len() == self.spec_y_dim()
        &&& forall|x: int, y: int|
            self.in_bounds(x, y) ==> {
                let c = #[trigger] self.cells@[x]@[y];
                c.x == x && c.y == y
            }
    }

    /// The generation store holds finitely many entries, keyed by machine
    /// integers, and every recorded coordinate lies inside the grid.
    pub open spec fn wf_history(&self) -> bool {
        &&& self.history().dom().finite()
        &&& forall|t: int| #[trigger] self.history().dom().contains(t) ==> 0 <= t <= usize::MAX
        &&& forall|t: int, i: int|
            self.history().dom().contains(t) && 0 <= i < self.history()[t].len() ==> {
                let p = #[trigger] self.history()[t][i];
                self.in_bounds(p.0 as int, p.1 as int)
            }
    }

    pub open spec fn wf(&self) -> bool {
        self.wf_grid() && self.wf_history()
    }

    /// Builds an `x_dim` by `y_dim` grid of dead cells, seeds generation 0
    /// with an empty alive set, and shows time 0.
    pub fn new(x_dim: u16, y_dim: u16) -> (s: Space)
        requires
            x_dim >= 1,
            y_dim >= 1,
        ensures
            s.wf(),
            s.spec_x_dim() == x_dim,
            s.spec_y_dim() == y_dim,
            forall|x: int, y: int| s.in_bounds(x, y) ==> s.state_at(x, y) == 0,
            s.history() == empty_history().insert(0, Seq::empty()),
            s.displayed_time == 0,
    {
        let mut cells: Vec<Vec<Cell>> = Vec::new();
        let mut x: u16 = 0;
        while x < x_dim
            invariant
                x <= x_dim,
                cells@.len() == x as int,
                forall|i: int|
                    0 <= i < x as int ==> (#[trigger] cells@[i])@.len() == y_dim as int,
                forall|i: int, j: int|
                    0 <= i < x as int && 0 <= j < y_dim as int ==> (#[trigger] cells@[i]@[j]) == (Cell {
                        x: i as u16,
                        y: j as u16,
                        state: 0u8,
                    }),
            decreases x_dim - x,
        {
            let mut column: Vec<Cell> = Vec::new();
            let mut y: u16 = 0;
            while y < y_dim
                invariant
                    y <= y_dim,
                    column@.len() == y as int,
                    forall|j: int|
                        0 <= j < y as int ==> (#[trigger] column@[j]) == (Cell {
                            x,
                            y: j as u16,
                            state: 0u8,
                        }),
                decreases y_dim - y,
            {
                column.push(Cell::new(x, y, 0));
                y = y + 1;
            }
            cells.push(column);
            x = x + 1;
        }
        let mut states_hash_map = history_new();
        history_insert(&mut states_hash_map, 0, Vec::new());
        Space { cells, states_hash_map, displayed_time: 0 }
    }

    pub fn x_dim(&self) -> (r: u16)
        requires
            self.wf_grid(),
        ensures
            r as int == self.spec_x_dim(),
    {
        self.cells.len() as u16
    }

    pub fn y_dim(&self) -> (r: u16)
        requires
            self.wf_grid(),
        ensures
            r as int == self.spec_y_dim(),
    {
        self.cells[0].len() as u16
    }

    /// Bounds-checked read access to a cell.
    pub fn get_cell(&self, x: u16, y: u16) -> (r: Result<&Cell, OutOfBoundsError>)
        requires
            self.wf_grid(),
        ensures
            r is Ok <==> self.in_bounds(x as int, y as int),
            r matches Ok(c) ==> *c == self.cells@[x as int]@[y as int],
            r matches Err(e) ==> e.message@ == "Index out of bounds!"@,
    {
        if x < self.x_dim() && y < self.y_dim() {
            Ok(&self.cells[x as usize][y as usize])
        } else {
            Err(OutOfBoundsError::new("Index out of bounds!"))
        }
    }

    /// Whether the cell at the given in-bounds coordinate is alive.
    pub fn check_cell_is_alive(&self, x: u16, y: u16) -> (r: bool)
        requires
            self.wf_grid(),
            self.in_bounds(x as int, y as int),
        ensures
            r == self.alive_at(x as int, y as int),
    {
        let cell = match self.get_cell(x, y) {
            Ok(c) => c,
            Err(_) => {
                proof {
                    assert(false);
                }
                &self.cells[0][0]
            },
        };
        cell.is_alive()
    }

    /// `post` is `pre` with exactly the state of cell `(x, y)` replaced by
    /// `s`; everything else, the generation store and the displayed time
    /// included, is unchanged.
    pub open spec fn updated_state(pre: &Space, post: &Space, x: int, y: int, s: u8) -> bool {
        &&& post.spec_x_dim() == pre.spec_x_dim()
        &&& post.spec_y_dim() == pre.spec_y_dim()
        &&& forall|i: int|
            0 <= i < pre.cells@.len() ==> (#[trigger] post.cells@[i])@.len()
                == pre.cells@[i]@.len()
        &&& forall|i: int, j: int|
            pre.in_bounds(i, j) && !(i == x && j == y) ==> (#[trigger] post.cells@[i]@[j])
                == pre.cells@[i]@[j]
        &&& post.cells@[x]@[y] == (Cell { x: x as u16, y: y as u16, state: s })
        &&& post.states_hash_map == pre.states_hash_map
        &&& post.displayed_time == pre.displayed_time
    }

    /// Bounds-checked mutable access to a cell.
    pub fn get_cell_mut(&mut self, x: u16, y: u16) -> (r: Result<&mut Cell, OutOfBoundsError>)
        requires
            old(self).wf_grid(),
        ensures
            r is Ok <==> old(self).in_bounds(x as int, y as int),
            r matches Ok(c) ==> {
                &&& *c == old(self).cells@[x as int]@[y as int]
                &&& final(self).cells@.len() == old(self).cells@.len()
                &&& forall|i: int|
                    0 <= i < old(self).cells@.len() && i != x as int
                        ==> final(self).cells@[i] == old(self).cells@[i]
                &&& final(self).cells@[x as int]@ == old(self).cells@[x as int]@.update(
                    y as int,
                    *final(c),
                )
                &&& final(self).states_hash_map == old(self).states_hash_map
                &&& final(self).displayed_time == old(self).displayed_time
            },
            r matches Err(e) ==> *final(self) == *old(self) && e.message@
                == "Index out of bounds!"@,
    {
        if x < self.x_dim() && y < self.y_dim() {
            Ok(&mut self.cells[x as usize][y as usize])
        } else {
            Err(OutOfBoundsError::new("Index out of bounds!"))
        }
    }

    /// Bounds-checked revival of a single cell, the edit operation the
    /// interactive layer uses.
    pub fn revive_cell(&mut self, x: u16, y: u16) -> (r: Result<(), OutOfBoundsError>)
        requires
            old(self).wf(),
        ensures
            final(self).wf(),
            r is Ok <==> old(self).in_bounds(x as int, y as int),
            r is Ok ==> Self::updated_state(old(self), final(self), x as int, y as int, ALIVE_STATE),
            r matches Err(e) ==> *final(self) == *old(self) && e.message@
                == "Index out of bounds!"@,
    {
        let ghost pre = *self;
        match self.get_cell_mut(x, y) {
            Ok(c) => {
                c.revive();
                proof {
                    lemma_updated_state_preserves_wf(
                        &pre,
                        self,
                        x as int,
                        y as int,
                        ALIVE_STATE,
                    );
                }
                Ok(())
            },
            Err(e) => Err(e),
        }
    }

    /// Bounds-checked kill of a single cell, the other edit operation the
    /// interactive layer uses.
    pub fn kill_cell(&mut self, x: u16, y: u16) -> (r: Result<(), OutOfBoundsError>)
        requires
            old(self).wf(),
        ensures
            final(self).wf(),
            r is Ok <==> old(self).in_bounds(x as int, y as int),
            r is Ok ==> Self::updated_state(old(self), final(self), x as int, y as int, 0),
            r matches Err(e) ==> *final(self) == *old(self) && e.message@
                == "Index out of bounds!"@,
    {
        let ghost pre = *self;
        match self.get_cell_mut(x, y) {
            Ok(c) => {
                c.kill();
                proof {
                    lemma_updated_state_preserves_wf(&pre, self, x as int, y as int, 0);
                }
                Ok(())
            },
            Err(e) => Err(e),
        }
    }

    /// Bounds-checked aging of a single cell by one step.
    pub fn let_cell_age(&mut self, x: u16, y: u16) -> (r: Result<(), OutOfBoundsError>)
        requires
            old(self).wf(),
        ensures
            final(self).wf(),
            r is Ok <==> old(self).in_bounds(x as int, y as int),
            r is Ok ==> Self::updated_state(
                old(self),
                final(self),
                x as int,
                y as int,
                spec_aged(old(self).state_at(x as int, y as int)),
            ),
            r matches Err(e) ==> *final(self) == *old(self) && e.message@
                == "Index out of bounds!"@,
    {
        let ghost pre = *self;
        match self.get_cell_mut(x, y) {
            Ok(c) => {
                c.age();
                proof {
                    lemma_updated_state_preserves_wf(
                        &pre,
                        self,
                        x as int,
                        y as int,
                        spec_aged(pre.state_at(x as int, y as int)),
                    );
                }
                Ok(())
            },
            Err(e) => Err(e),
        }
    }

    /// Sets every cell of the grid to the fully dead state; the generation
    /// store and the displayed time are untouched.
    pub fn kill_all_cells(&mut self)
        requires
            old(self).wf(),
        ensures
            final(self).wf(),
            final(self).spec_x_dim() == old(self).spec_x_dim(),
            final(self).spec_y_dim() == old(self).spec_y_dim(),
            forall|x: int, y: int|
                final(self).in_bounds(x, y) ==> final(self).state_at(x, y) == 0,
            final(self).states_hash_map == old(self).states_hash_map,
            final(self).displayed_time == old(self).displayed_time,
    {
        let x_dim = self.x_dim();
        let y_dim = self.y_dim();
        let ghost pre = *self;
        let mut x: u16 = 0;
        while x < x_dim
            invariant
                pre.wf(),
                x_dim as int == pre.spec_x_dim(),
                y_dim as int == pre.spec_y_dim(),
                x <= x_dim,
                self.wf(),
                self.spec_x_dim() == pre.spec_x_dim(),
                self.spec_y_dim() == pre.spec_y_dim(),
                self.states_hash_map == pre.states_hash_map,
                self.displayed_time == pre.displayed_time,
                forall|i: int, j: int|
                    self.in_bounds(i, j) && i < x as int ==> self.state_at(i, j) == 0,
            decreases x_dim - x,
        {
            let mut y: u16 = 0;
            while y < y_dim
                invariant
                    pre.wf(),
                    x_dim as int == pre.spec_x_dim(),
                    y_dim as int == pre.spec_y_dim(),
                    x < x_dim,
                    y <= y_dim,
                    self.wf(),
                    self.spec_x_dim() == pre.spec_x_dim(),
                    self.spec_y_dim() == pre.spec_y_dim(),
                    self.states_hash_map == pre.states_hash_map,
                    self.displayed_time == pre.displayed_time,
                    forall|i: int, j: int|
                        self.in_bounds(i, j) && i < x as int ==> self.state_at(i, j) == 0,
                    forall|j: int| 0 <= j < y as int ==> self.state_at(x as int, j) == 0,
                decreases y_dim - y,
            {
                let ghost mid = *self;
                let c = &mut self.cells[x as usize][y as usize];
                c.kill();
                proof {
                    lemma_updated_state_preserves_wf(&mid, self, x as int, y as int, 0);
                    assert forall|i: int, j: int|
                        self.in_bounds(i, j) && (i < x as int || (i == x as int && j < y as int
                            + 1)) implies self.state_at(i, j) == 0 by {
                        if !(i == x as int && j == y as int) {
                            assert(self.cells@[i]@[j] == mid.cells@[i]@[j]);
                            assert(mid.state_at(i, j) == 0);
                        }
                    }
                }
                y = y + 1;
            }
            x = x + 1;
        }
    }

    /// Coordinates, in column-major order (x outer, y inner), of the alive
    /// cells of column `x` among rows `0 .. y`.
    pub open spec fn alive_in_col(&self, x: int, y: int) -> Seq<Coord>
        decreases y,
    {
        if y <= 0 {
            Seq::empty()
        } else {
            self.alive_in_col(x, y - 1) + if self.alive_at(x, y - 1) {
                seq![((x as u16), ((y - 1) as u16))]
            } else {
                Seq::empty()
            }
        }
    }

    /// Coordinates of the alive cells of the full columns `0 .. x`.
    pub open spec fn alive_upto(&self, x: int) -> Seq<Coord>
        decreases x,
    {
        if x <= 0 {
            Seq::empty()
        } else {
            self.alive_upto(x - 1) + self.alive_in_col(x - 1, self.spec_y_dim())
        }
    }

    /// All alive-cell coordinates, in column-major order: the reference
    /// order of the bulk queries and of saved generations.
    pub open spec fn alive_seq(&self) -> Seq<Coord> {
        self.alive_upto(self.spec_x_dim())
    }

    /// The cells of column `x` among rows `0 .. y` that hold any energy.
    pub open spec fn energy_in_col(&self, x: int, y: int) -> Seq<Cell>
        decreases y,
    {
        if y <= 0 {
            Seq::empty()
        } else {
            self.energy_in_col(x, y - 1) + if self.state_at(x, y - 1) > 0 {
                seq![self.cells@[x]@[y - 1]]
            } else {
                Seq::empty()
            }
        }
    }

    /// The cells with any energy of the full columns `0 .. x`.
    pub open spec fn energy_upto(&self, x: int) -> Seq<Cell>
        decreases x,
    {
        if x <= 0 {
            Seq::empty()
        } else {
            self.energy_upto(x - 1) + self.energy_in_col(x - 1, self.spec_y_dim())
        }
    }

    /// All cells with state above 0 (alive or still fading), column-major.
    pub open spec fn spec_energy_cells(&self) -> Seq<Cell> {
        self.energy_upto(self.spec_x_dim())
    }

    /// All alive-cell coordinates as a vector, in column-major order.
    pub fn alive_coords(&self) -> (r: Vec<Coord>)
        requires
            self.wf_grid(),
        ensures
            r@ == self.alive_seq(),
    {
        let x_dim = self.x_dim();
        let y_dim = self.y_dim();
        let mut r: Vec<Coord> = Vec::new();
        let mut x: u16 = 0;
        while x < x_dim
            invariant
                self.wf_grid(),
                x_dim as int == self.spec_x_dim(),
                y_dim as int == self.spec_y_dim(),
                x <= x_dim,
                r@ == self.alive_upto(x as int),
            decreases x_dim - x,
        {
            let mut y: u16 = 0;
            while y < y_dim
                invariant
                    self.wf_grid(),
                    x_dim as int == self.spec_x_dim(),
                    y_dim as int == self.spec_y_dim(),
                    x < x_dim,
                    y <= y_dim,
                    r@ == self.alive_upto(x as int) + self.alive_in_col(x as int, y as int),
                decreases y_dim - y,
            {
                if self.cells[x as usize][y as usize].is_alive() {
                    r.push((x, y));
                }
                proof {
                    assert(r@ =~= self.alive_upto(x as int) + self.alive_in_col(
                        x as int,
                        y as int + 1,
                    ));
                }
                y = y + 1;
            }
            proof {
                assert(r@ =~= self.alive_upto(x as int + 1));
            }
            x = x + 1;
        }
        r
    }

    /// All alive cells, as copies, in column-major order.
    pub fn get_alive_cells(&self) -> (r: Vec<Cell>)
        requires
            self.wf_grid(),
        ensures
            r@.len() == self.alive_seq().len(),
            forall|i: int|
                0 <= i < r@.len() ==> (#[trigger] r@[i]) == (Cell {
                    x: self.alive_seq()[i].0,
                    y: self.alive_seq()[i].1,
                    state: ALIVE_STATE,
                }),
    {
        let coords = self.alive_coords();
        let mut r: Vec<Cell> = Vec::new();
        let mut i: usize = 0;
        while i < coords.len()
            invariant
                coords@ == self.alive_seq(),
                i <= coords@.len(),
                r@.len() == i as int,
                forall|k: int|
                    0 <= k < i as int ==> (#[trigger] r@[k]) == (Cell {
                        x: self.alive_seq()[k].0,
                        y: self.alive_seq()[k].1,
                        state: ALIVE_STATE,
                    }),
            decreases coords@.len() - i,
        {
            let p = coords[i];
            r.push(Cell::new(p.0, p.1, ALIVE_STATE));
            i = i + 1;
        }
        r
    }

    /// Number of alive cells in the grid.
    pub fn get_num_alive_cells(&self) -> (r: usize)
        requires
            self.wf_grid(),
        ensures
            r == self.alive_seq().len(),
    {
        self.alive_coords().len()
    }

    /// All cells with residual energy (state above 0), as copies, with their
    /// numeric state, in column-major order.
    pub fn get_cells_with_energy(&self) -> (r: Vec<Cell>)
        requires
            self.wf_grid(),
        ensures
            r@ == self.spec_energy_cells(),
    {
        let x_dim = self.x_dim();
        let y_dim = self.y_dim();
        let mut r: Vec<Cell> = Vec::new();
        let mut x: u16 = 0;
        while x < x_dim
            invariant
                self.wf_grid(),
                x_dim as int == self.spec_x_dim(),
                y_dim as int == self.spec_y_dim(),
                x <= x_dim,
                r@ == self.energy_upto(x as int),
            decreases x_dim - x,
        {
            let mut y: u16 = 0;
            while y < y_dim
                invariant
                    self.wf_grid(),
                    x_dim as int == self.spec_x_dim(),
                    y_dim as int == self.spec_y_dim(),
                    x < x_dim,
                    y <= y_dim,
                    r@ == self.energy_upto(x as int) + self.energy_in_col(x as int, y as int),
                decreases y_dim - y,
            {
                let c = self.cells[x as usize][y as usize];
                if c.get_state() > 0 {
                    r.push(c);
                }
                proof {
                    assert(r@ =~= self.energy_upto(x as int) + self.energy_in_col(
                        x as int,
                        y as int + 1,
                    ));
                }
                y = y + 1;
            }
            proof {
                assert(r@ =~= self.energy_upto(x as int + 1));
            }
            x = x + 1;
        }
        r
    }

    /// Revives `min(num_cells, total cells)` distinct cells, chosen by a
    /// fair shuffle of all cell indices. Which cells come up is chance, so
    /// the contract states what holds of every outcome: some
    /// duplicate-free list of that many in-bounds coordinates is revived,
    /// and nothing else changes.
    pub fn revive_random_cells(&mut self, num_cells: usize)
        requires
            old(self).wf(),
        ensures
            final(self).wf(),
            final(self).spec_x_dim() == old(self).spec_x_dim(),
            final(self).spec_y_dim() == old(self).spec_y_dim(),
            final(self).states_hash_map == old(self).states_hash_map,
            final(self).displayed_time == old(self).displayed_time,
            exists|chosen: Seq<Coord>|
                {
                    &&& chosen.no_duplicates()
                    &&& chosen.len() == vstd::math::min(
                        num_cells as int,
                        old(self).spec_x_dim() * old(self).spec_y_dim(),
                    )
                    &&& (forall|j: int|
                        0 <= j < chosen.len() ==> old(self).in_bounds(
                            (#[trigger] chosen[j]).0 as int,
                            chosen[j].1 as int,
                        ))
                    &&& (forall|x: int, y: int|
                        old(self).in_bounds(x, y) ==> final(self).state_at(x, y) == (
                        if chosen.contains(((x as u16), (y as u16))) {
                            ALIVE_STATE as u8
                        } else {
                            old(self).state_at(x, y)
                        }))
                },
    {
        let x_dim = self.x_dim();
        let y_dim = self.y_dim();
        let ghost xdi = x_dim as int;
        let ghost ydi = y_dim as int;
        proof {
            assert(xdi * ydi <= 0xffff * 0xffff) by (nonlinear_arith)
                requires
                    1 <= xdi <= 0xffff,
                    1 <= ydi <= 0xffff,
            ;
            assert(xdi * ydi >= 1) by (nonlinear_arith)
                requires
                    1 <= xdi,
                    1 <= ydi,
            ;
        }
        let total: usize = (x_dim as usize) * (y_dim as usize);
        let mut indices: Vec<usize> = Vec::new();
        let mut k: usize = 0;
        while k < total
            invariant
                k <= total,
                indices@.len() == k as int,
                forall|j: int| 0 <= j < k as int ==> #[trigger] indices@[j] == j,
            decreases total - k,
        {
            indices.push(k);
            k = k + 1;
        }
        let ghost orig = indices@;
        let mut rng = fresh_rng();
        shuffle_indices(&mut indices, &mut rng);
        proof {
            broadcast use vstd::seq_lib::group_to_multiset_ensures;

            assert(orig.no_duplicates());
            orig.lemma_multiset_has_no_duplicates();
            indices@.lemma_multiset_has_no_duplicates_conv();
            assert forall|j: int| 0 <= j < indices@.len() implies #[trigger] indices@[j]
                < total by {
                assert(indices@.contains(indices@[j]));
                assert(indices@.to_multiset().contains(indices@[j]));
                assert(orig.to_multiset().contains(indices@[j]));
                assert(orig.contains(indices@[j]));
                let jj = choose|jj: int| 0 <= jj < orig.len() && orig[jj] == indices@[j];
                assert(orig[jj] == jj);
            }
        }
        let m = if num_cells < total {
            num_cells
        } else {
            total
        };
        let ghost pre = *self;
        let ghost mut chosen: Seq<Coord> = Seq::empty();
        let mut i: usize = 0;
        while i < m
            invariant
                pre.wf(),
                x_dim as int == pre.spec_x_dim(),
                y_dim as int == pre.spec_y_dim(),
                total as int == pre.spec_x_dim() * pre.spec_y_dim(),
                m as int == vstd::math::min(num_cells as int, total as int),
                indices@.len() == total as int,
                forall|j: int| 0 <= j < indices@.len() ==> #[trigger] indices@[j] < total,
                indices@.no_duplicates(),
                m <= total,
                i <= m,
                self.wf(),
                self.spec_x_dim() == pre.spec_x_dim(),
                self.spec_y_dim() == pre.spec_y_dim(),
                self.states_hash_map == pre.states_hash_map,
                self.displayed_time == pre.displayed_time,
                chosen.len() == i as int,
                forall|j: int|
                    0 <= j < i as int ==> #[trigger] chosen[j] == flat_coord(
                        pre.spec_y_dim(),
                        indices@[j] as int,
                    ),
                forall|j: int|
                    0 <= j < chosen.len() ==> pre.in_bounds(
                        (#[trigger] chosen[j]).0 as int,
                        chosen[j].1 as int,
                    ),
                chosen.no_duplicates(),
                forall|x: int, y: int|
                    pre.in_bounds(x, y) ==> self.state_at(x, y) == (if chosen.contains(
                        ((x as u16), (y as u16)),
                    ) {
                        ALIVE_STATE as u8
                    } else {
                        pre.state_at(x, y)
                    }),
            decreases m - i,
        {
            let k = indices[i];
            let cx = (k / (y_dim as usize)) as u16;
            let cy = (k % (y_dim as usize)) as u16;
            proof {
                let ki = k as int;
                let xd = pre.spec_x_dim();
                let yd = pre.spec_y_dim();
                assert(ki < yd * xd) by (nonlinear_arith)
                    requires
                        ki < xd * yd,
                ;
                vstd::arithmetic::div_mod::lemma_multiply_divide_lt(ki, yd, xd);
                vstd::arithmetic::div_mod::lemma_mod_division_less_than_divisor(ki, yd);
                assert(pre.in_bounds(cx as int, cy as int));
                assert((cx, cy) == flat_coord(pre.spec_y_dim(), k as int));
            }
            let ghost mid = *self;
            match self.revive_cell(cx, cy) {
                Ok(_) => (),
                Err(_) => proof {
                    assert(false);
                },
            }
            proof {
                broadcast use vstd::seq_lib::lemma_seq_contains_after_push;

                let p = ((cx, cy));
                assert forall|j: int| 0 <= j < i as int implies #[trigger] chosen[j] != p by {
                    lemma_flat_coord_injective(
                        pre.spec_y_dim(),
                        pre.spec_x_dim(),
                        indices@[j] as int,
                        k as int,
                    );
                }
                let prev = chosen;
                chosen = chosen.push(p);
                assert(chosen.drop_last() =~= prev);
                assert forall|x: int, y: int| pre.in_bounds(x, y) implies self.state_at(x, y)
                    == (if chosen.contains(((x as u16), (y as u16))) {
                    ALIVE_STATE as u8
                } else {
                    pre.state_at(x, y)
                }) by {
                    if !(x == cx as int && y == cy as int) {
                        assert(self.cells@[x]@[y] == mid.cells@[x]@[y]);
                        assert((((x as u16), (y as u16))) != p);
                    }
                }
            }
            i = i + 1;
        }
        proof {
            assert({
                &&& chosen.no_duplicates()
                &&& chosen.len() == vstd::math::min(
                    num_cells as int,
                    pre.spec_x_dim() * pre.spec_y_dim(),
                )
                &&& (forall|j: int|
                    0 <= j < chosen.len() ==> pre.in_bounds(
                        (#[trigger] chosen[j]).0 as int,
                        chosen[j].1 as int,
                    ))
                &&& (forall|x: int, y: int|
                    pre.in_bounds(x, y) ==> self.state_at(x, y) == (if chosen.contains(
                        ((x as u16), (y as u16)),
                    ) {
                        ALIVE_STATE as u8
                    } else {
                        pre.state_at(x, y)
                    }))
            });
        }
    }

    /// The Moore neighborhood of `(x, y)`: up to 8 coordinates, in the
    /// reference order N, NE, E, SE, S, SW, W, NW (with y growing
    /// downwards: first `(x, y+1)`, last `(x-1, y+1)`), omitting every
    /// candidate that falls outside the grid. No wraparound.
    pub open spec fn spec_neighbors(&self, x: int, y: int) -> Seq<(int, int)> {
        let xd = self.spec_x_dim();
        let yd = self.spec_y_dim();
        opt_coord(y + 1 < yd, (x, y + 1)) + opt_coord(x + 1 < xd && y + 1 < yd, (x + 1, y + 1))
            + opt_coord(x + 1 < xd, (x + 1, y)) + opt_coord(x + 1 < xd && y > 0, (x + 1, y - 1))
            + opt_coord(y > 0, (x, y - 1)) + opt_coord(x > 0 && y > 0, (x - 1, y - 1)) + opt_coord(
            x > 0,
            (x - 1, y),
        ) + opt_coord(x > 0 && y + 1 < yd, (x - 1, y + 1))
    }

    /// Number of alive cells among a sequence of in-bounds coordinates.
    pub open spec fn count_alive_in(&self, cs: Seq<(int, int)>) -> int
        decreases cs.len(),
    {
        if cs.len() == 0 {
            0
        } else {
            self.count_alive_in(cs.drop_last()) + if self.alive_at(cs.last().0, cs.last().1) {
                1int
            } else {
                0int
            }
        }
    }

    /// Number of alive Moore neighbors of `(x, y)`.
    pub open spec fn spec_alive_neighbors(&self, x: int, y: int) -> int {
        self.count_alive_in(self.spec_neighbors(x, y))
    }

    /// The Moore neighborhood of a grid cell, as copies, in the reference
    /// order, truncated at the edges of the grid.
    pub fn get_neighbors_vec(&self, cell: &Cell) -> (r: Vec<Cell>)
        requires
            self.wf_grid(),
            self.in_bounds(cell.x as int, cell.y as int),
        ensures
            r@.len() == self.spec_neighbors(cell.x as int, cell.y as int).len(),
            forall|i: int|
                0 <= i < r@.len() ==> (#[trigger] r@[i]) == self.cells@[self.spec_neighbors(
                    cell.x as int,
                    cell.y as int,
                )[i].0]@[self.spec_neighbors(cell.x as int, cell.y as int)[i].1],
    {
        let x = cell.x;
        let y = cell.y;
        let x_dim = self.x_dim();
        let y_dim = self.y_dim();
        let mut r: Vec<Cell> = Vec::new();
        if y + 1 < y_dim {
            r.push(self.cells[x as usize][(y + 1) as usize]);
        }
        if x + 1 < x_dim && y + 1 < y_dim {
            r.push(self.cells[(x + 1) as usize][(y + 1) as usize]);
        }
        if x + 1 < x_dim {
            r.push(self.cells[(x + 1) as usize][y as usize]);
        }
        if x + 1 < x_dim && y > 0 {
            r.push(self.cells[(x + 1) as usize][(y - 1) as usize]);
        }
        if y > 0 {
            r.push(self.cells[x as usize][(y - 1) as usize]);
        }
        if x > 0 && y > 0 {
            r.push(self.cells[(x - 1) as usize][(y - 1) as usize]);
        }
        if x > 0 {
            r.push(self.cells[(x - 1) as usize][y as usize]);
        }
        if x > 0 && y + 1 < y_dim {
            r.push(self.cells[(x - 1) as usize][(y + 1) as usize]);
        }
        r
    }

    /// Number of alive Moore neighbors of a grid cell.
    fn count_alive_neighbours(space: &Space, cell: &Cell) -> (r: usize)
        requires
            space.wf_grid(),
            space.in_bounds(cell.x as int, cell.y as int),
        ensures
            r as int == space.spec_alive_neighbors(cell.x as int, cell.y as int),
            r <= 8,
    {
        let neighbors = space.get_neighbors_vec(cell);
        let ghost cs = space.spec_neighbors(cell.x as int, cell.y as int);
        let mut num: usize = 0;
        let mut i: usize = 0;
        while i < neighbors.len()
            invariant
                space.wf_grid(),
                cs == space.spec_neighbors(cell.x as int, cell.y as int),
                neighbors@.len() == cs.len(),
                cs.len() <= 8,
                forall|k: int|
                    0 <= k < neighbors@.len() ==> (#[trigger] neighbors@[k])
                        == space.cells@[cs[k].0]@[cs[k].1],
                i <= neighbors@.len(),
                num as int == space.count_alive_in(cs.take(i as int)),
                num <= i,
            decreases neighbors@.len() - i,
        {
            proof {
                assert(cs.take(i as int + 1).drop_last() =~= cs.take(i as int));
                assert(cs.take(i as int + 1).last() == cs[i as int]);
            }
            if neighbors[i].is_alive() {
                num = num + 1;
            }
            i = i + 1;
        }
        proof {
            assert(cs.take(cs.len() as int) =~= cs);
        }
        num
    }
}

/// A pending transition for one cell, produced by rule evaluation against
/// the prior generation and consumed by the apply phase of a tick.
#[derive(Debug, Clone, Copy, PartialEq, Eq, Structural)]
pub enum CellAction {
    Age,
    Revive,
}

/// The state a cell moves to when a pending action (or none) is applied.
pub open spec fn apply_action_spec(s: u8, a: Option<CellAction>) -> u8 {
    match a {
        Option::None => s,
        Option::Some(CellAction::Age) => spec_aged(s),
        Option::Some(CellAction::Revive) => ALIVE_STATE,
    }
}

/// One optional neighbor coordinate: present exactly when the guard holds.
pub open spec fn opt_coord(present: bool, p: (int, int)) -> Seq<(int, int)> {
    if present {
        seq![p]
    } else {
        Seq::empty()
    }
}

/// Law: on any grid at least 3 x 3, a corner cell has exactly 3 Moore
/// neighbors, an edge (non-corner) cell exactly 5, and an interior cell
/// exactly 8.
pub proof fn lemma_moore_neighborhood_size(s: &Space, x: int, y: int)
    requires
        s.wf_grid(),
        s.spec_x_dim() >= 3,
        s.spec_y_dim() >= 3,
        s.in_bounds(x, y),
    ensures
        ({
            let on_x = x == 0 || x == s.spec_x_dim() - 1;
            let on_y = y == 0 || y == s.spec_y_dim() - 1;
            s.spec_neighbors(x, y).len() == if on_x && on_y {
                3int
            } else if on_x || on_y {
                5int
            } else {
                8int
            }
        }),
{
}

impl Space {
    /// `post` shows the generation that `pre` has stored under `t`: every
    /// recorded coordinate is alive, every other cell is fully dead, the
    /// store is untouched, and `t` is displayed.
    pub open spec fn loaded_from(pre: &Space, post: &Space, t: int) -> bool {
        &&& post.spec_x_dim() == pre.spec_x_dim()
        &&& post.spec_y_dim() == pre.spec_y_dim()
        &&& forall|x: int, y: int|
            pre.in_bounds(x, y) ==> post.state_at(x, y) == (if pre.history()[t].contains(
                ((x as u16), (y as u16)),
            ) {
                ALIVE_STATE as u8
            } else {
                0u8
            })
        &&& post.history() == pre.history()
        &&& post.displayed_time == t
    }

    /// Snapshots the current alive-cell coordinate list under key `time`,
    /// replacing any entry stored there, and makes `time` the displayed
    /// generation. The grid itself is untouched.
    pub fn save_state(&mut self, time: usize)
        requires
            old(self).wf(),
        ensures
            final(self).wf(),
            final(self).cells == old(self).cells,
            final(self).history() == old(self).history().insert(
                time as int,
                old(self).alive_seq(),
            ),
            final(self).displayed_time == time,
    {
        let indices = self.alive_coords();
        proof {
            lemma_alive_seq_in_bounds(self);
        }
        history_insert(&mut self.states_hash_map, time, indices);
        self.displayed_time = time;
    }

    /// Whether a generation is stored. Callers check this before loading.
    pub fn contains_state(&self, time: usize) -> (r: bool)
        ensures
            r == self.history().dom().contains(time as int),
    {
        history_contains(&self.states_hash_map, time)
    }

    /// Number of stored generations.
    pub fn num_states(&self) -> (r: usize)
        requires
            self.wf(),
        ensures
            r as int == self.history().dom().len(),
    {
        history_len(&self.states_hash_map)
    }

    /// Restores the generation stored under `time`: kills every cell, then
    /// revives exactly the recorded coordinates, and makes `time` the
    /// displayed generation. The caller must check that the generation is
    /// stored.
    pub fn load_state(&mut self, time: usize)
        requires
            old(self).wf(),
            old(self).history().dom().contains(time as int),
        ensures
            final(self).wf(),
            Space::loaded_from(old(self), final(self), time as int),
    {
        let stored = history_lookup(&self.states_hash_map, time);
        self.kill_all_cells();
        let ghost pre = *self;
        let mut i: usize = 0;
        while i < stored.len()
            invariant
                pre.wf(),
                stored@ == pre.history()[time as int],
                pre.history().dom().contains(time as int),
                i <= stored@.len(),
                self.wf(),
                self.spec_x_dim() == pre.spec_x_dim(),
                self.spec_y_dim() == pre.spec_y_dim(),
                self.states_hash_map == pre.states_hash_map,
                self.displayed_time == pre.displayed_time,
                forall|x: int, y: int|
                    pre.in_bounds(x, y) ==> self.state_at(x, y) == (if stored@.take(
                        i as int,
                    ).contains(((x as u16), (y as u16))) {
                        ALIVE_STATE as u8
                    } else {
                        0u8
                    }),
            decreases stored@.len() - i,
        {
            let p = stored[i];
            let ghost mid = *self;
            match self.revive_cell(p.0, p.1) {
                Ok(_) => (),
                Err(_) => proof {
                    assert(false);
                },
            }
            proof {
                broadcast use vstd::seq_lib::lemma_seq_contains_after_push;

                assert(stored@.take(i as int + 1) =~= stored@.take(i as int).push(p));
                assert forall|x: int, y: int| pre.in_bounds(x, y) implies self.state_at(x, y)
                    == (if stored@.take(i as int + 1).contains(((x as u16), (y as u16))) {
                    ALIVE_STATE as u8
                } else {
                    0u8
                }) by {
                    if !(x == p.0 as int && y == p.1 as int) {
                        assert(self.cells@[x]@[y] == mid.cells@[x]@[y]);
                        assert((((x as u16), (y as u16))) != p);
                    }
                }
            }
            i = i + 1;
        }
        proof {
            assert(stored@.take(stored@.len() as int) =~= stored@);
            assert(pre.history() == old(self).history());
            assert(stored@ == old(self).history()[time as int]);
            assert forall|x: int, y: int| old(self).in_bounds(x, y) implies self.state_at(x, y)
                == (if old(self).history()[time as int].contains(((x as u16), (y as u16))) {
                ALIVE_STATE as u8
            } else {
                0u8
            }) by {
                assert(pre.in_bounds(x, y));
                assert(self.state_at(x, y) == (if stored@.take(i as int).contains(
                    ((x as u16), (y as u16)),
                ) {
                    ALIVE_STATE as u8
                } else {
                    0u8
                }));
                assert(stored@.take(i as int) == stored@);
            }
        }
        self.displayed_time = time;
    }

    /// Steps the display back to generation `displayed_time - 1`, when an
    /// earlier generation is stored. Returns whether a step was taken.
    pub fn step_back_in_time(&mut self) -> (r: bool)
        requires
            old(self).wf(),
        ensures
            final(self).wf(),
            r == (old(self).displayed_time > 0 && old(self).history().dom().contains(
                old(self).displayed_time - 1,
            )),
            r ==> Space::loaded_from(old(self), final(self), old(self).displayed_time - 1),
            !r ==> *final(self) == *old(self),
    {
        if self.displayed_time > 0 {
            let target = self.displayed_time - 1;
            if self.contains_state(target) {
                self.load_state(target);
                return true;
            }
        }
        false
    }

    /// Steps the display forward to generation `displayed_time + 1`:
    /// reuses the stored future when one is present, and otherwise runs
    /// the engine and stores the new generation.
    pub fn step_forward_in_time(&mut self)
        requires
            old(self).wf(),
            old(self).displayed_time < usize::MAX,
        ensures
            final(self).wf(),
            old(self).history().dom().contains(old(self).displayed_time + 1)
                ==> Space::loaded_from(old(self), final(self), old(self).displayed_time + 1),
            !old(self).history().dom().contains(old(self).displayed_time + 1) ==> {
                &&& final(self).spec_x_dim() == old(self).spec_x_dim()
                &&& final(self).spec_y_dim() == old(self).spec_y_dim()
                &&& (forall|x: int, y: int|
                    old(self).in_bounds(x, y) ==> final(self).state_at(x, y) == old(
                        self,
                    ).spec_next_state(x, y))
                &&& final(self).history() == old(self).history().insert(
                    old(self).displayed_time + 1,
                    final(self).alive_seq(),
                )
                &&& final(self).displayed_time == old(self).displayed_time + 1
            },
    {
        let next = self.displayed_time + 1;
        if self.contains_state(next) {
            self.load_state(next);
        } else {
            self.compute_conways_game_of_life_multithreaded();
            let ghost mid = *self;
            self.save_state(next);
            proof {
                lemma_alive_seq_same_cells(&mid, self);
            }
        }
    }

    /// Jumps the display to generation `time` when it is stored, as when
    /// returning to the recorded start of a run. Returns whether it was.
    pub fn jump_to_state(&mut self, time: usize) -> (r: bool)
        requires
            old(self).wf(),
        ensures
            final(self).wf(),
            r == old(self).history().dom().contains(time as int),
            r ==> Space::loaded_from(old(self), final(self), time as int),
            !r ==> *final(self) == *old(self),
    {
        if self.contains_state(time) {
            self.load_state(time);
            true
        } else {
            false
        }
    }

    /// Jumps the display to the latest stored generation, taking the store
    /// size minus one as its index: generation keys are dense from 0 on
    /// the common forward path. Returns whether that generation is stored.
    pub fn jump_to_latest_state(&mut self) -> (r: bool)
        requires
            old(self).wf(),
        ensures
            final(self).wf(),
            r == (old(self).history().dom().len() >= 1 && old(self).history().dom().contains(
                old(self).history().dom().len() - 1,
            )),
            r ==> Space::loaded_from(old(self), final(self), old(self).history().dom().len() - 1),
            !r ==> *final(self) == *old(self),
    {
        let n = self.num_states();
        if n >= 1 {
            let latest = n - 1;
            if self.contains_state(latest) {
                self.load_state(latest);
                return true;
            }
        }
        false
    }

    /// All stored keys from `from` up to `k` form an unbroken run.
    pub open spec fn stored_run(h: Map<int, Seq<Coord>>, from: int, k: int) -> bool {
        forall|j: int| from <= j <= k ==> h.dom().contains(j)
    }

    /// The store after walking forward from `from` and deleting each
    /// stored generation until the first gap.
    pub open spec fn wiped(h: Map<int, Seq<Coord>>, from: int) -> Map<int, Seq<Coord>> {
        Map::new(
            |k: int| h.dom().contains(k) && !(k >= from && Space::stored_run(h, from, k)),
            |k: int| h[k],
        )
    }

    /// Removes the stored generations `from, from + 1, ...`, walking
    /// forward while an entry exists at each successive key and stopping at
    /// the first gap. An edit at generation `from - 1` makes every
    /// previously computed generation from `from` on a stale future, which
    /// must no longer be reachable.
    pub fn invalidate_future_states(&mut self, from: usize)
        requires
            old(self).wf(),
        ensures
            final(self).wf(),
            final(self).cells == old(self).cells,
            final(self).displayed_time == old(self).displayed_time,
            final(self).history() == Space::wiped(old(self).history(), from as int),
    {
        let ghost pre = *self;
        let ghost h0 = self.history();
        let mut t: usize = from;
        loop
            invariant_except_break
                forall|j: int| from as int <= j < t as int ==> h0.dom().contains(j),
                forall|k: int|
                    #[trigger] self.history().dom().contains(k) <==> (h0.dom().contains(k) && !(
                    from as int <= k < t as int)),
                forall|k: int|
                    #[trigger] self.history().dom().contains(k) ==> self.history()[k] == h0[k],
            invariant
                pre.wf(),
                h0 == pre.history(),
                self.cells == pre.cells,
                self.displayed_time == pre.displayed_time,
                from <= t,
            ensures
                self.cells == pre.cells,
                self.displayed_time == pre.displayed_time,
                self.history() == Space::wiped(h0, from as int),
            decreases usize::MAX - t,
        {
            if !history_contains(&self.states_hash_map, t) {
                proof {
                    lemma_wipe_done(h0, from as int, t as int, self.history());
                }
                break;
            }
            let ghost before = self.history();
            history_remove(&mut self.states_hash_map, t);
            proof {
                assert(self.history() == before.remove(t as int));
                assert forall|k: int| #[trigger]
                    self.history().dom().contains(k) implies self.history()[k] == h0[k] by {
                    assert(before.dom().contains(k));
                }
            }
            if t == usize::MAX {
                proof {
                    assert(h0.dom().contains(usize::MAX as int));
                    lemma_wipe_all(h0, from as int, self.history());
                }
                break;
            }
            t = t + 1;
        }
        proof {
            assert(self.wf_history()) by {
                assert(self.history().dom() <= pre.history().dom());
                vstd::set_lib::lemma_set_subset_finite(
                    pre.history().dom(),
                    self.history().dom(),
                );
                assert forall|k: int| #[trigger]
                    self.history().dom().contains(k) implies 0 <= k <= usize::MAX && (forall|
                    i: int,
                |
                    0 <= i < self.history()[k].len() ==> self.in_bounds(
                        (#[trigger] self.history()[k][i]).0 as int,
                        self.history()[k][i].1 as int,
                    )) by {
                    assert(pre.history().dom().contains(k));
                    assert(self.history()[k] == pre.history()[k]);
                }
            }
        }
    }

    /// The automaton rule for cell `(x, y)`, judged against this grid as
    /// the frozen prior generation:
    /// - alive with fewer than 2 or more than 3 alive neighbors: ages;
    /// - dead with exactly 3 alive neighbors: revives;
    /// - dead with residual energy and any other neighbor count: ages;
    /// - otherwise: no action.
    pub open spec fn spec_action(&self, x: int, y: int) -> Option<CellAction> {
        let n = self.spec_alive_neighbors(x, y);
        if self.alive_at(x, y) {
            if n > 3 || n < 2 {
                Some(CellAction::Age)
            } else {
                None
            }
        } else if n == 3 {
            Some(CellAction::Revive)
        } else if 0 < self.state_at(x, y) && self.state_at(x, y) < ALIVE_STATE {
            Some(CellAction::Age)
        } else {
            None
        }
    }

    /// State of cell `(x, y)` one generation later.
    pub open spec fn spec_next_state(&self, x: int, y: int) -> u8 {
        apply_action_spec(self.state_at(x, y), self.spec_action(x, y))
    }

    /// `next` is `prior` advanced by one generation: same dimensions, every
    /// cell's state follows the rule judged against `prior`, and the
    /// generation store and the displayed time are untouched.
    pub open spec fn spec_step(prior: &Space, next: &Space) -> bool {
        &&& next.spec_x_dim() == prior.spec_x_dim()
        &&& next.spec_y_dim() == prior.spec_y_dim()
        &&& forall|x: int, y: int|
            prior.in_bounds(x, y) ==> next.state_at(x, y) == prior.spec_next_state(x, y)
        &&& next.states_hash_map == prior.states_hash_map
        &&& next.displayed_time == prior.displayed_time
    }

    /// Rule evaluation for one cell: a pure read of `self`, the frozen
    /// prior snapshot of the tick.
    pub(crate) fn action_at(&self, x: u16, y: u16) -> (r: Option<CellAction>)
        requires
            self.wf_grid(),
            self.in_bounds(x as int, y as int),
        ensures
            r == self.spec_action(x as int, y as int),
    {
        let cell = self.cells[x as usize][y as usize];
        let n = Self::count_alive_neighbours(self, &cell);
        if cell.is_alive() {
            if n > 3 || n < 2 {
                Some(CellAction::Age)
            } else {
                None
            }
        } else if n == 3 {
            Some(CellAction::Revive)
        } else if cell.get_state() > 0 && cell.get_state() < ALIVE_STATE {
            Some(CellAction::Age)
        } else {
            None
        }
    }

    /// Rule evaluation for one whole column, in row order.
    pub(crate) fn column_actions(&self, x: u16) -> (r: Vec<Option<CellAction>>)
        requires
            self.wf_grid(),
            (x as int) < self.spec_x_dim(),
        ensures
            r@.len() == self.spec_y_dim(),
            forall|y: int| 0 <= y < r@.len() ==> r@[y] == self.spec_action(x as int, y),
    {
        let y_dim = self.y_dim();
        let mut r: Vec<Option<CellAction>> = Vec::new();
        let mut y: u16 = 0;
        while y < y_dim
            invariant
                self.wf_grid(),
                (x as int) < self.spec_x_dim(),
                y_dim as int == self.spec_y_dim(),
                y <= y_dim,
                r@.len() == y as int,
                forall|j: int| 0 <= j < y as int ==> r@[j] == self.spec_action(x as int, j),
            decreases y_dim - y,
        {
            r.push(self.action_at(x, y));
            y = y + 1;
        }
        r
    }

    /// The apply phase of a tick: writes one batch of pending transitions,
    /// one per cell, to the live grid. Runs strictly after evaluation; the
    /// actions are whatever the evaluation phase recorded.
    fn apply_actions(&mut self, actions: &Vec<Vec<Option<CellAction>>>)
        requires
            old(self).wf(),
            actions@.len() == old(self).spec_x_dim(),
            forall|x: int|
                0 <= x < actions@.len() ==> (#[trigger] actions@[x])@.len() == old(
                    self,
                ).spec_y_dim(),
        ensures
            final(self).wf(),
            final(self).spec_x_dim() == old(self).spec_x_dim(),
            final(self).spec_y_dim() == old(self).spec_y_dim(),
            forall|x: int, y: int|
                old(self).in_bounds(x, y) ==> final(self).state_at(x, y) == apply_action_spec(
                    old(self).state_at(x, y),
                    actions@[x]@[y],
                ),
            final(self).states_hash_map == old(self).states_hash_map,
            final(self).displayed_time == old(self).displayed_time,
    {
        let x_dim = self.x_dim();
        let y_dim = self.y_dim();
        let ghost pre = *self;
        let mut x: u16 = 0;
        while x < x_dim
            invariant
                pre.wf(),
                x_dim as int == pre.spec_x_dim(),
                y_dim as int == pre.spec_y_dim(),
                actions@.len() == pre.spec_x_dim(),
                forall|i: int|
                    0 <= i < actions@.len() ==> (#[trigger] actions@[i])@.len()
                        == pre.spec_y_dim(),
                x <= x_dim,
                self.wf(),
                self.spec_x_dim() == pre.spec_x_dim(),
                self.spec_y_dim() == pre.spec_y_dim(),
                self.states_hash_map == pre.states_hash_map,
                self.displayed_time == pre.displayed_time,
                forall|i: int, j: int|
                    pre.in_bounds(i, j) ==> self.state_at(i, j) == (if i < x as int {
                        apply_action_spec(pre.state_at(i, j), actions@[i]@[j])
                    } else {
                        pre.state_at(i, j)
                    }),
            decreases x_dim - x,
        {
            let mut y: u16 = 0;
            while y < y_dim
                invariant
                    pre.wf(),
                    x_dim as int == pre.spec_x_dim(),
                    y_dim as int == pre.spec_y_dim(),
                    actions@.len() == pre.spec_x_dim(),
                    forall|i: int|
                        0 <= i < actions@.len() ==> (#[trigger] actions@[i])@.len()
                            == pre.spec_y_dim(),
                    x < x_dim,
                    y <= y_dim,
                    self.wf(),
                    self.spec_x_dim() == pre.spec_x_dim(),
                    self.spec_y_dim() == pre.spec_y_dim(),
                    self.states_hash_map == pre.states_hash_map,
                    self.displayed_time == pre.displayed_time,
                    forall|i: int, j: int|
                        pre.in_bounds(i, j) ==> self.state_at(i, j) == (if i < x as int || (i == x
                            as int && j < y as int) {
                            apply_action_spec(pre.state_at(i, j), actions@[i]@[j])
                        } else {
                            pre.state_at(i, j)
                        }),
                decreases y_dim - y,
            {
                let ghost mid = *self;
                match actions[x as usize][y as usize] {
                    None => (),
                    Some(CellAction::Age) => {
                        let c = &mut self.cells[x as usize][y as usize];
                        c.age();
                        proof {
                            lemma_updated_state_preserves_wf(
                                &mid,
                                self,
                                x as int,
                                y as int,
                                spec_aged(mid.state_at(x as int, y as int)),
                            );
                        }
                    },
                    Some(CellAction::Revive) => {
                        let c = &mut self.cells[x as usize][y as usize];
                        c.revive();
                        proof {
                            lemma_updated_state_preserves_wf(
                                &mid,
                                self,
                                x as int,
                                y as int,
                                ALIVE_STATE,
                            );
                        }
                    },
                }
                proof {
                    assert forall|i: int, j: int| pre.in_bounds(i, j) implies self.state_at(i, j)
                        == (if i < x as int || (i == x as int && j < y as int + 1) {
                        apply_action_spec(pre.state_at(i, j), actions@[i]@[j])
                    } else {
                        pre.state_at(i, j)
                    }) by {
                        if !(i == x as int && j == y as int) {
                            assert(self.cells@[i]@[j] == mid.cells@[i]@[j]);
                            assert(mid.state_at(i, j) == (if i < x as int || (i == x as int && j
                                < y as int) {
                                apply_action_spec(pre.state_at(i, j), actions@[i]@[j])
                            } else {
                                pre.state_at(i, j)
                            }));
                        }
                    }
                }
                y = y + 1;
            }
            x = x + 1;
        }
    }

    /// One simulation tick, evaluated cell by cell in a single thread. The
    /// whole evaluation reads the grid as it stood when the tick began, and
    /// the collected transitions are applied only afterwards.
    pub fn compute_conways_game_of_life_single_threaded(&mut self)
        requires
            old(self).wf(),
        ensures
            final(self).wf(),
            Space::spec_step(old(self), final(self)),
    {
        let x_dim = self.x_dim();
        let mut actions: Vec<Vec<Option<CellAction>>> = Vec::new();
        let mut x: u16 = 0;
        while x < x_dim
            invariant
                self.wf(),
                x_dim as int == self.spec_x_dim(),
                x <= x_dim,
                actions@.len() == x as int,
                forall|i: int|
                    0 <= i < x as int ==> (#[trigger] actions@[i])@.len() == self.spec_y_dim(),
                forall|i: int, j: int|
                    0 <= i < x as int && 0 <= j < self.spec_y_dim() ==> actions@[i]@[j]
                        == self.spec_action(i, j),
            decreases x_dim - x,
        {
            actions.push(self.column_actions(x));
            x = x + 1;
        }
        self.apply_actions(&actions);
    }

    /// One simulation tick with the rule evaluated for all cells in
    /// parallel against the frozen prior grid, followed by the same
    /// sequential apply phase. The result is the same as the
    /// single-threaded tick: evaluation is a pure function of the prior
    /// grid, so it is independent of scheduling.
    pub fn compute_conways_game_of_life_multithreaded(&mut self)
        requires
            old(self).wf(),
        ensures
            final(self).wf(),
            Space::spec_step(old(self), final(self)),
    {
        let x_dim = self.x_dim();
        let actions = par_rule_actions(self, x_dim);
        self.apply_actions(&actions);
    }

    /// Builds a grid sized to a 2D liveness array (`rows[y][x]`, 1 = alive)
    /// and revives the indicated cells. The first row's length gives the
    /// width, the row count the height.
    pub fn build_from_array(array: &Vec<Vec<u8>>) -> (s: Space)
        requires
            1 <= array@.len() <= u16::MAX,
            1 <= array@[0]@.len() <= u16::MAX,
            forall|j: int|
                0 <= j < array@.len() ==> (#[trigger] array@[j])@.len() == array@[0]@.len(),
        ensures
            s.wf(),
            s.spec_x_dim() == array@[0]@.len(),
            s.spec_y_dim() == array@.len(),
            forall|x: int, y: int|
                s.in_bounds(x, y) ==> s.state_at(x, y) == (if array@[y]@[x] == 1 {
                    ALIVE_STATE
                } else {
                    0
                }),
            s.history() == empty_history().insert(0, Seq::empty()),
            s.displayed_time == 0,
    {
        let x_dim = array[0].len() as u16;
        let y_dim = array.len() as u16;
        let mut space = Space::new(x_dim, y_dim);
        let mut x: u16 = 0;
        while x < x_dim
            invariant
                1 <= array@.len() <= u16::MAX,
                1 <= array@[0]@.len() <= u16::MAX,
                forall|j: int|
                    0 <= j < array@.len() ==> (#[trigger] array@[j])@.len() == array@[0]@.len(),
                x_dim as int == array@[0]@.len(),
                y_dim as int == array@.len(),
                x <= x_dim,
                space.wf(),
                space.spec_x_dim() == x_dim as int,
                space.spec_y_dim() == y_dim as int,
                space.history() == empty_history().insert(0, Seq::empty()),
                space.displayed_time == 0,
                forall|i: int, j: int|
                    space.in_bounds(i, j) ==> space.state_at(i, j) == (if i < x as int
                        && array@[j]@[i] == 1 {
                        ALIVE_STATE as u8
                    } else {
                        0u8
                    }),
            decreases x_dim - x,
        {
            let mut y: u16 = 0;
            while y < y_dim
                invariant
                    1 <= array@.len() <= u16::MAX,
                    1 <= array@[0]@.len() <= u16::MAX,
                    forall|j: int|
                        0 <= j < array@.len() ==> (#[trigger] array@[j])@.len() == array@[0]@.len(),
                    x_dim as int == array@[0]@.len(),
                    y_dim as int == array@.len(),
                    x < x_dim,
                    y <= y_dim,
                    space.wf(),
                    space.spec_x_dim() == x_dim as int,
                    space.spec_y_dim() == y_dim as int,
                    space.history() == empty_history().insert(0, Seq::empty()),
                    space.displayed_time == 0,
                    forall|i: int, j: int|
                        space.in_bounds(i, j) ==> space.state_at(i, j) == (if (i < x as int || (i
                            == x as int && j < y as int)) && array@[j]@[i] == 1 {
                            ALIVE_STATE as u8
                        } else {
                            0u8
                        }),
                decreases y_dim - y,
            {
                let ghost mid = space;
                if array[y as usize][x as usize] == 1 {
                    match space.revive_cell(x, y) {
                        Ok(_) => (),
                        Err(_) => proof {
                            assert(false);
                        },
                    }
                }
                proof {
                    assert forall|i: int, j: int| space.in_bounds(i, j) implies space.state_at(
                        i,
                        j,
                    ) == (if (i < x as int || (i == x as int && j < y as int + 1)) && array@[j]@[i]
                        == 1 {
                        ALIVE_STATE as u8
                    } else {
                        0u8
                    }) by {
                        if !(i == x as int && j == y as int) {
                            assert(space.cells@[i]@[j] == mid.cells@[i]@[j]);
                            assert(mid.state_at(i, j) == (if (i < x as int || (i == x as int && j
                                < y as int)) && array@[j]@[i] == 1 {
                                ALIVE_STATE as u8
                            } else {
                                0u8
                            }));
                        }
                    }
                }
                y = y + 1;
            }
            x = x + 1;
        }
        space
    }
}

/// Every element of `alive_in_col(x, y)` is the coordinate of an alive
/// cell of column `x` below row `y`, and every such coordinate is an
/// element.
proof fn lemma_alive_in_col_contains(s: &Space, x: int, y: int, p: Coord)
    requires
        s.wf_grid(),
        0 <= x < s.spec_x_dim(),
        0 <= y <= s.spec_y_dim(),
    ensures
        s.alive_in_col(x, y).contains(p) <==> (p.0 as int == x && (p.1 as int) < y && s.alive_at(
            p.0 as int,
            p.1 as int,
        )),
    decreases y,
{
    broadcast use vstd::seq_lib::lemma_seq_concat_contains_all_elements;
    broadcast use vstd::seq_lib::lemma_seq_empty_contains_nothing;

    if y > 0 {
        lemma_alive_in_col_contains(s, x, y - 1, p);
        if s.alive_at(x, y - 1) {
            let q = (((x as u16), ((y - 1) as u16)));
            assert(seq![q][0] == q);
            assert(seq![q].contains(q));
            if p != q {
                assert(seq![q].contains(p) ==> p == q);
            }
        }
    }
}

/// Every element of `alive_upto(x)` is the coordinate of an alive cell of
/// a column below `x`, and every such coordinate is an element.
proof fn lemma_alive_upto_contains(s: &Space, x: int, p: Coord)
    requires
        s.wf_grid(),
        0 <= x <= s.spec_x_dim(),
    ensures
        s.alive_upto(x).contains(p) <==> ((p.0 as int) < x && s.in_bounds(p.0 as int, p.1 as int)
            && s.alive_at(p.0 as int, p.1 as int)),
    decreases x,
{
    broadcast use vstd::seq_lib::lemma_seq_concat_contains_all_elements;
    broadcast use vstd::seq_lib::lemma_seq_empty_contains_nothing;

    if x > 0 {
        lemma_alive_upto_contains(s, x - 1, p);
        lemma_alive_in_col_contains(s, x - 1, s.spec_y_dim(), p);
    }
}

/// Law: a coordinate is recorded in `alive_seq` exactly when its cell is
/// alive. This is what makes a saved generation a faithful snapshot.
pub proof fn lemma_alive_seq_contains(s: &Space, p: Coord)
    requires
        s.wf_grid(),
    ensures
        s.alive_seq().contains(p) <==> (s.in_bounds(p.0 as int, p.1 as int) && s.alive_at(
            p.0 as int,
            p.1 as int,
        )),
{
    lemma_alive_upto_contains(s, s.spec_x_dim(), p);
}

/// Every recorded alive coordinate lies inside the grid.
proof fn lemma_alive_seq_in_bounds(s: &Space)
    requires
        s.wf_grid(),
    ensures
        forall|i: int|
            0 <= i < s.alive_seq().len() ==> s.in_bounds(
                (#[trigger] s.alive_seq()[i]).0 as int,
                s.alive_seq()[i].1 as int,
            ),
{
    assert forall|i: int| 0 <= i < s.alive_seq().len() implies s.in_bounds(
        (#[trigger] s.alive_seq()[i]).0 as int,
        s.alive_seq()[i].1 as int,
    ) by {
        let p = s.alive_seq()[i];
        assert(s.alive_seq().contains(p));
        lemma_alive_seq_contains(s, p);
    }
}

/// After deleting every stored key from `from` through the largest
/// machine integer, what is left is exactly the wiped store: no stored key
/// can lie beyond the machine range.
proof fn lemma_wipe_all(h0: Map<int, Seq<Coord>>, from: int, cur: Map<int, Seq<Coord>>)
    requires
        0 <= from <= usize::MAX,
        forall|j: int| from <= j < usize::MAX as int ==> h0.dom().contains(j),
        h0.dom().contains(usize::MAX as int),
        forall|k: int|
            #[trigger] cur.dom().contains(k) <==> (h0.dom().contains(k) && !(from <= k
                <= usize::MAX as int)),
        forall|k: int| #[trigger] cur.dom().contains(k) ==> cur[k] == h0[k],
        forall|k: int| #[trigger] h0.dom().contains(k) ==> 0 <= k <= usize::MAX,
    ensures
        cur == Space::wiped(h0, from),
{
    let w = Space::wiped(h0, from);
    assert forall|k: int| cur.dom().contains(k) == #[trigger] w.dom().contains(k) by {
        if from <= k && h0.dom().contains(k) {
            assert(k <= usize::MAX as int);
            assert(Space::stored_run(h0, from, k)) by {
                assert forall|j: int| from <= j <= k implies h0.dom().contains(j) by {
                    if j != usize::MAX as int {
                    }
                }
            }
        }
    }
    assert(cur =~= w);
}

/// After deleting the unbroken run of stored keys `from .. t` and finding
/// a gap at `t`, what is left is exactly the wiped store.
proof fn lemma_wipe_done(h0: Map<int, Seq<Coord>>, from: int, t: int, cur: Map<int, Seq<Coord>>)
    requires
        from <= t,
        forall|j: int| from <= j < t ==> h0.dom().contains(j),
        forall|k: int| cur.dom().contains(k) <==> (h0.dom().contains(k) && !(from <= k < t)),
        forall|k: int| #[trigger] cur.dom().contains(k) ==> cur[k] == h0[k],
        !cur.dom().contains(t),
    ensures
        cur == Space::wiped(h0, from),
{
    assert(!h0.dom().contains(t));
    let w = Space::wiped(h0, from);
    assert forall|k: int| cur.dom().contains(k) == #[trigger] w.dom().contains(k) by {
        if from <= k < t {
            assert(Space::stored_run(h0, from, k));
        } else if k >= t {
            if Space::stored_run(h0, from, k) {
                assert(h0.dom().contains(t));
            }
        }
    }
    assert(cur =~= w);
}

/// Law: saving the shown generation and loading it straight back restores
/// exactly the alive-cell set that was saved. `saved` is what `save_state`
/// leaves behind at key `t`, `loaded` what `load_state` then builds.
pub proof fn lemma_save_then_load_restores_alive_set(
    s: &Space,
    saved: &Space,
    loaded: &Space,
    t: usize,
)
    requires
        s.wf(),
        saved.cells == s.cells,
        saved.history() == s.history().insert(t as int, s.alive_seq()),
        Space::loaded_from(saved, loaded, t as int),
    ensures
        forall|x: int, y: int|
            s.in_bounds(x, y) ==> (loaded.alive_at(x, y) <==> s.alive_at(x, y)),
{
    assert forall|x: int, y: int|
        s.in_bounds(x, y) implies (loaded.alive_at(x, y) <==> s.alive_at(x, y)) by {
        let p = (((x as u16), (y as u16)));
        lemma_alive_seq_contains(s, p);
        assert(saved.history()[t as int] == s.alive_seq());
        assert(loaded.state_at(x, y) == (if s.alive_seq().contains(p) {
            ALIVE_STATE as u8
        } else {
            0u8
        }));
    }
}

/// Law: when the stored generations are exactly `0 ..= m` and the grid is
/// edited at a generation `t <= m`, invalidating from `t + 1` and saving
/// the edited state there leaves exactly the generations `0 ..= t + 1`:
/// every previously stored future beyond the edit is gone.
pub proof fn lemma_edit_prunes_future(h: Map<int, Seq<Coord>>, t: int, m: int, e: Seq<Coord>)
    requires
        0 <= t <= m,
        forall|k: int| #[trigger] h.dom().contains(k) <==> 0 <= k <= m,
    ensures
        forall|k: int|
            #[trigger] Space::wiped(h, t + 1).insert(t + 1, e).dom().contains(k) <==> 0 <= k <= t
                + 1,
{
    let w = Space::wiped(h, t + 1);
    assert forall|k: int| #[trigger] w.insert(t + 1, e).dom().contains(k) <==> 0 <= k <= t
        + 1 by {
        if k != t + 1 {
            if t + 1 <= k <= m {
                assert(Space::stored_run(h, t + 1, k));
            }
            if k > m {
                assert(!h.dom().contains(k));
            }
        }
    }
}

/// `alive_in_col` reads only the cells, so grids with the same cells
/// agree on it.
proof fn lemma_alive_in_col_same_cells(a: &Space, b: &Space, x: int, y: int)
    requires
        a.cells == b.cells,
    ensures
        a.alive_in_col(x, y) == b.alive_in_col(x, y),
    decreases y,
{
    if y > 0 {
        lemma_alive_in_col_same_cells(a, b, x, y - 1);
    }
}

/// `alive_upto` reads only the cells, so grids with the same cells agree
/// on it.
proof fn lemma_alive_upto_same_cells(a: &Space, b: &Space, x: int)
    requires
        a.cells == b.cells,
    ensures
        a.alive_upto(x) == b.alive_upto(x),
    decreases x,
{
    if x > 0 {
        lemma_alive_upto_same_cells(a, b, x - 1);
        lemma_alive_in_col_same_cells(a, b, x - 1, a.spec_y_dim());
    }
}

/// The recorded alive-cell list reads only the cells: the generation store
/// and the displayed time play no part in it.
pub(crate) proof fn lemma_alive_seq_same_cells(a: &Space, b: &Space)
    requires
        a.cells == b.cells,
    ensures
        a.alive_seq() == b.alive_seq(),
{
    lemma_alive_upto_same_cells(a, b, a.spec_x_dim());
}

/// The cell a flat column-major index names: index `x * yd + y` is the
/// cell `(x, y)`.
pub open spec fn flat_coord(yd: int, k: int) -> Coord {
    (((k / yd) as u16), ((k % yd) as u16))
}

/// Distinct flat indices below `xd * yd` name distinct cells.
proof fn lemma_flat_coord_injective(yd: int, xd: int, k1: int, k2: int)
    requires
        1 <= yd <= 0xffff,
        1 <= xd <= 0xffff,
        0 <= k1 < xd * yd,
        0 <= k2 < xd * yd,
        k1 != k2,
    ensures
        flat_coord(yd, k1) != flat_coord(yd, k2),
{
    vstd::arithmetic::div_mod::lemma_fundamental_div_mod(k1, yd);
    vstd::arithmetic::div_mod::lemma_fundamental_div_mod(k2, yd);
    vstd::arithmetic::div_mod::lemma_mod_division_less_than_divisor(k1, yd);
    vstd::arithmetic::div_mod::lemma_mod_division_less_than_divisor(k2, yd);
    assert(k1 < yd * xd) by (nonlinear_arith)
        requires
            k1 < xd * yd,
    ;
    assert(k2 < yd * xd) by (nonlinear_arith)
        requires
            k2 < xd * yd,
    ;
    vstd::arithmetic::div_mod::lemma_multiply_divide_lt(k1, yd, xd);
    vstd::arithmetic::div_mod::lemma_multiply_divide_lt(k2, yd, xd);
    vstd::arithmetic::div_mod::lemma_div_pos_is_pos(k1, yd);
    vstd::arithmetic::div_mod::lemma_div_pos_is_pos(k2, yd);
    if k1 / yd == k2 / yd && k1 % yd == k2 % yd {
        assert(k1 == k2);
    }
}

/// Relies on rayon: `into_par_iter().map(..).collect()` over an index range
/// is a parallel map that preserves order, so entry `x` of the result is
/// what the verified `column_actions` returns for column `x`. The closure
/// only calls that function.
#[verifier::external_body]
fn par_rule_actions(s: &Space, x_dim: u16) -> (r: Vec<Vec<Option<CellAction>>>)
    requires
        s.wf_grid(),
        x_dim as int == s.spec_x_dim(),
    ensures
        r@.len() == s.spec_x_dim(),
        forall|x: int| 0 <= x < r@.len() ==> (#[trigger] r@[x])@.len() == s.spec_y_dim(),
        forall|x: int, y: int| s.in_bounds(x, y) ==> r@[x]@[y] == s.spec_action(x, y),
{
    (0..x_dim).into_par_iter().map(|x| s.column_actions(x)).collect()
}

/// A single-cell state update keeps the grid well formed and changes no
/// other cell's state.
proof fn lemma_updated_state_preserves_wf(pre: &Space, post: &Space, x: int, y: int, s: u8)
    requires
        pre.wf(),
        pre.in_bounds(x, y),
        post.cells@.len() == pre.cells@.len(),
        forall|i: int| 0 <= i < pre.cells@.len() && i != x ==> post.cells@[i] == pre.cells@[i],
        post.cells@[x]@ == pre.cells@[x]@.update(y, Cell { x: x as u16, y: y as u16, state: s }),
        post.states_hash_map == pre.states_hash_map,
        post.displayed_time == pre.displayed_time,
    ensures
        post.wf(),
        Space::updated_state(pre, post, x, y, s),
{
    assert(post.cells@[0]@.len() == pre.cells@[0]@.len());
    assert forall|i: int, j: int|
        pre.in_bounds(i, j) && !(i == x && j == y) implies post.cells@[i]@[j] == pre.cells@[i]@[j] by {
        if i == x {
            assert(post.cells@[i]@ == pre.cells@[i]@.update(
                y,
                Cell { x: x as u16, y: y as u16, state: s },
            ));
        } else {
            assert(post.cells@[i] == pre.cells@[i]);
        }
    }
}

} // verus!

