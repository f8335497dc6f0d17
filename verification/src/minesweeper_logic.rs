//! The board: a grid of cells, the mines on it, and the state that the
//! players' actions leave each cell in.
//!
//! The cell `(x, y)` has `0 <= x < x_size` and `0 <= y < y_size`. Cells are
//! stored column after column, the cell `(x, y)` at `x * y_size + y`.

use crate::error::MinesweeperError;
use crate::parser::Metadata;
use vstd::arithmetic::div_mod::{
    lemma_div_pos_is_pos, lemma_fundamental_div_mod, lemma_fundamental_div_mod_converse,
    lemma_mod_bound, lemma_multiply_divide_lt,
};
use vstd::prelude::*;
use vstd::seq_lib::seq_to_set_is_finite;

verus! {

/// What a player sees of a cell.
#[derive(Clone, Copy, Debug, PartialEq, Eq, Structural)]
pub enum FieldState {
    /// Neither opened nor flagged.
    Closed,
    /// Opened: it shows its mine, or how many mines are next to it.
    Opened,
    /// Marked with a flag.
    Flagged,
}

/// One cell of the board.
#[derive(Clone, Copy, Debug, PartialEq, Eq, Structural)]
pub struct Field {
    /// Whether the cell holds a mine.
    pub mine: bool,
    /// The number of mines next to the cell; 0 on a mine.
    pub value: u8,
    /// What a player sees of the cell.
    pub field_state: FieldState,
}

impl Field {
    /// A closed cell without a mine and without mines next to it.
    pub open spec fn new_spec() -> Field {
        Field { mine: false, value: 0, field_state: FieldState::Closed }
    }

    /// Returns a closed cell without a mine and without mines next to it.
    pub fn new() -> (field: Field)
        ensures
            field == Field::new_spec(),
    {
        Field { mine: false, value: 0, field_state: FieldState::Closed }
    }
}

/// Where the cell `(x, y)` is stored on a board of the given height.
pub open spec fn flat_index(x: int, y: int, height: int) -> int {
    x * height + y
}

/// The cells of a `width` by `height` board are stored at the indices from 0
/// up to `width * height`.
pub proof fn lemma_flat_index_bounds(x: int, y: int, width: int, height: int)
    requires
        0 <= x < width,
        0 <= y < height,
    ensures
        0 <= flat_index(x, y, height) < width * height,
{
    assert(0 <= x * height && (x + 1) * height <= width * height) by (nonlinear_arith)
        requires
            0 <= x < width,
            0 < height,
    ;
    assert((x + 1) * height == x * height + height) by (nonlinear_arith);
}

/// Two cells are stored at the same index only if they are the same cell.
pub proof fn lemma_flat_index_injective(x1: int, y1: int, x2: int, y2: int, height: int)
    requires
        0 <= y1 < height,
        0 <= y2 < height,
        flat_index(x1, y1, height) == flat_index(x2, y2, height),
    ensures
        x1 == x2,
        y1 == y2,
{
    assert(x1 == x2) by (nonlinear_arith)
        requires
            0 <= y1 < height,
            0 <= y2 < height,
            x1 * height + y1 == x2 * height + y2,
    ;
}

/// A number below `count * size` is `size` times its quotient by `size`
/// plus its remainder, and the quotient is below `count`.
pub proof fn lemma_flat_index_split(i: int, count: int, size: int)
    requires
        0 < size,
        0 <= i < count * size,
    ensures
        0 <= i / size < count,
        0 <= i % size < size,
        flat_index(i / size, i % size, size) == i,
{
    lemma_fundamental_div_mod(i, size);
    lemma_mod_bound(i, size);
    lemma_div_pos_is_pos(i, size);
    assert(size * count == count * size) by (nonlinear_arith);
    lemma_multiply_divide_lt(i, size, count);
    assert(size * (i / size) == (i / size) * size) by (nonlinear_arith);
}

/// 1 if `(x, y)` is a cell of the board `meta` and one of `mines`, else 0.
pub open spec fn has_mine(mines: Seq<(i32, i32)>, meta: Metadata, x: int, y: int) -> int {
    if meta.contains(x, y) && mines.contains((x as i32, y as i32)) {
        1
    } else {
        0
    }
}

/// The number of `mines` among the up to eight neighbours of `(x, y)` on the
/// board `meta`.
pub open spec fn mines_around(mines: Seq<(i32, i32)>, meta: Metadata, x: int, y: int) -> int {
    has_mine(mines, meta, x - 1, y - 1) + has_mine(mines, meta, x - 1, y) + has_mine(
        mines,
        meta,
        x - 1,
        y + 1,
    ) + has_mine(mines, meta, x, y - 1) + has_mine(mines, meta, x, y + 1) + has_mine(
        mines,
        meta,
        x + 1,
        y - 1,
    ) + has_mine(mines, meta, x + 1, y) + has_mine(mines, meta, x + 1, y + 1)
}

/// The cell `(x, y)` of the untouched board `meta` with the given mines: it
/// is closed, it holds a mine if it is one of `mines`, and if it holds none
/// it knows how many of its neighbours do.
pub open spec fn built_cell(mines: Seq<(i32, i32)>, meta: Metadata, x: int, y: int) -> Field {
    Field {
        mine: mines.contains((x as i32, y as i32)),
        value: if mines.contains((x as i32, y as i32)) {
            0
        } else {
            mines_around(mines, meta, x, y) as u8
        },
        field_state: FieldState::Closed,
    }
}

/// The cells of the untouched board `meta` with the given mines, column
/// after column.
pub open spec fn built_cells(meta: Metadata, mines: Seq<(i32, i32)>) -> Seq<Field> {
    Seq::new(
        (meta.x_size * meta.y_size) as nat,
        |i: int| built_cell(mines, meta, i / (meta.y_size as int), i % (meta.y_size as int)),
    )
}

/// The cell `(x, y)` of the untouched board is where `flat_index` says.
pub proof fn lemma_built_cell(meta: Metadata, mines: Seq<(i32, i32)>, x: int, y: int)
    requires
        meta.valid(),
        meta.contains(x, y),
    ensures
        0 <= flat_index(x, y, meta.y_size as int) < built_cells(meta, mines).len(),
        built_cells(meta, mines)[flat_index(x, y, meta.y_size as int)] == built_cell(
            mines,
            meta,
            x,
            y,
        ),
{
    lemma_flat_index_bounds(x, y, meta.x_size as int, meta.y_size as int);
    lemma_fundamental_div_mod_converse(
        flat_index(x, y, meta.y_size as int),
        meta.y_size as int,
        x,
        y,
    );
}

/// On the untouched board every cell without a mine holds the number of
/// mines among its neighbours, counted one neighbour after the other.
pub proof fn lemma_adjacency(meta: Metadata, mines: Seq<(i32, i32)>, x: int, y: int)
    requires
        meta.valid(),
        meta.contains(x, y),
        !mines.contains((x as i32, y as i32)),
    ensures
        built_cells(meta, mines)[flat_index(x, y, meta.y_size as int)].value == mines_around(
            mines,
            meta,
            x,
            y,
        ),
        !built_cells(meta, mines)[flat_index(x, y, meta.y_size as int)].mine,
{
    lemma_built_cell(meta, mines, x, y);
}

/// The number of mines among `cells`.
pub open spec fn count_mines(cells: Seq<Field>) -> int
    decreases cells.len(),
{
    if cells.len() == 0 {
        0
    } else {
        count_mines(cells.drop_last()) + if cells.last().mine {
            1int
        } else {
            0
        }
    }
}

/// The number of opened cells among `cells`.
pub open spec fn count_opened(cells: Seq<Field>) -> int
    decreases cells.len(),
{
    if cells.len() == 0 {
        0
    } else {
        count_opened(cells.drop_last()) + if cells.last().field_state == FieldState::Opened {
            1int
        } else {
            0
        }
    }
}

/// There are no more mines or opened cells than cells.
pub proof fn lemma_count_bounds(cells: Seq<Field>)
    ensures
        0 <= count_mines(cells) <= cells.len(),
        0 <= count_opened(cells) <= cells.len(),
    decreases cells.len(),
{
    if cells.len() > 0 {
        lemma_count_bounds(cells.drop_last());
    }
}

/// Replacing one cell changes the counts by what that cell contributes.
pub proof fn lemma_count_update(cells: Seq<Field>, i: int, field: Field)
    requires
        0 <= i < cells.len(),
    ensures
        count_mines(cells.update(i, field)) == count_mines(cells) - (if cells[i].mine {
            1int
        } else {
            0
        }) + (if field.mine {
            1int
        } else {
            0
        }),
        count_opened(cells.update(i, field)) == count_opened(cells) - (if cells[i].field_state
            == FieldState::Opened {
            1int
        } else {
            0
        }) + (if field.field_state == FieldState::Opened {
            1int
        } else {
            0
        }),
    decreases cells.len(),
{
    let updated = cells.update(i, field);
    if i == cells.len() - 1 {
        assert(updated.drop_last() == cells.drop_last());
    } else {
        assert(updated.drop_last() == cells.drop_last().update(i, field));
        lemma_count_update(cells.drop_last(), i, field);
    }
}

/// Cells without any mine or opened cell count zero.
pub proof fn lemma_count_none(cells: Seq<Field>)
    requires
        forall|i: int| 0 <= i < cells.len() ==> cells[i] == Field::new_spec(),
    ensures
        count_mines(cells) == 0,
        count_opened(cells) == 0,
    decreases cells.len(),
{
    if cells.len() > 0 {
        lemma_count_none(cells.drop_last());
    }
}

/// 1 if `(x, y)` is a cell of the board `meta` that holds a mine in `cells`,
/// else 0.
pub open spec fn mine_at(cells: Seq<Field>, meta: Metadata, x: int, y: int) -> int {
    if meta.contains(x, y) && cells[flat_index(x, y, meta.y_size as int)].mine {
        1
    } else {
        0
    }
}

/// The number of mines among the up to eight neighbours of `(x, y)`.
pub open spec fn adjacent_mines(cells: Seq<Field>, meta: Metadata, x: int, y: int) -> int {
    mine_at(cells, meta, x - 1, y - 1) + mine_at(cells, meta, x - 1, y) + mine_at(
        cells,
        meta,
        x - 1,
        y + 1,
    ) + mine_at(cells, meta, x, y - 1) + mine_at(cells, meta, x, y + 1) + mine_at(
        cells,
        meta,
        x + 1,
        y - 1,
    ) + mine_at(cells, meta, x + 1, y) + mine_at(cells, meta, x + 1, y + 1)
}

/// A grid of cells with its counters and the mask of changed cells.
#[derive(Debug)]
pub struct Board {
    fields: Vec<Field>,
    changed_fields: Vec<bool>,
    metadata: Metadata,
    mine_count: u32,
    open_fields: u32,
    total_fields: u32,
}

impl Board {
    /// The cells, column after column.
    pub closed spec fn cells(&self) -> Seq<Field> {
        self.fields@
    }

    /// For each cell, whether it changed since the mask was last cleared.
    pub closed spec fn changed_cells(&self) -> Seq<bool> {
        self.changed_fields@
    }

    /// The dimensions.
    pub closed spec fn metadata_spec(&self) -> Metadata {
        self.metadata
    }

    /// The number of mines.
    pub closed spec fn mine_count_spec(&self) -> int {
        self.mine_count as int
    }

    /// The number of opened cells.
    pub closed spec fn opened_count_spec(&self) -> int {
        self.open_fields as int
    }

    /// The number of cells.
    pub closed spec fn total_fields_spec(&self) -> int {
        self.total_fields as int
    }

    /// The number of columns.
    pub open spec fn width(&self) -> int {
        self.metadata_spec().x_size as int
    }

    /// The number of rows.
    pub open spec fn height(&self) -> int {
        self.metadata_spec().y_size as int
    }

    /// Whether `(x, y)` is a cell of this board.
    pub open spec fn in_bounds(&self, x: int, y: int) -> bool {
        self.metadata_spec().contains(x, y)
    }

    /// The cell `(x, y)`.
    pub open spec fn cell(&self, x: int, y: int) -> Field {
        self.cells()[flat_index(x, y, self.height())]
    }

    /// Whether the cell `(x, y)` changed since the mask was last cleared.
    pub open spec fn changed(&self, x: int, y: int) -> bool {
        self.changed_cells()[flat_index(x, y, self.height())]
    }

    /// The number of mines next to the cell `(x, y)`.
    pub open spec fn neighbour_mines(&self, x: int, y: int) -> int {
        adjacent_mines(self.cells(), self.metadata_spec(), x, y)
    }

    /// The board is consistent: the dimensions are those of a board, there is
    /// one cell and one mask entry for each position, the counters count
    /// what they are named after, and every cell without a mine knows the
    /// number of mines next to it.
    pub open spec fn wf(&self) -> bool {
        &&& self.metadata_spec().valid()
        &&& self.cells().len() == self.width() * self.height()
        &&& self.changed_cells().len() == self.width() * self.height()
        &&& self.total_fields_spec() == self.width() * self.height()
        &&& self.mine_count_spec() == count_mines(self.cells())
        &&& self.opened_count_spec() == count_opened(self.cells())
        &&& forall|x: int, y: int|
            self.in_bounds(x, y) ==> (#[trigger] self.cell(x, y)).value == if self.cell(
                x,
                y,
            ).mine {
                0
            } else {
                self.neighbour_mines(x, y)
            }
    }

    /// The board of the given dimensions on which every cell is closed and
    /// marked as changed, and none holds a mine.
    ///
    /// Fails with `MalformedMetadata` if the dimensions are not those of a
    /// board.
    pub fn new(metadata: &Metadata) -> (board: Result<Board, MinesweeperError>)
        ensures
            match board {
                Ok(b) => {
                    &&& metadata.valid()
                    &&& b.wf()
                    &&& b.metadata_spec() == *metadata
                    &&& b.cells() == Seq::new(
                        (metadata.x_size * metadata.y_size) as nat,
                        |i: int| Field::new_spec(),
                    )
                    &&& b.changed_cells() == Seq::new(
                        (metadata.x_size * metadata.y_size) as nat,
                        |i: int| true,
                    )
                },
                Err(e) => e == MinesweeperError::MalformedMetadata && !metadata.valid(),
            },
    {
        if !metadata.is_valid() {
            return Err(MinesweeperError::MalformedMetadata);
        }
        let total: u32 = metadata.area();
        let fields: Vec<Field> = vec![Field::new(); total as usize];
        let changed_fields: Vec<bool> = vec![true; total as usize];
        let board = Board {
            fields,
            changed_fields,
            metadata: *metadata,
            mine_count: 0,
            open_fields: 0,
            total_fields: total,
        };
        proof {
            assert(board.cells() =~= Seq::new(total as nat, |i: int| Field::new_spec()));
            assert(board.changed_cells() =~= Seq::new(total as nat, |i: int| true));
            lemma_count_none(board.cells());
            assert forall|x: int, y: int| board.in_bounds(x, y) implies (#[trigger] board.cell(
                x,
                y,
            )).value == if board.cell(x, y).mine {
                0
            } else {
                board.neighbour_mines(x, y)
            } by {
                lemma_flat_index_bounds(x, y, board.width(), board.height());
                lemma_no_mines_around(board.cells(), board.metadata_spec(), x, y);
            }
        }
        Ok(board)
    }

    /// This is the board of the dimensions `meta` with a mine on each of the
    /// cells `mines` and nowhere else, on which nothing has been done yet:
    /// every cell is closed and marked as changed.
    pub open spec fn built_from(&self, meta: Metadata, mines: Seq<(i32, i32)>) -> bool {
        &&& self.wf()
        &&& self.metadata_spec() == meta
        &&& self.cells() == built_cells(meta, mines)
        &&& self.changed_cells() == Seq::new(
            (meta.x_size * meta.y_size) as nat,
            |i: int| true,
        )
        &&& self.mine_count_spec() == mines.to_set().len()
        &&& self.opened_count_spec() == 0
    }

    /// Builds the board of the given dimensions with a mine on each of the
    /// cells `mines`. A cell that is named twice gets one mine. Every cell
    /// without a mine is given the number of mines among its neighbours.
    ///
    /// Fails with `MalformedMetadata` if the dimensions are not those of a
    /// board, else with `CoordinateOutOfBounds` if one of `mines` is no cell
    /// of the board.
    pub fn build(metadata: &Metadata, mines: &[(i32, i32)]) -> (board: Result<
        Board,
        MinesweeperError,
    >)
        ensures
            match board {
                Ok(b) => {
                    &&& metadata.valid()
                    &&& all_in_bounds(mines@, *metadata)
                    &&& b.built_from(*metadata, mines@)
                },
                Err(e) => if !metadata.valid() {
                    e == MinesweeperError::MalformedMetadata
                } else {
                    e == MinesweeperError::CoordinateOutOfBounds && !all_in_bounds(
                        mines@,
                        *metadata,
                    )
                },
            },
    {
        if !metadata.is_valid() {
            return Err(MinesweeperError::MalformedMetadata);
        }
        if !mines_fit(mines, metadata) {
            return Err(MinesweeperError::CoordinateOutOfBounds);
        }
        let total: u32 = metadata.area();
        let mut fields: Vec<Field> = vec![Field::new(); total as usize];
        let changed_fields: Vec<bool> = vec![true; total as usize];
        proof {
            assert(fields@ =~= Seq::new(total as nat, |i: int| Field::new_spec()));
        }
        let mine_count: u32 = place_mines(&mut fields, metadata, mines);
        let ghost marked = fields@;
        count_neighbours(&mut fields, metadata);
        let board = Board {
            fields,
            changed_fields,
            metadata: *metadata,
            mine_count,
            open_fields: 0,
            total_fields: total,
        };
        proof {
            assert forall|x: int, y: int| board.in_bounds(x, y) implies {
                &&& (#[trigger] board.cell(x, y)).mine == mines@.contains((x as i32, y as i32))
                &&& board.cell(x, y).field_state == FieldState::Closed
                &&& board.cell(x, y).value == if board.cell(x, y).mine {
                    0
                } else {
                    board.neighbour_mines(x, y)
                }
            } by {
                lemma_flat_index_bounds(x, y, board.width(), board.height());
                let i = flat_index(x, y, board.height());
                assert(board.cells()[i].mine == marked[i].mine);
                assert(counted(board.cells(), board.cells(), *metadata, x, y));
            }
            assert(board.changed_cells() =~= Seq::new(total as nat, |i: int| true));
            assert forall|a: int, b: int|
                metadata.contains(a, b) implies (#[trigger] board.cells()[flat_index(
                a,
                b,
                metadata.y_size as int,
            )]).mine == mines@.contains((a as i32, b as i32)) by {
                assert(board.cell(a, b).mine == mines@.contains((a as i32, b as i32)));
            }
            let expected = built_cells(*metadata, mines@);
            assert forall|i: int| 0 <= i < expected.len() implies board.cells()[i]
                == expected[i] by {
                let x = i / (metadata.y_size as int);
                let y = i % (metadata.y_size as int);
                lemma_flat_index_split(i, metadata.x_size as int, metadata.y_size as int);
                assert(board.cell(x, y) == board.cells()[i]);
                lemma_same_count(board.cells(), mines@, *metadata, x, y);
            }
            assert(board.cells() =~= expected);
        }
        Ok(board)
    }

    /// Puts `field` in place of the cell `(x, y)` and marks the cell as
    /// changed.
    fn replace(&mut self, x: i32, y: i32, field: Field)
        requires
            old(self).wf(),
            old(self).in_bounds(x as int, y as int),
            field.mine == old(self).cell(x as int, y as int).mine,
            field.value == old(self).cell(x as int, y as int).value,
        ensures
            final(self).wf(),
            final(self).metadata_spec() == old(self).metadata_spec(),
            final(self).cells() == old(self).cells().update(
                flat_index(x as int, y as int, old(self).height()),
                field,
            ),
            final(self).changed_cells() == old(self).changed_cells().update(
                flat_index(x as int, y as int, old(self).height()),
                true,
            ),
    {
        let index: usize = index_of(&self.metadata, x, y);
        let ghost before = self.fields@;
        let ghost meta = self.metadata;
        let previous: Field = self.fields[index];
        self.fields[index] = field;
        self.changed_fields[index] = true;
        proof {
            lemma_count_update(before, index as int, field);
            lemma_count_bounds(self.fields@);
        }
        if previous.field_state == FieldState::Opened && field.field_state != FieldState::Opened {
            self.open_fields = self.open_fields - 1;
        } else if previous.field_state != FieldState::Opened && field.field_state
            == FieldState::Opened {
            self.open_fields = self.open_fields + 1;
        }
        proof {
            assert forall|a: int, b: int| self.in_bounds(a, b) implies (#[trigger] self.cell(
                a,
                b,
            )).value == if self.cell(a, b).mine {
                0
            } else {
                self.neighbour_mines(a, b)
            } by {
                let i = flat_index(a, b, meta.y_size as int);
                lemma_flat_index_bounds(a, b, meta.x_size as int, meta.y_size as int);
                lemma_adjacent_same_mines(self.fields@, before, meta, a, b);
                assert(old(self).cell(a, b).value == if old(self).cell(a, b).mine {
                    0
                } else {
                    old(self).neighbour_mines(a, b)
                });
            }
        }
    }

    /// Opens the cell `(x, y)` if it is closed, and marks it as changed.
    pub fn open_field(&mut self, x: i32, y: i32)
        requires
            old(self).wf(),
            old(self).in_bounds(x as int, y as int),
        ensures
            final(self).wf(),
            final(self).metadata_spec() == old(self).metadata_spec(),
            final(self).cells() == old(self).cells().update(
                flat_index(x as int, y as int, old(self).height()),
                opened(old(self).cell(x as int, y as int)),
            ),
            final(self).changed_cells() == old(self).changed_cells().update(
                flat_index(x as int, y as int, old(self).height()),
                true,
            ),
    {
        let index: usize = index_of(&self.metadata, x, y);
        let field: Field = self.fields[index];
        let next: Field = if field.field_state == FieldState::Closed {
            Field { mine: field.mine, value: field.value, field_state: FieldState::Opened }
        } else {
            field
        };
        self.replace(x, y, next);
    }

    /// Puts a flag on the cell `(x, y)` if it is closed, and marks it as
    /// changed.
    pub fn place_flag(&mut self, x: i32, y: i32)
        requires
            old(self).wf(),
            old(self).in_bounds(x as int, y as int),
        ensures
            final(self).wf(),
            final(self).metadata_spec() == old(self).metadata_spec(),
            final(self).cells() == old(self).cells().update(
                flat_index(x as int, y as int, old(self).height()),
                flagged(old(self).cell(x as int, y as int)),
            ),
            final(self).changed_cells() == old(self).changed_cells().update(
                flat_index(x as int, y as int, old(self).height()),
                true,
            ),
    {
        let index: usize = index_of(&self.metadata, x, y);
        let field: Field = self.fields[index];
        let next: Field = if field.field_state == FieldState::Closed {
            Field { mine: field.mine, value: field.value, field_state: FieldState::Flagged }
        } else {
            field
        };
        self.replace(x, y, next);
    }

    /// Takes the flag off the cell `(x, y)` if it has one, and marks the
    /// cell as changed.
    pub fn remove_flag(&mut self, x: i32, y: i32)
        requires
            old(self).wf(),
            old(self).in_bounds(x as int, y as int),
        ensures
            final(self).wf(),
            final(self).metadata_spec() == old(self).metadata_spec(),
            final(self).cells() == old(self).cells().update(
                flat_index(x as int, y as int, old(self).height()),
                unflagged(old(self).cell(x as int, y as int)),
            ),
            final(self).changed_cells() == old(self).changed_cells().update(
                flat_index(x as int, y as int, old(self).height()),
                true,
            ),
    {
        let index: usize = index_of(&self.metadata, x, y);
        let field: Field = self.fields[index];
        let next: Field = if field.field_state == FieldState::Flagged {
            Field { mine: field.mine, value: field.value, field_state: FieldState::Closed }
        } else {
            field
        };
        self.replace(x, y, next);
    }

    /// Marks every cell as unchanged.
    pub fn clear_changed(&mut self)
        requires
            old(self).wf(),
        ensures
            final(self).wf(),
            final(self).metadata_spec() == old(self).metadata_spec(),
            final(self).cells() == old(self).cells(),
            final(self).changed_cells() == Seq::new(
                old(self).changed_cells().len(),
                |i: int| false,
            ),
    {
        let mut i: usize = 0;
        while i < self.changed_fields.len()
            invariant
                0 <= i <= self.changed_fields@.len(),
                self.changed_fields@.len() == old(self).changed_fields@.len(),
                self.fields == old(self).fields,
                self.metadata == old(self).metadata,
                self.mine_count == old(self).mine_count,
                self.open_fields == old(self).open_fields,
                self.total_fields == old(self).total_fields,
                forall|j: int| 0 <= j < i ==> !self.changed_fields@[j],
            decreases self.changed_fields@.len() - i,
        {
            self.changed_fields[i] = false;
            i += 1;
        }
        proof {
            assert(self.changed_cells() =~= Seq::new(
                old(self).changed_cells().len(),
                |i: int| false,
            ));
            assert forall|a: int, b: int| self.in_bounds(a, b) implies (#[trigger] self.cell(
                a,
                b,
            )).value == if self.cell(a, b).mine {
                0
            } else {
                self.neighbour_mines(a, b)
            } by {
                assert(self.cell(a, b) == old(self).cell(a, b));
            }
        }
    }

    /// Returns the cell `(x, y)`.
    pub fn at(&self, x: i32, y: i32) -> (field: Field)
        requires
            self.wf(),
            self.in_bounds(x as int, y as int),
        ensures
            field == self.cell(x as int, y as int),
            field.value <= 8,
    {
        let index: usize = index_of(&self.metadata, x, y);
        assert(self.cell(x as int, y as int).value == if self.cell(x as int, y as int).mine {
            0
        } else {
            self.neighbour_mines(x as int, y as int)
        });
        self.fields[index]
    }

    /// Returns the cell `(x, y)`, if there is one.
    pub fn field(&self, x: i32, y: i32) -> (field: Option<Field>)
        requires
            self.wf(),
        ensures
            field == if self.in_bounds(x as int, y as int) {
                Some(self.cell(x as int, y as int))
            } else {
                None
            },
    {
        if self.metadata.holds(x, y) {
            let index: usize = index_of(&self.metadata, x, y);
            Some(self.fields[index])
        } else {
            None
        }
    }

    /// Returns whether the cell `(x, y)` changed since the mask was last
    /// cleared; `false` if there is no such cell.
    pub fn is_changed(&self, x: i32, y: i32) -> (changed: bool)
        requires
            self.wf(),
        ensures
            changed == (self.in_bounds(x as int, y as int) && self.changed(x as int, y as int)),
    {
        if self.metadata.holds(x, y) {
            let index: usize = index_of(&self.metadata, x, y);
            self.changed_fields[index]
        } else {
            false
        }
    }

    /// Returns the dimensions.
    pub fn metadata(&self) -> (metadata: Metadata)
        ensures
            metadata == self.metadata_spec(),
    {
        self.metadata
    }

    /// Returns the number of mines.
    pub fn mine_count(&self) -> (count: u32)
        ensures
            count == self.mine_count_spec(),
    {
        self.mine_count
    }

    /// Returns the number of opened cells.
    pub fn opened_count(&self) -> (count: u32)
        ensures
            count == self.opened_count_spec(),
    {
        self.open_fields
    }

    /// Returns the number of cells.
    pub fn total_fields(&self) -> (count: u32)
        ensures
            count == self.total_fields_spec(),
    {
        self.total_fields
    }
}

/// The cell after it was opened: opened if it was closed, else as before.
pub open spec fn opened(field: Field) -> Field {
    if field.field_state == FieldState::Closed {
        Field { mine: field.mine, value: field.value, field_state: FieldState::Opened }
    } else {
        field
    }
}

/// The cell after a flag was placed: flagged if it was closed, else as
/// before.
pub open spec fn flagged(field: Field) -> Field {
    if field.field_state == FieldState::Closed {
        Field { mine: field.mine, value: field.value, field_state: FieldState::Flagged }
    } else {
        field
    }
}

/// The cell after a flag was removed: closed if it was flagged, else as
/// before.
pub open spec fn unflagged(field: Field) -> Field {
    if field.field_state == FieldState::Flagged {
        Field { mine: field.mine, value: field.value, field_state: FieldState::Closed }
    } else {
        field
    }
}

/// Whether every one of `mines` is a cell of the board `meta`.
pub open spec fn all_in_bounds(mines: Seq<(i32, i32)>, meta: Metadata) -> bool {
    forall|k: int| 0 <= k < mines.len() ==> meta.contains(mines[k].0 as int, mines[k].1 as int)
}

/// What `cells` says of the cell `(x, y)`, with the number of mines next to
/// it taken from `marked`.
pub open spec fn counted(cells: Seq<Field>, marked: Seq<Field>, meta: Metadata, x: int, y: int)
    -> bool {
    cells[flat_index(x, y, meta.y_size as int)].value == if marked[flat_index(
        x,
        y,
        meta.y_size as int,
    )].mine {
        0
    } else {
        adjacent_mines(marked, meta, x, y)
    }
}

/// The number of mines next to a cell depends on where the mines are and on
/// nothing else.
pub proof fn lemma_adjacent_same_mines(
    first: Seq<Field>,
    second: Seq<Field>,
    meta: Metadata,
    x: int,
    y: int,
)
    requires
        meta.valid(),
        first.len() == meta.x_size * meta.y_size,
        second.len() == first.len(),
        forall|i: int| 0 <= i < first.len() ==> first[i].mine == second[i].mine,
    ensures
        adjacent_mines(first, meta, x, y) == adjacent_mines(second, meta, x, y),
{
    assert forall|a: int, b: int| mine_at(first, meta, a, b) == mine_at(second, meta, a, b) by {
        if meta.contains(a, b) {
            lemma_flat_index_bounds(a, b, meta.x_size as int, meta.y_size as int);
        }
    }
}

/// Returns where the cell `(x, y)` is stored.
fn index_of(meta: &Metadata, x: i32, y: i32) -> (index: usize)
    requires
        meta.valid(),
        meta.contains(x as int, y as int),
    ensures
        index == flat_index(x as int, y as int, meta.y_size as int),
        index < meta.x_size * meta.y_size,
{
    proof {
        lemma_flat_index_bounds(x as int, y as int, meta.x_size as int, meta.y_size as int);
    }
    let index: i64 = (x as i64) * (meta.y_size as i64) + (y as i64);
    index as usize
}

/// Returns 1 if `(x, y)` is a cell that holds a mine, else 0.
fn mine_flag(fields: &Vec<Field>, meta: &Metadata, x: i64, y: i64) -> (flag: u8)
    requires
        meta.valid(),
        fields@.len() == meta.x_size * meta.y_size,
    ensures
        flag == mine_at(fields@, *meta, x as int, y as int),
{
    if 0 <= x && x < meta.x_size as i64 && 0 <= y && y < meta.y_size as i64 {
        let index: usize = index_of(meta, x as i32, y as i32);
        if fields[index].mine {
            1
        } else {
            0
        }
    } else {
        0
    }
}

/// Returns the number of mines next to the cell `(x, y)`.
fn count_around(fields: &Vec<Field>, meta: &Metadata, x: i32, y: i32) -> (count: u8)
    requires
        meta.valid(),
        fields@.len() == meta.x_size * meta.y_size,
    ensures
        count == adjacent_mines(fields@, *meta, x as int, y as int),
        count <= 8,
{
    let x: i64 = x as i64;
    let y: i64 = y as i64;
    mine_flag(fields, meta, x - 1, y - 1) + mine_flag(fields, meta, x - 1, y) + mine_flag(
        fields,
        meta,
        x - 1,
        y + 1,
    ) + mine_flag(fields, meta, x, y - 1) + mine_flag(fields, meta, x, y + 1) + mine_flag(
        fields,
        meta,
        x + 1,
        y - 1,
    ) + mine_flag(fields, meta, x + 1, y) + mine_flag(fields, meta, x + 1, y + 1)
}

/// Returns whether every one of `mines` is a cell of the board `meta`.
fn mines_fit(mines: &[(i32, i32)], meta: &Metadata) -> (fit: bool)
    ensures
        fit == all_in_bounds(mines@, *meta),
{
    let mut k: usize = 0;
    while k < mines.len()
        invariant
            0 <= k <= mines.len(),
            forall|j: int| 0 <= j < k ==> meta.contains(mines@[j].0 as int, mines@[j].1 as int),
        decreases mines.len() - k,
    {
        if !meta.holds(mines[k].0, mines[k].1) {
            return false;
        }
        k += 1;
    }
    true
}

/// Puts a mine on each of the cells `mines` and returns how many cells got
/// one.
fn place_mines(fields: &mut Vec<Field>, meta: &Metadata, mines: &[(i32, i32)]) -> (count: u32)
    requires
        meta.valid(),
        all_in_bounds(mines@, *meta),
        old(fields)@ == Seq::new((meta.x_size * meta.y_size) as nat, |i: int| Field::new_spec()),
    ensures
        final(fields)@.len() == old(fields)@.len(),
        forall|i: int|
            0 <= i < final(fields)@.len() ==> (#[trigger] final(fields)@[i]).value == 0
                && final(fields)@[i].field_state == FieldState::Closed,
        forall|x: int, y: int|
            meta.contains(x, y) ==> (#[trigger] final(fields)@[flat_index(
                x,
                y,
                meta.y_size as int,
            )]).mine == mines@.contains((x as i32, y as i32)),
        count == count_mines(final(fields)@),
        count == mines@.to_set().len(),
{
    let mut count: u32 = 0;
    let mut k: usize = 0;
    proof {
        lemma_count_none(fields@);
        assert(mines@.take(0).to_set() =~= Set::<(i32, i32)>::empty());
        assert forall|x: int, y: int| meta.contains(x, y) implies (#[trigger] fields@[flat_index(
            x,
            y,
            meta.y_size as int,
        )]).mine == mines@.take(0).contains((x as i32, y as i32)) by {
            lemma_flat_index_bounds(x, y, meta.x_size as int, meta.y_size as int);
        }
    }
    while k < mines.len()
        invariant
            0 <= k <= mines.len(),
            meta.valid(),
            all_in_bounds(mines@, *meta),
            fields@.len() == meta.x_size * meta.y_size,
            forall|i: int|
                0 <= i < fields@.len() ==> (#[trigger] fields@[i]).value == 0
                    && fields@[i].field_state == FieldState::Closed,
            forall|x: int, y: int|
                meta.contains(x, y) ==> (#[trigger] fields@[flat_index(
                    x,
                    y,
                    meta.y_size as int,
                )]).mine == mines@.take(k as int).contains((x as i32, y as i32)),
            count == count_mines(fields@),
            count == mines@.take(k as int).to_set().len(),
        decreases mines.len() - k,
    {
        let mine: (i32, i32) = mines[k];
        let index: usize = index_of(meta, mine.0, mine.1);
        let ghost before = fields@;
        let ghost prefix = mines@.take(k as int);
        let ghost longer = mines@.take(k as int + 1);
        let field: Field = fields[index];
        proof {
            assert(longer == prefix.push(mine));
            prefix.lemma_push_to_set_commute(mine);
            seq_to_set_is_finite(prefix);
            lemma_count_bounds(before);
            assert(field.mine == prefix.contains(mine));
            assert(prefix.to_set().contains(mine) == prefix.contains(mine));
        }
        if !field.mine {
            fields[index] =
                Field { mine: true, value: field.value, field_state: field.field_state };
            proof {
                lemma_count_update(before, index as int, fields@[index as int]);
                lemma_count_bounds(fields@);
            }
            count += 1;
        }
        proof {
            assert forall|x: int, y: int|
                meta.contains(x, y) implies (#[trigger] fields@[flat_index(
                x,
                y,
                meta.y_size as int,
            )]).mine == longer.contains((x as i32, y as i32)) by {
                let i = flat_index(x, y, meta.y_size as int);
                lemma_flat_index_bounds(x, y, meta.x_size as int, meta.y_size as int);
                let p = (x as i32, y as i32);
                if i == index {
                    lemma_flat_index_injective(
                        x,
                        y,
                        mine.0 as int,
                        mine.1 as int,
                        meta.y_size as int,
                    );
                    assert(p == mine);
                    assert(longer[k as int] == mine);
                } else {
                    assert(p != mine);
                    assert(fields@[i] == before[i]);
                    if prefix.contains(p) {
                        let j = choose|j: int| 0 <= j < prefix.len() && prefix[j] == p;
                        assert(longer[j] == p);
                    }
                    if longer.contains(p) {
                        let j = choose|j: int| 0 <= j < longer.len() && longer[j] == p;
                        assert(j < k);
                        assert(prefix[j] == p);
                    }
                }
            }
        }
        k += 1;
    }
    proof {
        assert(mines@.take(k as int) == mines@);
    }
    count
}

/// Writes into each cell without a mine the number of mines next to it.
fn count_neighbours(fields: &mut Vec<Field>, meta: &Metadata)
    requires
        meta.valid(),
        old(fields)@.len() == meta.x_size * meta.y_size,
        forall|i: int|
            0 <= i < old(fields)@.len() ==> (#[trigger] old(fields)@[i]).value == 0
                && old(fields)@[i].field_state == FieldState::Closed,
    ensures
        final(fields)@.len() == old(fields)@.len(),
        forall|i: int|
            0 <= i < final(fields)@.len() ==> (#[trigger] final(fields)@[i]).mine
                == old(fields)@[i].mine && final(fields)@[i].field_state
                == FieldState::Closed,
        forall|x: int, y: int|
            meta.contains(x, y) ==> #[trigger] counted(final(fields)@, final(fields)@, *meta, x, y),
        count_mines(final(fields)@) == count_mines(old(fields)@),
        count_opened(final(fields)@) == 0,
{
    let ghost marked = fields@;
    proof {
        lemma_closed_not_opened(marked);
    }
    let mut x: i32 = 0;
    while x < meta.x_size
        invariant
            0 <= x <= meta.x_size,
            meta.valid(),
            marked.len() == meta.x_size * meta.y_size,
            fields@.len() == marked.len(),
            forall|i: int|
                0 <= i < fields@.len() ==> (#[trigger] fields@[i]).mine == marked[i].mine
                    && fields@[i].field_state == FieldState::Closed,
            forall|a: int, b: int|
                0 <= a < x && 0 <= b < meta.y_size ==> #[trigger] counted(
                    fields@,
                    marked,
                    *meta,
                    a,
                    b,
                ),
            count_mines(fields@) == count_mines(marked),
            count_opened(fields@) == 0,
        decreases meta.x_size - x,
    {
        let mut y: i32 = 0;
        while y < meta.y_size
            invariant
                0 <= x < meta.x_size,
                0 <= y <= meta.y_size,
                meta.valid(),
                marked.len() == meta.x_size * meta.y_size,
                fields@.len() == marked.len(),
                forall|i: int|
                    0 <= i < fields@.len() ==> (#[trigger] fields@[i]).mine == marked[i].mine
                        && fields@[i].field_state == FieldState::Closed,
                forall|a: int, b: int|
                    (0 <= a < x && 0 <= b < meta.y_size) || (a == x && 0 <= b < y)
                        ==> #[trigger] counted(fields@, marked, *meta, a, b),
                count_mines(fields@) == count_mines(marked),
                count_opened(fields@) == 0,
            decreases meta.y_size - y,
        {
            let index: usize = index_of(meta, x, y);
            let field: Field = fields[index];
            let ghost before = fields@;
            let around: u8 = count_around(fields, meta, x, y);
            let value: u8 = if field.mine {
                0
            } else {
                around
            };
            fields[index] = Field { mine: field.mine, value, field_state: field.field_state };
            proof {
                lemma_count_update(before, index as int, fields@[index as int]);
                lemma_adjacent_same_mines(before, marked, *meta, x as int, y as int);
                assert forall|a: int, b: int|
                    (0 <= a < x && 0 <= b < meta.y_size) || (a == x && 0 <= b < y + 1)
                        implies #[trigger] counted(fields@, marked, *meta, a, b) by {
                    let i = flat_index(a, b, meta.y_size as int);
                    lemma_flat_index_bounds(a, b, meta.x_size as int, meta.y_size as int);
                    if i == index {
                        lemma_flat_index_injective(a, b, x as int, y as int, meta.y_size as int);
                    } else {
                        assert(counted(before, marked, *meta, a, b));
                        assert(fields@[i] == before[i]);
                    }
                }
            }
            y += 1;
        }
        x += 1;
    }
    proof {
        assert forall|a: int, b: int| meta.contains(a, b) implies #[trigger] counted(
            fields@,
            fields@,
            *meta,
            a,
            b,
        ) by {
            assert(counted(fields@, marked, *meta, a, b));
            lemma_flat_index_bounds(a, b, meta.x_size as int, meta.y_size as int);
            lemma_adjacent_same_mines(fields@, marked, *meta, a, b);
        }
    }
}

/// Cells that are all closed count no opened cell.
proof fn lemma_closed_not_opened(cells: Seq<Field>)
    requires
        forall|i: int|
            0 <= i < cells.len() ==> (#[trigger] cells[i]).field_state == FieldState::Closed,
    ensures
        count_opened(cells) == 0,
    decreases cells.len(),
{
    if cells.len() > 0 {
        lemma_closed_not_opened(cells.drop_last());
    }
}

/// Where the cells hold the mines `mines`, counting the mines among the
/// neighbours of a cell comes to the same on the cells and on `mines`.
proof fn lemma_same_count(cells: Seq<Field>, mines: Seq<(i32, i32)>, meta: Metadata, x: int, y: int)
    requires
        meta.valid(),
        cells.len() == meta.x_size * meta.y_size,
        forall|a: int, b: int|
            meta.contains(a, b) ==> (#[trigger] cells[flat_index(a, b, meta.y_size as int)]).mine
                == mines.contains((a as i32, b as i32)),
    ensures
        adjacent_mines(cells, meta, x, y) == mines_around(mines, meta, x, y),
        0 <= mines_around(mines, meta, x, y) <= 8,
{
    assert forall|a: int, b: int| mine_at(cells, meta, a, b) == has_mine(mines, meta, a, b) by {
        if meta.contains(a, b) {
            assert(cells[flat_index(a, b, meta.y_size as int)].mine == mines.contains(
                (a as i32, b as i32),
            ));
        }
    }
}

/// Where no cell holds a mine, no cell has a mine next to it.
proof fn lemma_no_mines_around(cells: Seq<Field>, meta: Metadata, x: int, y: int)
    requires
        meta.valid(),
        cells.len() == meta.x_size * meta.y_size,
        forall|i: int| 0 <= i < cells.len() ==> !cells[i].mine,
    ensures
        adjacent_mines(cells, meta, x, y) == 0,
{
    assert forall|a: int, b: int| mine_at(cells, meta, a, b) == 0 by {
        if meta.contains(a, b) {
            lemma_flat_index_bounds(a, b, meta.x_size as int, meta.y_size as int);
        }
    }
}

} // verus!
