//! Pictures of a board.
//!
//! A picture shows one square tile for each cell: the sprite of what a
//! player sees of the cell. Pixels are stored line after line from the top,
//! four bytes to the pixel; the cell `(x, y)` is column `x` and row `y` of
//! the tiles.

use crate::encoder::{encode_gif, encode_webp, gif_encoding, pictures, webp_encoding};
use crate::error::MinesweeperError;
use crate::minesweeper_logic::{
    flat_index, lemma_flat_index_bounds, lemma_flat_index_injective, lemma_flat_index_split,
    Board, Field, FieldState,
};
use crate::parser::{actions_in_bounds, ActionType, FlagAction, Metadata, OpenAction};
use crate::timeline::{merge, merged, replayed, step_applied, steps_valid, Step};
use image::ImageError;
use vstd::prelude::*;

verus! {

/// The number of sprites: one for each number of mines next to an opened
/// cell, and one each for a closed cell, a flag and a mine.
pub const TILE_COUNT: usize = 12;

/// The sprite of a closed cell.
pub const CLOSED_TILE: usize = 9;

/// The sprite of a flagged cell.
pub const FLAGGED_TILE: usize = 10;

/// The sprite of an opened mine.
pub const MINE_TILE: usize = 11;

/// The number of the sprite that shows the cell.
pub open spec fn tile_of(field: Field) -> int {
    match field.field_state {
        FieldState::Closed => CLOSED_TILE as int,
        FieldState::Flagged => FLAGGED_TILE as int,
        FieldState::Opened => if field.mine {
            MINE_TILE as int
        } else {
            field.value as int
        },
    }
}

/// The sprites: square pictures of `tile_size` by `tile_size` pixels, line
/// after line, four bytes to the pixel.
#[derive(Debug)]
pub struct SpriteSheet {
    /// The length of a side of a sprite, in pixels.
    pub tile_size: u32,
    /// The pixels of each sprite.
    pub tiles: Vec<Vec<u8>>,
}

impl SpriteSheet {
    /// The sprites have a side, there are `TILE_COUNT` of them, and each has
    /// four bytes for each of its pixels.
    pub open spec fn valid(&self) -> bool {
        &&& self.tile_size > 0
        &&& self.tiles@.len() == TILE_COUNT
        &&& forall|k: int|
            0 <= k < TILE_COUNT ==> (#[trigger] self.tiles@[k])@.len() == self.tile_size
                * self.tile_size * 4
    }

    /// The bytes of the sprite number `k`.
    pub open spec fn sprite(&self, k: int) -> Seq<u8> {
        self.tiles@[k]@
    }

    /// Returns whether the sprites can be used.
    pub fn is_valid(&self) -> (b: bool)
        ensures
            b == self.valid(),
    {
        if self.tile_size == 0 || self.tiles.len() != TILE_COUNT {
            return false;
        }
        let side: u64 = self.tile_size as u64;
        assert(side * side * 4 <= 0xffff_ffff * 0xffff_ffff * 4) by (nonlinear_arith)
            requires
                0 <= side <= 0xffff_ffff,
        ;
        let bytes: u128 = (side as u128) * (side as u128) * 4;
        let mut k: usize = 0;
        while k < TILE_COUNT
            invariant
                0 <= k <= TILE_COUNT,
                self.tiles@.len() == TILE_COUNT,
                bytes == self.tile_size * self.tile_size * 4,
                forall|j: int| 0 <= j < k ==> (#[trigger] self.tiles@[j])@.len() == bytes,
            decreases TILE_COUNT - k,
        {
            if self.tiles[k].len() as u128 != bytes {
                return false;
            }
            k += 1;
        }
        true
    }
}

/// The measures of a picture.
#[derive(Clone, Copy, Debug)]
pub struct Layout {
    /// The number of columns of tiles.
    pub columns: usize,
    /// The number of rows of tiles.
    pub rows: usize,
    /// The length of a side of a tile, in pixels.
    pub tile_size: usize,
    /// The number of bytes of one line of a tile.
    pub tile_line: usize,
    /// The number of bytes of one line of the picture.
    pub line: usize,
    /// The number of lines of the picture.
    pub lines: usize,
    /// The number of bytes of the picture.
    pub total: usize,
    /// The width of the picture, in pixels.
    pub width: u32,
    /// The height of the picture, in pixels.
    pub height: u32,
}

impl Layout {
    /// The measures fit together.
    pub open spec fn wf(&self) -> bool {
        &&& self.columns > 0
        &&& self.rows > 0
        &&& self.tile_size > 0
        &&& self.tile_line == 4 * self.tile_size
        &&& self.line == self.columns * self.tile_line
        &&& self.lines == self.rows * self.tile_size
        &&& self.total == self.lines * self.line
        &&& self.width == self.columns * self.tile_size
        &&& self.height == self.rows * self.tile_size
    }

    /// Whether `(x, y)` is a tile of the picture.
    pub open spec fn has_tile(&self, x: int, y: int) -> bool {
        0 <= x < self.columns && 0 <= y < self.rows
    }

    /// Whether the line `r` of a tile has a byte `q`.
    pub open spec fn has_byte(&self, r: int, q: int) -> bool {
        0 <= r < self.tile_size && 0 <= q < self.tile_line
    }

    /// Where the picture holds the byte `q` of the line `r` of the tile
    /// `(x, y)`.
    pub open spec fn offset(&self, x: int, y: int, r: int, q: int) -> int {
        flat_index(
            flat_index(y, r, self.tile_size as int),
            flat_index(x, q, self.tile_line as int),
            self.line as int,
        )
    }

    /// The bytes of the tiles are bytes of the picture.
    pub proof fn lemma_offset_bounds(&self, x: int, y: int, r: int, q: int)
        requires
            self.wf(),
            self.has_tile(x, y),
            self.has_byte(r, q),
        ensures
            0 <= self.offset(x, y, r, q) < self.total,
            0 <= flat_index(y, r, self.tile_size as int) < self.lines,
            0 <= flat_index(x, q, self.tile_line as int) < self.line,
            0 <= flat_index(r, q, self.tile_line as int) < self.tile_size * self.tile_line,
    {
        lemma_flat_index_bounds(y, r, self.rows as int, self.tile_size as int);
        lemma_flat_index_bounds(x, q, self.columns as int, self.tile_line as int);
        lemma_flat_index_bounds(r, q, self.tile_size as int, self.tile_line as int);
        lemma_flat_index_bounds(
            flat_index(y, r, self.tile_size as int),
            flat_index(x, q, self.tile_line as int),
            self.lines as int,
            self.line as int,
        );
    }

    /// The picture has pixels, and four bytes for each of them.
    pub proof fn lemma_total(&self)
        requires
            self.wf(),
        ensures
            self.total == self.width * self.height * 4,
            1 <= self.width,
            1 <= self.height,
    {
        let columns = self.columns as int;
        let rows = self.rows as int;
        let side = self.tile_size as int;
        assert((rows * side) * (columns * (4 * side)) == (columns * side) * (rows * side) * 4)
            by (nonlinear_arith);
        assert(1 <= columns * side && 1 <= rows * side) by (nonlinear_arith)
            requires
                1 <= columns,
                1 <= rows,
                1 <= side,
        ;
    }

    /// Two bytes of tiles are stored in the same place only if they are the
    /// same byte of the same tile.
    pub proof fn lemma_offset_injective(
        &self,
        x1: int,
        y1: int,
        r1: int,
        q1: int,
        x2: int,
        y2: int,
        r2: int,
        q2: int,
    )
        requires
            self.wf(),
            self.has_tile(x1, y1),
            self.has_byte(r1, q1),
            self.has_tile(x2, y2),
            self.has_byte(r2, q2),
            self.offset(x1, y1, r1, q1) == self.offset(x2, y2, r2, q2),
        ensures
            x1 == x2,
            y1 == y2,
            r1 == r2,
            q1 == q2,
    {
        self.lemma_offset_bounds(x1, y1, r1, q1);
        self.lemma_offset_bounds(x2, y2, r2, q2);
        lemma_flat_index_injective(
            flat_index(y1, r1, self.tile_size as int),
            flat_index(x1, q1, self.tile_line as int),
            flat_index(y2, r2, self.tile_size as int),
            flat_index(x2, q2, self.tile_line as int),
            self.line as int,
        );
        lemma_flat_index_injective(y1, r1, y2, r2, self.tile_size as int);
        lemma_flat_index_injective(x1, q1, x2, q2, self.tile_line as int);
    }
}

/// Whether a picture of the board `meta` with tiles of the given side can
/// be held: its width and its height are 32 bit numbers, and its bytes can
/// be counted.
pub open spec fn canvas_fits(meta: Metadata, tile_size: u32) -> bool {
    &&& meta.x_size * tile_size <= u32::MAX
    &&& meta.y_size * tile_size <= u32::MAX
    &&& (meta.y_size * tile_size) * (meta.x_size * (4 * tile_size)) <= usize::MAX
}

/// The measures of the picture of the board `meta` with tiles of the given
/// side.
pub open spec fn layout_spec(meta: Metadata, tile_size: u32) -> Layout {
    Layout {
        columns: meta.x_size as usize,
        rows: meta.y_size as usize,
        tile_size: tile_size as usize,
        tile_line: (4 * tile_size) as usize,
        line: (meta.x_size * (4 * tile_size)) as usize,
        lines: (meta.y_size * tile_size) as usize,
        total: ((meta.y_size * tile_size) * (meta.x_size * (4 * tile_size))) as usize,
        width: (meta.x_size * tile_size) as u32,
        height: (meta.y_size * tile_size) as u32,
    }
}

/// Returns the measures of the picture of the board `meta` with tiles of the
/// given side, if such a picture can be held.
pub fn layout(meta: &Metadata, tile_size: u32) -> (measures: Option<Layout>)
    requires
        meta.valid(),
        tile_size > 0,
    ensures
        match measures {
            Some(lay) => {
                &&& canvas_fits(*meta, tile_size)
                &&& lay.wf()
                &&& lay == layout_spec(*meta, tile_size)
            },
            None => !canvas_fits(*meta, tile_size),
        },
{
    let columns: u64 = meta.x_size as u64;
    let rows: u64 = meta.y_size as u64;
    let side: u64 = tile_size as u64;
    proof {
        assert(columns * side <= 0x7fff_ffff * 0xffff_ffff && rows * side <= 0x7fff_ffff
            * 0xffff_ffff) by (nonlinear_arith)
            requires
                0 <= columns <= 0x7fff_ffff,
                0 <= rows <= 0x7fff_ffff,
                0 <= side <= 0xffff_ffff,
        ;
    }
    let width: u64 = columns * side;
    let lines: u64 = rows * side;
    if width > 0xffff_ffff || lines > 0xffff_ffff {
        return None;
    }
    let tile_line: u64 = 4 * side;
    proof {
        assert(columns * tile_line == 4 * (columns * side)) by (nonlinear_arith)
            requires
                tile_line == 4 * side,
        ;
    }
    let line: u64 = columns * tile_line;
    proof {
        assert(lines * line <= 0xffff_ffff * (4 * 0xffff_ffff)) by (nonlinear_arith)
            requires
                0 <= lines <= 0xffff_ffff,
                0 <= line <= 4 * 0xffff_ffff,
        ;
    }
    proof {
        assert(lines >= rows && lines >= side && line >= columns && line >= tile_line) by (
            nonlinear_arith)
            requires
                lines == rows * side,
                line == columns * tile_line,
                tile_line == 4 * side,
                rows >= 1,
                columns >= 1,
                side >= 1,
        ;
        assert(line <= lines * line && lines <= lines * line) by (nonlinear_arith)
            requires
                lines >= 1,
                line >= 1,
        ;
    }
    let total: u128 = (lines as u128) * (line as u128);
    if total > usize::MAX as u128 {
        return None;
    }
    Some(
        Layout {
            columns: columns as usize,
            rows: rows as usize,
            tile_size: side as usize,
            tile_line: tile_line as usize,
            line: line as usize,
            lines: lines as usize,
            total: total as usize,
            width: width as u32,
            height: lines as u32,
        },
    )
}

/// Whether the picture shows the sprite in the place of the tile `(x, y)`.
pub open spec fn tile_shows(canvas: Seq<u8>, lay: Layout, x: int, y: int, sprite: Seq<u8>) -> bool {
    forall|r: int, q: int|
        lay.has_byte(r, q) ==> canvas[#[trigger] lay.offset(x, y, r, q)] == sprite[flat_index(
            r,
            q,
            lay.tile_line as int,
        )]
}

/// Whether the two pictures hold the same bytes in the place of every tile
/// but `(x, y)`.
pub open spec fn same_elsewhere(first: Seq<u8>, second: Seq<u8>, lay: Layout, x: int, y: int)
    -> bool {
    forall|x2: int, y2: int, r: int, q: int|
        lay.has_tile(x2, y2) && lay.has_byte(r, q) && (x2 != x || y2 != y)
            ==> first[#[trigger] lay.offset(
            x2,
            y2,
            r,
            q,
        )] == second[lay.offset(x2, y2, r, q)]
}

/// Copies the sprite into the place of the tile `(x, y)`.
pub fn paint_tile(canvas: &mut Vec<u8>, lay: &Layout, x: usize, y: usize, sprite: &[u8])
    requires
        lay.wf(),
        lay.has_tile(x as int, y as int),
        old(canvas)@.len() == lay.total,
        sprite@.len() == lay.tile_size * lay.tile_line,
    ensures
        final(canvas)@.len() == lay.total,
        tile_shows(final(canvas)@, *lay, x as int, y as int, sprite@),
        same_elsewhere(final(canvas)@, old(canvas)@, *lay, x as int, y as int),
{
    let bytes: usize = sprite.len();
    let mut r: usize = 0;
    while r < lay.tile_size
        invariant
            0 <= r <= lay.tile_size,
            bytes == lay.tile_size * lay.tile_line,
            lay.wf(),
            lay.has_tile(x as int, y as int),
            canvas@.len() == lay.total,
            sprite@.len() == lay.tile_size * lay.tile_line,
            same_elsewhere(canvas@, old(canvas)@, *lay, x as int, y as int),
            forall|r2: int, q2: int|
                0 <= r2 < r && 0 <= q2 < lay.tile_line ==> canvas@[#[trigger] lay.offset(
                    x as int,
                    y as int,
                    r2,
                    q2,
                )] == sprite@[flat_index(r2, q2, lay.tile_line as int)],
        decreases lay.tile_size - r,
    {
        proof {
            lay.lemma_offset_bounds(x as int, y as int, r as int, 0);
        }
        let line: usize = y * lay.tile_size + r;
        let from: usize = r * lay.tile_line;
        let mut q: usize = 0;
        while q < lay.tile_line
            invariant
                0 <= q <= lay.tile_line,
                0 <= r < lay.tile_size,
                bytes == lay.tile_size * lay.tile_line,
                lay.wf(),
                lay.has_tile(x as int, y as int),
                line == flat_index(y as int, r as int, lay.tile_size as int),
                from == r * lay.tile_line,
                canvas@.len() == lay.total,
                sprite@.len() == lay.tile_size * lay.tile_line,
                same_elsewhere(canvas@, old(canvas)@, *lay, x as int, y as int),
                forall|r2: int, q2: int|
                    (0 <= r2 < r && 0 <= q2 < lay.tile_line) || (r2 == r && 0 <= q2 < q)
                        ==> canvas@[#[trigger] lay.offset(x as int, y as int, r2, q2)]
                        == sprite@[flat_index(r2, q2, lay.tile_line as int)],
            decreases lay.tile_line - q,
        {
            let ghost before = canvas@;
            proof {
                lay.lemma_offset_bounds(x as int, y as int, r as int, q as int);
            }
            let column: usize = x * lay.tile_line + q;
            let to: usize = line * lay.line + column;
            let byte: u8 = sprite[from + q];
            canvas[to] = byte;
            proof {
                assert(to == lay.offset(x as int, y as int, r as int, q as int));
                assert forall|x2: int, y2: int, r2: int, q2: int|
                    lay.has_tile(x2, y2) && lay.has_byte(r2, q2) && (x2 != x || y2
                        != y) implies canvas@[#[trigger] lay.offset(x2, y2, r2, q2)] == old(
                    canvas,
                )@[lay.offset(x2, y2, r2, q2)] by {
                    lay.lemma_offset_bounds(x2, y2, r2, q2);
                    if lay.offset(x2, y2, r2, q2) == to {
                        lay.lemma_offset_injective(
                            x2,
                            y2,
                            r2,
                            q2,
                            x as int,
                            y as int,
                            r as int,
                            q as int,
                        );
                    }
                    assert(before[lay.offset(x2, y2, r2, q2)] == old(canvas)@[lay.offset(
                        x2,
                        y2,
                        r2,
                        q2,
                    )]);
                }
                assert forall|r2: int, q2: int|
                    (0 <= r2 < r && 0 <= q2 < lay.tile_line) || (r2 == r && 0 <= q2 < q
                        + 1) implies canvas@[#[trigger] lay.offset(x as int, y as int, r2, q2)]
                    == sprite@[flat_index(r2, q2, lay.tile_line as int)] by {
                    lay.lemma_offset_bounds(x as int, y as int, r2, q2);
                    if lay.offset(x as int, y as int, r2, q2) == to {
                        lay.lemma_offset_injective(
                            x as int,
                            y as int,
                            r2,
                            q2,
                            x as int,
                            y as int,
                            r as int,
                            q as int,
                        );
                    } else {
                        assert(before[lay.offset(x as int, y as int, r2, q2)] == sprite@[flat_index(
                            r2,
                            q2,
                            lay.tile_line as int,
                        )]);
                    }
                }
            }
            q += 1;
        }
        r += 1;
    }
}

/// Whether the picture shows each cell by its sprite.
pub open spec fn painted(canvas: Seq<u8>, cells: Seq<Field>, lay: Layout, sheet: SpriteSheet)
    -> bool {
    &&& canvas.len() == lay.total
    &&& forall|x: int, y: int|
        lay.has_tile(x, y) ==> #[trigger] tile_shows(
            canvas,
            lay,
            x,
            y,
            sheet.sprite(tile_of(cells[flat_index(x, y, lay.rows as int)])),
        )
}

/// The picture that shows each cell by its sprite: the byte `i` belongs to
/// the line `i / line` of the picture and is the byte `i % line` of that
/// line, the line belongs to the row `line / tile_size` of tiles and is the
/// line `line % tile_size` of each of them, and so for the columns.
pub open spec fn frame_spec(cells: Seq<Field>, lay: Layout, sheet: SpriteSheet) -> Seq<u8> {
    Seq::new(
        lay.total as nat,
        |i: int|
            {
                let line = i / (lay.line as int);
                let column = i % (lay.line as int);
                let y = line / (lay.tile_size as int);
                let r = line % (lay.tile_size as int);
                let x = column / (lay.tile_line as int);
                let q = column % (lay.tile_line as int);
                sheet.sprite(tile_of(cells[flat_index(x, y, lay.rows as int)]))[flat_index(
                    r,
                    q,
                    lay.tile_line as int,
                )]
            },
    )
}

/// There is one picture that shows each cell by its sprite.
pub proof fn lemma_painted_is_frame(
    canvas: Seq<u8>,
    cells: Seq<Field>,
    lay: Layout,
    sheet: SpriteSheet,
)
    requires
        lay.wf(),
        painted(canvas, cells, lay, sheet),
    ensures
        canvas == frame_spec(cells, lay, sheet),
{
    let frame = frame_spec(cells, lay, sheet);
    assert forall|i: int| 0 <= i < canvas.len() implies canvas[i] == frame[i] by {
        let line = i / (lay.line as int);
        let column = i % (lay.line as int);
        let y = line / (lay.tile_size as int);
        let r = line % (lay.tile_size as int);
        let x = column / (lay.tile_line as int);
        let q = column % (lay.tile_line as int);
        assert(lay.line > 0) by (nonlinear_arith)
            requires
                lay.line == lay.columns * lay.tile_line,
                lay.columns > 0,
                lay.tile_line > 0,
        ;
        lemma_flat_index_split(i, lay.lines as int, lay.line as int);
        lemma_flat_index_split(line, lay.rows as int, lay.tile_size as int);
        lemma_flat_index_split(column, lay.columns as int, lay.tile_line as int);
        assert(lay.offset(x, y, r, q) == i);
        assert(tile_shows(
            canvas,
            lay,
            x,
            y,
            sheet.sprite(tile_of(cells[flat_index(x, y, lay.rows as int)])),
        ));
    }
    assert(canvas =~= frame);
}

/// Painting one tile leaves what the picture shows in the place of another.
pub proof fn lemma_tile_kept(
    before: Seq<u8>,
    after: Seq<u8>,
    lay: Layout,
    x: int,
    y: int,
    x2: int,
    y2: int,
    sprite: Seq<u8>,
)
    requires
        lay.has_tile(x2, y2),
        x2 != x || y2 != y,
        same_elsewhere(after, before, lay, x, y),
        tile_shows(before, lay, x2, y2, sprite),
    ensures
        tile_shows(after, lay, x2, y2, sprite),
{
    assert forall|r: int, q: int| lay.has_byte(r, q) implies after[#[trigger] lay.offset(
        x2,
        y2,
        r,
        q,
    )] == sprite[flat_index(r, q, lay.tile_line as int)] by {
        assert(after[lay.offset(x2, y2, r, q)] == before[lay.offset(x2, y2, r, q)]);
    }
}

/// Returns the number of the sprite that shows the cell.
pub fn tile_index(field: Field) -> (tile: usize)
    requires
        field.value <= 8,
    ensures
        tile == tile_of(field),
        tile < TILE_COUNT,
{
    match field.field_state {
        FieldState::Closed => CLOSED_TILE,
        FieldState::Flagged => FLAGGED_TILE,
        FieldState::Opened => if field.mine {
            MINE_TILE
        } else {
            field.value as usize
        },
    }
}

/// Whether the measures and the sprites are those of a picture of the
/// board.
pub open spec fn fitting(board: Board, lay: Layout, sheet: SpriteSheet) -> bool {
    &&& board.wf()
    &&& lay.wf()
    &&& sheet.valid()
    &&& lay.columns == board.width()
    &&& lay.rows == board.height()
    &&& lay.tile_size == sheet.tile_size
}

/// Whether the tile `(x, y)` comes before the tile `(at_x, at_y)` where
/// tiles are painted column after column.
pub open spec fn painted_before(x: int, y: int, at_x: int, at_y: int) -> bool {
    x < at_x || (x == at_x && y < at_y)
}

/// Paints the cells that are marked as changed, or every cell if `all`.
///
/// The picture must already show every cell that is not painted.
pub fn paint_cells(
    canvas: &mut Vec<u8>,
    board: &Board,
    lay: &Layout,
    sheet: &SpriteSheet,
    all: bool,
)
    requires
        fitting(*board, *lay, *sheet),
        old(canvas)@.len() == lay.total,
        !all ==> forall|x: int, y: int|
            lay.has_tile(x, y) && !board.changed(x, y) ==> #[trigger] tile_shows(
                old(canvas)@,
                *lay,
                x,
                y,
                sheet.sprite(tile_of(board.cell(x, y))),
            ),
    ensures
        painted(final(canvas)@, board.cells(), *lay, *sheet),
{
    let columns: i32 = board.metadata().x_size;
    let rows: i32 = board.metadata().y_size;
    let mut x: i32 = 0;
    while x < columns
        invariant
            0 <= x <= columns,
            columns == board.width(),
            rows == board.height(),
            fitting(*board, *lay, *sheet),
            canvas@.len() == lay.total,
            forall|x2: int, y2: int|
                lay.has_tile(x2, y2) && (x2 < x || (!all && !board.changed(x2, y2)))
                    ==> #[trigger] tile_shows(
                    canvas@,
                    *lay,
                    x2,
                    y2,
                    sheet.sprite(tile_of(board.cell(x2, y2))),
                ),
        decreases columns - x,
    {
        let mut y: i32 = 0;
        while y < rows
            invariant
                0 <= x < columns,
                0 <= y <= rows,
                columns == board.width(),
                rows == board.height(),
                fitting(*board, *lay, *sheet),
                canvas@.len() == lay.total,
                forall|x2: int, y2: int|
                    lay.has_tile(x2, y2) && (painted_before(x2, y2, x as int, y as int) || (!all
                        && !board.changed(x2, y2))) ==> #[trigger] tile_shows(
                        canvas@,
                        *lay,
                        x2,
                        y2,
                        sheet.sprite(tile_of(board.cell(x2, y2))),
                    ),
            decreases rows - y,
        {
            if all || board.is_changed(x, y) {
                let ghost before = canvas@;
                let tile: usize = tile_index(board.at(x, y));
                let sprite: &[u8] = sheet.tiles[tile].as_slice();
                proof {
                    let side = sheet.tile_size as int;
                    assert(side * side * 4 == side * (4 * side)) by (nonlinear_arith);
                }
                paint_tile(canvas, lay, x as usize, y as usize, sprite);
                proof {
                    assert forall|x2: int, y2: int|
                        lay.has_tile(x2, y2) && (painted_before(x2, y2, x as int, y as int + 1)
                            || (!all && !board.changed(x2, y2))) implies #[trigger] tile_shows(
                        canvas@,
                        *lay,
                        x2,
                        y2,
                        sheet.sprite(tile_of(board.cell(x2, y2))),
                    ) by {
                        if x2 != x || y2 != y {
                            assert(tile_shows(
                                before,
                                *lay,
                                x2,
                                y2,
                                sheet.sprite(tile_of(board.cell(x2, y2))),
                            ));
                            lemma_tile_kept(
                                before,
                                canvas@,
                                *lay,
                                x as int,
                                y as int,
                                x2,
                                y2,
                                sheet.sprite(tile_of(board.cell(x2, y2))),
                            );
                        }
                    }
                }
            }
            y += 1;
        }
        x += 1;
    }
    proof {
        assert forall|x2: int, y2: int| lay.has_tile(x2, y2) implies #[trigger] tile_shows(
            canvas@,
            *lay,
            x2,
            y2,
            sheet.sprite(tile_of(board.cells()[flat_index(x2, y2, lay.rows as int)])),
        ) by {
            assert(tile_shows(canvas@, *lay, x2, y2, sheet.sprite(tile_of(board.cell(x2, y2)))));
        }
    }
}

/// Returns the picture that shows each cell of the board by its sprite.
pub fn compose(board: &Board, lay: &Layout, sheet: &SpriteSheet) -> (canvas: Vec<u8>)
    requires
        fitting(*board, *lay, *sheet),
    ensures
        canvas@ == frame_spec(board.cells(), *lay, *sheet),
{
    let mut canvas: Vec<u8> = vec![0u8; lay.total];
    paint_cells(&mut canvas, board, lay, sheet, true);
    proof {
        lemma_painted_is_frame(canvas@, board.cells(), *lay, *sheet);
    }
    canvas
}

/// The cell that the step is done to.
pub open spec fn step_cell(opens: Seq<OpenAction>, flags: Seq<FlagAction>, step: Step) -> (
    int,
    int,
) {
    match step.kind {
        ActionType::Open => (opens[step.index as int].x as int, opens[step.index as int].y as int),
        ActionType::Flag => (flags[step.index as int].x as int, flags[step.index as int].y as int),
    }
}

/// Whether the step names an action that its log has.
pub open spec fn step_valid(step: Step, opens: int, flags: int) -> bool {
    match step.kind {
        ActionType::Open => step.index < opens,
        ActionType::Flag => step.index < flags,
    }
}

/// Does the step to the board.
pub fn apply_step(board: &mut Board, opens: &[OpenAction], flags: &[FlagAction], step: Step)
    requires
        old(board).wf(),
        actions_in_bounds(opens@, flags@, old(board).metadata_spec()),
        step_valid(step, opens@.len() as int, flags@.len() as int),
    ensures
        final(board).wf(),
        final(board).metadata_spec() == old(board).metadata_spec(),
        final(board).cells() == step_applied(
            old(board).cells(),
            old(board).metadata_spec(),
            opens@,
            flags@,
            step,
        ),
        final(board).changed_cells() == old(board).changed_cells().update(
            flat_index(
                step_cell(opens@, flags@, step).0,
                step_cell(opens@, flags@, step).1,
                old(board).height(),
            ),
            true,
        ),
{
    match step.kind {
        ActionType::Open => {
            let action: OpenAction = opens[step.index];
            action.perform_action(board);
        },
        ActionType::Flag => {
            let action: FlagAction = flags[step.index];
            action.perform_action(board);
        },
    }
}

/// The picture of the board after all actions.
pub open spec fn picture_spec(
    cells: Seq<Field>,
    meta: Metadata,
    opens: Seq<OpenAction>,
    flags: Seq<FlagAction>,
    sheet: SpriteSheet,
) -> Seq<u8> {
    frame_spec(
        replayed(cells, meta, opens, flags, merged(opens, flags)),
        layout_spec(meta, sheet.tile_size),
        sheet,
    )
}

/// One picture for each action: that of the board after the action and
/// those before it in the replay.
pub open spec fn frames_spec(
    cells: Seq<Field>,
    meta: Metadata,
    opens: Seq<OpenAction>,
    flags: Seq<FlagAction>,
    sheet: SpriteSheet,
) -> Seq<Seq<u8>> {
    Seq::new(
        merged(opens, flags).len(),
        |k: int|
            frame_spec(
                replayed(cells, meta, opens, flags, merged(opens, flags).take(k + 1)),
                layout_spec(meta, sheet.tile_size),
                sheet,
            ),
    )
}

/// Whether a picture of the board can be made of the sprites.
pub open spec fn scene_fits(
    board: Board,
    opens: Seq<OpenAction>,
    flags: Seq<FlagAction>,
    sheet: SpriteSheet,
) -> bool {
    &&& board.wf()
    &&& actions_in_bounds(opens, flags, board.metadata_spec())
    &&& sheet.valid()
    &&& canvas_fits(board.metadata_spec(), sheet.tile_size)
}

/// Does all actions to the board and returns its picture.
pub fn still_picture(
    board: Board,
    opens: &[OpenAction],
    flags: &[FlagAction],
    sheet: &SpriteSheet,
) -> (pixels: Vec<u8>)
    requires
        scene_fits(board, opens@, flags@, *sheet),
    ensures
        pixels@ == picture_spec(board.cells(), board.metadata_spec(), opens@, flags@, *sheet),
        pixels@.len() == layout_spec(board.metadata_spec(), sheet.tile_size).total,
{
    let ghost start = board.cells();
    let mut board = board;
    let meta: Metadata = board.metadata();
    let lay: Layout = match layout(&meta, sheet.tile_size) {
        Some(l) => l,
        None => {
            assert(false);
            return Vec::new();
        },
    };
    let steps: Vec<Step> = merge(opens, flags);
    let mut k: usize = 0;
    while k < steps.len()
        invariant
            0 <= k <= steps.len(),
            steps@ == merged(opens@, flags@),
            steps_valid(steps@, opens@.len() as int, flags@.len() as int),
            board.wf(),
            board.metadata_spec() == meta,
            actions_in_bounds(opens@, flags@, meta),
            board.cells() == replayed(start, meta, opens@, flags@, steps@.take(k as int)),
        decreases steps.len() - k,
    {
        let step: Step = steps[k];
        proof {
            assert(steps@.take(k as int + 1).drop_last() == steps@.take(k as int));
        }
        apply_step(&mut board, opens, flags, step);
        k += 1;
    }
    assert(steps@.take(k as int) == steps@);
    compose(&board, &lay, sheet)
}

/// Does the actions to the board one after the other and returns the
/// picture of the board after each of them.
///
/// The first picture is painted whole. For each picture after it, the
/// picture before it is taken and the cells that are marked as changed are
/// painted anew.
pub fn animation_frames(
    board: Board,
    opens: &[OpenAction],
    flags: &[FlagAction],
    sheet: &SpriteSheet,
) -> (frames: Vec<Vec<u8>>)
    requires
        scene_fits(board, opens@, flags@, *sheet),
    ensures
        pictures(frames@) == frames_spec(
            board.cells(),
            board.metadata_spec(),
            opens@,
            flags@,
            *sheet,
        ),
        forall|k: int|
            0 <= k < frames@.len() ==> (#[trigger] frames@[k])@.len() == layout_spec(
                board.metadata_spec(),
                sheet.tile_size,
            ).total,
{
    let ghost start = board.cells();
    let mut board = board;
    let meta: Metadata = board.metadata();
    let lay: Layout = match layout(&meta, sheet.tile_size) {
        Some(l) => l,
        None => {
            assert(false);
            return Vec::new();
        },
    };
    let steps: Vec<Step> = merge(opens, flags);
    let mut frames: Vec<Vec<u8>> = Vec::new();
    let mut canvas: Vec<u8> = vec![0u8; lay.total];
    let mut k: usize = 0;
    while k < steps.len()
        invariant
            0 <= k <= steps.len(),
            steps@ == merged(opens@, flags@),
            steps_valid(steps@, opens@.len() as int, flags@.len() as int),
            fitting(board, lay, *sheet),
            lay == layout_spec(meta, sheet.tile_size),
            board.metadata_spec() == meta,
            actions_in_bounds(opens@, flags@, meta),
            board.cells() == replayed(start, meta, opens@, flags@, steps@.take(k as int)),
            canvas@.len() == lay.total,
            k > 0 ==> painted(canvas@, board.cells(), lay, *sheet),
            k > 0 ==> forall|i: int|
                0 <= i < board.changed_cells().len() ==> !board.changed_cells()[i],
            frames@.len() == k,
            forall|j: int|
                0 <= j < k ==> (#[trigger] frames@[j])@ == frame_spec(
                    replayed(start, meta, opens@, flags@, steps@.take(j + 1)),
                    lay,
                    *sheet,
                ),
        decreases steps.len() - k,
    {
        let step: Step = steps[k];
        let ghost before = board.cells();
        proof {
            assert(steps@.take(k as int + 1).drop_last() == steps@.take(k as int));
        }
        apply_step(&mut board, opens, flags, step);
        proof {
            if k > 0 {
                let at = step_cell(opens@, flags@, step);
                assert(meta.contains(at.0, at.1));
                lemma_flat_index_bounds(at.0, at.1, meta.x_size as int, meta.y_size as int);
                assert forall|x: int, y: int|
                    lay.has_tile(x, y) && !board.changed(x, y) implies #[trigger] tile_shows(
                    canvas@,
                    lay,
                    x,
                    y,
                    sheet.sprite(tile_of(board.cell(x, y))),
                ) by {
                    lemma_flat_index_bounds(x, y, meta.x_size as int, meta.y_size as int);
                    assert(board.cell(x, y) == before[flat_index(x, y, lay.rows as int)]);
                    assert(tile_shows(
                        canvas@,
                        lay,
                        x,
                        y,
                        sheet.sprite(tile_of(before[flat_index(x, y, lay.rows as int)])),
                    ));
                }
            }
        }
        paint_cells(&mut canvas, &board, &lay, sheet, k == 0);
        proof {
            lemma_painted_is_frame(canvas@, board.cells(), lay, *sheet);
        }
        let frame: Vec<u8> = canvas.clone();
        assert(frame@ =~= canvas@);
        frames.push(frame);
        board.clear_changed();
        k += 1;
    }
    proof {
        assert(steps@.take(k as int) == steps@);
        assert(pictures(frames@) =~= frames_spec(start, meta, opens@, flags@, *sheet));
    }
    frames
}

/// What comes of an encoder's answer: its bytes, or a `GifEncoding` if it
/// failed.
pub fn encoded(answer: Result<Vec<u8>, ImageError>) -> (image: Result<Vec<u8>, MinesweeperError>)
    ensures
        match answer {
            Ok(bytes) => image == Ok::<_, MinesweeperError>(bytes),
            Err(_) => image == Err::<Vec<u8>, _>(MinesweeperError::GifEncoding),
        },
{
    match answer {
        Ok(bytes) => Ok(bytes),
        Err(_) => Err(MinesweeperError::GifEncoding),
    }
}

/// The file that shows the match, or what making it fails with.
///
/// It is a `MalformedMetadata` if the board is not of the dimensions given
/// and a `CoordinateOutOfBounds` if an action names a cell that is not on
/// the board. Else an animation without any action is a `NoFrames`. Else it
/// is an `ImageInsertion` if the sprites cannot be used or the picture
/// cannot be held. Else it is what the encoder gives: for an animation a GIF
/// of the pictures after each action, otherwise a WebP of the picture after
/// all actions, and a `GifEncoding` if the encoder fails.
pub open spec fn render_spec(
    meta: Metadata,
    board_meta: Metadata,
    cells: Seq<Field>,
    opens: Seq<OpenAction>,
    flags: Seq<FlagAction>,
    animate: bool,
    sheet: SpriteSheet,
) -> Result<Seq<u8>, MinesweeperError> {
    let lay = layout_spec(meta, sheet.tile_size);
    if board_meta != meta {
        Err(MinesweeperError::MalformedMetadata)
    } else if !actions_in_bounds(opens, flags, meta) {
        Err(MinesweeperError::CoordinateOutOfBounds)
    } else if animate && opens.len() + flags.len() == 0 {
        Err(MinesweeperError::NoFrames)
    } else if !sheet.valid() || !canvas_fits(meta, sheet.tile_size) {
        Err(MinesweeperError::ImageInsertion)
    } else if animate {
        match gif_encoding(lay.width, lay.height, frames_spec(cells, meta, opens, flags, sheet)) {
            Some(bytes) => Ok(bytes),
            None => Err(MinesweeperError::GifEncoding),
        }
    } else {
        match webp_encoding(lay.width, lay.height, picture_spec(cells, meta, opens, flags, sheet)) {
            Some(bytes) => Ok(bytes),
            None => Err(MinesweeperError::GifEncoding),
        }
    }
}

/// Replays the actions on the board and returns the file that shows the
/// match: an animation with one picture for each action if `animate`, else
/// the picture of the board after all actions.
///
/// Fails as `render_spec` says.
pub fn render(
    metadata: &Metadata,
    board: Board,
    opens: &[OpenAction],
    flags: &[FlagAction],
    animate: bool,
    sheet: &SpriteSheet,
) -> (image: Result<Vec<u8>, MinesweeperError>)
    requires
        board.wf(),
    ensures
        match image {
            Ok(bytes) => render_spec(
                *metadata,
                board.metadata_spec(),
                board.cells(),
                opens@,
                flags@,
                animate,
                *sheet,
            ) == Ok::<_, MinesweeperError>(bytes@),
            Err(error) => render_spec(
                *metadata,
                board.metadata_spec(),
                board.cells(),
                opens@,
                flags@,
                animate,
                *sheet,
            ) == Err::<Seq<u8>, _>(error),
        },
{
    let meta: Metadata = board.metadata();
    if meta.x_size != metadata.x_size || meta.y_size != metadata.y_size {
        return Err(MinesweeperError::MalformedMetadata);
    }
    if !crate::parser::check_actions(opens, flags, &meta) {
        return Err(MinesweeperError::CoordinateOutOfBounds);
    }
    if animate && opens.len() == 0 && flags.len() == 0 {
        return Err(MinesweeperError::NoFrames);
    }
    if !sheet.is_valid() {
        return Err(MinesweeperError::ImageInsertion);
    }
    let lay: Layout = match layout(&meta, sheet.tile_size) {
        Some(l) => l,
        None => {
            return Err(MinesweeperError::ImageInsertion);
        },
    };
    proof {
        lay.lemma_total();
    }
    if animate {
        let frames: Vec<Vec<u8>> = animation_frames(board, opens, flags, sheet);
        encoded(encode_gif(lay.width, lay.height, &frames))
    } else {
        let pixels: Vec<u8> = still_picture(board, opens, flags, sheet);
        encoded(encode_webp(lay.width, lay.height, pixels.as_slice()))
    }
}

} // verus!
