//! The plain-text grid format: one line per row, one byte per column,
//! `'1'` for an alive cell and `'0'` for a dead one, with a newline after
//! each row. Residual energy is not representable and rounds to dead on
//! export. Reading and writing files is left to the surrounding
//! application; this module turns grids into bytes and bytes into grids.

use vstd::prelude::*;
use crate::space::cell::ALIVE_STATE;
use crate::space::history::empty_history;
use crate::space::Space;

verus! {

/// The byte `'1'`: an alive cell.
pub const ALIVE_BYTE: u8 = 49;

/// The byte `'0'`: a dead cell.
pub const DEAD_BYTE: u8 = 48;

/// The byte `'\n'`: the end of a row.
pub const NEWLINE_BYTE: u8 = 10;

/// The byte `'\r'`: stripped from a line end, so files with Windows line
/// endings read the same.
pub const CR_BYTE: u8 = 13;

/// Grid text that cannot be a grid.
#[derive(Debug, Clone, Copy, PartialEq, Eq, Structural)]
pub enum GridTextError {
    /// No rows at all, or an empty first row.
    Empty,
    /// A row whose length differs from the first row's.
    Ragged,
    /// More rows or columns than grid coordinates can address.
    TooLarge,
}

/// The bytes of row `y`, one per column, newline not included.
pub open spec fn spec_row_body(s: &Space, y: int) -> Seq<u8> {
    Seq::new(
        s.spec_x_dim() as nat,
        |x: int|
            if s.alive_at(x, y) {
                ALIVE_BYTE
            } else {
                DEAD_BYTE
            },
    )
}

/// The text line for row `y`: one byte per column, then a newline.
pub open spec fn spec_row_text(s: &Space, y: int) -> Seq<u8> {
    spec_row_body(s, y) + seq![NEWLINE_BYTE]
}

/// The text of rows `0 .. y`, concatenated.
pub open spec fn spec_text_upto(s: &Space, y: int) -> Seq<u8>
    decreases y,
{
    if y <= 0 {
        Seq::empty()
    } else {
        spec_text_upto(s, y - 1) + spec_row_text(s, y - 1)
    }
}

/// The full text of a grid.
pub open spec fn spec_grid_text(s: &Space) -> Seq<u8> {
    spec_text_upto(s, s.spec_y_dim())
}

/// A line with one trailing carriage return dropped, as `str::lines`
/// treats line ends.
pub open spec fn strip_cr(l: Seq<u8>) -> Seq<u8> {
    if l.len() > 0 && l[l.len() - 1] == CR_BYTE {
        l.drop_last()
    } else {
        l
    }
}

/// The lines of `b`, walking from the front: `cur` is the line gathered
/// so far. A newline ends a line; what remains at the end of the input is
/// a final line unless it is empty.
pub open spec fn split_lines(b: Seq<u8>, cur: Seq<u8>) -> Seq<Seq<u8>>
    decreases b.len(),
{
    if b.len() == 0 {
        if cur.len() == 0 {
            Seq::empty()
        } else {
            seq![strip_cr(cur)]
        }
    } else if b[0] == NEWLINE_BYTE {
        seq![strip_cr(cur)] + split_lines(b.drop_first(), Seq::empty())
    } else {
        split_lines(b.drop_first(), cur.push(b[0]))
    }
}

/// The lines of a text, as `str::lines` yields them.
pub open spec fn spec_lines(b: Seq<u8>) -> Seq<Seq<u8>> {
    split_lines(b, Seq::empty())
}

/// Lines that describe a grid: at least one row, a non-empty first row,
/// every row as long as the first, and dimensions that fit `u16`.
pub open spec fn lines_ok(ls: Seq<Seq<u8>>) -> bool {
    &&& ls.len() >= 1
    &&& 1 <= ls[0].len() <= u16::MAX
    &&& ls.len() <= u16::MAX
    &&& forall|j: int| 0 <= j < ls.len() ==> (#[trigger] ls[j]).len() == ls[0].len()
}

/// The error reported for lines that describe no grid, in the order the
/// checks run: emptiness first, then size, then raggedness.
pub open spec fn spec_text_error(ls: Seq<Seq<u8>>) -> GridTextError {
    if ls.len() == 0 || ls[0].len() == 0 {
        GridTextError::Empty
    } else if ls.len() > u16::MAX || ls[0].len() > u16::MAX {
        GridTextError::TooLarge
    } else {
        GridTextError::Ragged
    }
}

/// Renders a grid as text: row by row, `'1'` for alive, `'0'` for
/// anything else (residual energy rounds to dead), a newline after each
/// row.
pub fn write_grid_text(space: &Space) -> (r: Vec<u8>)
    requires
        space.wf_grid(),
    ensures
        r@ == spec_grid_text(space),
{
    let x_dim = space.x_dim();
    let y_dim = space.y_dim();
    let mut r: Vec<u8> = Vec::new();
    let mut y: u16 = 0;
    while y < y_dim
        invariant
            space.wf_grid(),
            x_dim as int == space.spec_x_dim(),
            y_dim as int == space.spec_y_dim(),
            y <= y_dim,
            r@ == spec_text_upto(space, y as int),
        decreases y_dim - y,
    {
        let mut x: u16 = 0;
        while x < x_dim
            invariant
                space.wf_grid(),
                x_dim as int == space.spec_x_dim(),
                y_dim as int == space.spec_y_dim(),
                y < y_dim,
                x <= x_dim,
                r@ == spec_text_upto(space, y as int) + Seq::new(
                    x as nat,
                    |i: int|
                        if space.alive_at(i, y as int) {
                            ALIVE_BYTE
                        } else {
                            DEAD_BYTE
                        },
                ),
            decreases x_dim - x,
        {
            if space.check_cell_is_alive(x, y) {
                r.push(ALIVE_BYTE);
            } else {
                r.push(DEAD_BYTE);
            }
            proof {
                assert(r@ =~= spec_text_upto(space, y as int) + Seq::new(
                    (x + 1) as nat,
                    |i: int|
                        if space.alive_at(i, y as int) {
                            ALIVE_BYTE
                        } else {
                            DEAD_BYTE
                        },
                ));
            }
            x = x + 1;
        }
        r.push(NEWLINE_BYTE);
        proof {
            assert(r@ =~= spec_text_upto(space, y as int + 1));
        }
        y = y + 1;
    }
    r
}

/// Reads a grid from text: sizes the grid to the lines, revives every
/// cell marked `'1'` (any other byte counts dead), and records the loaded
/// alive set as generation 0. Rejects text with no rows, an empty first
/// row, rows of differing lengths, or dimensions beyond `u16`.
pub fn read_grid_text(bytes: &Vec<u8>) -> (r: Result<Space, GridTextError>)
    ensures
        r is Ok <==> lines_ok(spec_lines(bytes@)),
        r matches Ok(s) ==> {
            let ls = spec_lines(bytes@);
            &&& s.wf()
            &&& s.spec_x_dim() == ls[0].len()
            &&& s.spec_y_dim() == ls.len()
            &&& (forall|x: int, y: int|
                s.in_bounds(x, y) ==> s.state_at(x, y) == (if ls[y][x] == ALIVE_BYTE {
                    ALIVE_STATE as u8
                } else {
                    0u8
                }))
            &&& s.history() == empty_history().insert(0, s.alive_seq())
            &&& s.displayed_time == 0
        },
        r matches Err(e) ==> e == spec_text_error(spec_lines(bytes@)),
{
    let ghost ls = spec_lines(bytes@);
    let mut rows: Vec<Vec<u8>> = Vec::new();
    let mut cur: Vec<u8> = Vec::new();
    let mut i: usize = 0;
    proof {
        assert(bytes@.skip(0) =~= bytes@);
        assert(rows@.map_values(|v: Vec<u8>| v@) =~= Seq::<Seq<u8>>::empty());
        assert(ls =~= rows@.map_values(|v: Vec<u8>| v@) + split_lines(bytes@.skip(0), cur@));
    }
    while i < bytes.len()
        invariant
            i <= bytes@.len(),
            ls == spec_lines(bytes@),
            ls == rows@.map_values(|v: Vec<u8>| v@) + split_lines(bytes@.skip(i as int), cur@),
        decreases bytes@.len() - i,
    {
        let ghost rest = bytes@.skip(i as int);
        let b = bytes[i];
        proof {
            assert(rest[0] == b);
            assert(rest.drop_first() =~= bytes@.skip(i as int + 1));
        }
        if b == NEWLINE_BYTE {
            let ghost unstripped = cur@;
            if cur.len() > 0 && cur[cur.len() - 1] == CR_BYTE {
                cur.pop();
            }
            proof {
                assert(cur@ == strip_cr(unstripped));
            }
            rows.push(cur);
            cur = Vec::new();
            proof {
                assert(rows@.map_values(|v: Vec<u8>| v@) =~= rows@.drop_last().map_values(
                    |v: Vec<u8>| v@,
                ).push(strip_cr(unstripped)));
                assert(ls =~= rows@.map_values(|v: Vec<u8>| v@) + split_lines(
                    bytes@.skip(i as int + 1),
                    cur@,
                ));
            }
        } else {
            cur.push(b);
        }
        i = i + 1;
    }
    proof {
        assert(bytes@.skip(bytes@.len() as int) =~= Seq::<u8>::empty());
    }
    if cur.len() > 0 {
        let ghost unstripped = cur@;
        if cur[cur.len() - 1] == CR_BYTE {
            cur.pop();
        }
        proof {
            assert(cur@ == strip_cr(unstripped));
        }
        rows.push(cur);
        proof {
            assert(rows@.map_values(|v: Vec<u8>| v@) =~= rows@.drop_last().map_values(
                |v: Vec<u8>| v@,
            ).push(strip_cr(unstripped)));
            assert(ls =~= rows@.map_values(|v: Vec<u8>| v@));
        }
    } else {
        proof {
            assert(ls =~= rows@.map_values(|v: Vec<u8>| v@));
        }
    }
    let ghost rls = rows@.map_values(|v: Vec<u8>| v@);
    if rows.len() == 0 {
        return Err(GridTextError::Empty);
    }
    if rows[0].len() == 0 {
        return Err(GridTextError::Empty);
    }
    if rows.len() > 0xffff || rows[0].len() > 0xffff {
        return Err(GridTextError::TooLarge);
    }
    let width = rows[0].len();
    let mut j: usize = 1;
    while j < rows.len()
        invariant
            ls == spec_lines(bytes@),
            ls == rls,
            rls == rows@.map_values(|v: Vec<u8>| v@),
            1 <= j <= rows@.len(),
            1 <= width <= 0xffff,
            width as int == rls[0].len(),
            rows@.len() <= 0xffff,
            forall|k: int| 0 <= k < j as int ==> (#[trigger] rls[k]).len() == width as int,
        decreases rows@.len() - j,
    {
        proof {
            assert(rows@[j as int]@ == rls[j as int]);
        }
        if rows[j].len() != width {
            return Err(GridTextError::Ragged);
        }
        j = j + 1;
    }
    let x_dim = width as u16;
    let y_dim = rows.len() as u16;
    let mut space = Space::new(x_dim, y_dim);
    let mut x: u16 = 0;
    while x < x_dim
        invariant
            ls == rls,
            rls == rows@.map_values(|v: Vec<u8>| v@),
            x_dim as int == rls[0].len(),
            y_dim as int == rls.len(),
            forall|k: int| 0 <= k < rls.len() ==> (#[trigger] rls[k]).len() == x_dim as int,
            x <= x_dim,
            space.wf(),
            space.spec_x_dim() == x_dim as int,
            space.spec_y_dim() == y_dim as int,
            space.history() == empty_history().insert(0, Seq::empty()),
            space.displayed_time == 0,
            forall|i2: int, j2: int|
                space.in_bounds(i2, j2) ==> space.state_at(i2, j2) == (if i2 < x as int
                    && rls[j2][i2] == ALIVE_BYTE {
                    ALIVE_STATE as u8
                } else {
                    0u8
                }),
        decreases x_dim - x,
    {
        let mut y: u16 = 0;
        while y < y_dim
            invariant
                ls == rls,
                rls == rows@.map_values(|v: Vec<u8>| v@),
                x_dim as int == rls[0].len(),
                y_dim as int == rls.len(),
                forall|k: int| 0 <= k < rls.len() ==> (#[trigger] rls[k]).len() == x_dim as int,
                x < x_dim,
                y <= y_dim,
                space.wf(),
                space.spec_x_dim() == x_dim as int,
                space.spec_y_dim() == y_dim as int,
                space.history() == empty_history().insert(0, Seq::empty()),
                space.displayed_time == 0,
                forall|i2: int, j2: int|
                    space.in_bounds(i2, j2) ==> space.state_at(i2, j2) == (if (i2 < x as int || (
                    i2 == x as int && j2 < y as int)) && rls[j2][i2] == ALIVE_BYTE {
                        ALIVE_STATE as u8
                    } else {
                        0u8
                    }),
            decreases y_dim - y,
        {
            let ghost mid = space;
            proof {
                assert(rows@.len() == rls.len());
                assert(rows@[y as int]@ == rls[y as int]);
            }
            if rows[y as usize][x as usize] == ALIVE_BYTE {
                match space.revive_cell(x, y) {
                    Ok(_) => (),
                    Err(_) => proof {
                        assert(false);
                    },
                }
            }
            proof {
                assert forall|i2: int, j2: int| space.in_bounds(i2, j2) implies space.state_at(
                    i2,
                    j2,
                ) == (if (i2 < x as int || (i2 == x as int && j2 < y as int + 1))
                    && rls[j2][i2] == ALIVE_BYTE {
                    ALIVE_STATE as u8
                } else {
                    0u8
                }) by {
                    if !(i2 == x as int && j2 == y as int) {
                        assert(space.cells@[i2]@[j2] == mid.cells@[i2]@[j2]);
                        assert(mid.state_at(i2, j2) == (if (i2 < x as int || (i2 == x as int && j2
                            < y as int)) && rls[j2][i2] == ALIVE_BYTE {
                            ALIVE_STATE as u8
                        } else {
                            0u8
                        }));
                    }
                }
            }
            y = y + 1;
        }
        x = x + 1;
    }
    let ghost before_save = space;
    space.save_state(0);
    proof {
        crate::space::lemma_alive_seq_same_cells(&before_save, &space);
        assert(space.history() =~= empty_history().insert(0, space.alive_seq()));
        assert forall|xx: int, yy: int| space.in_bounds(xx, yy) implies space.state_at(xx, yy)
            == (if ls[yy][xx] == ALIVE_BYTE {
            ALIVE_STATE as u8
        } else {
            0u8
        }) by {
            assert(before_save.in_bounds(xx, yy));
            assert(before_save.state_at(xx, yy) == (if xx < x as int && rls[yy][xx] == ALIVE_BYTE {
                ALIVE_STATE as u8
            } else {
                0u8
            }));
            assert(space.cells@[xx]@[yy] == before_save.cells@[xx]@[yy]);
        }
    }
    Ok(space)
}

/// The rendered text of rows `y ..` to the bottom of the grid.
spec fn spec_text_from(s: &Space, y: int) -> Seq<u8>
    decreases s.spec_y_dim() - y,
{
    if y < 0 || y >= s.spec_y_dim() {
        Seq::empty()
    } else {
        spec_row_text(s, y) + spec_text_from(s, y + 1)
    }
}

/// The rendered text is the rows before `y` followed by the rows from `y`.
proof fn lemma_upto_from(s: &Space, y: int)
    requires
        0 <= y <= s.spec_y_dim(),
    ensures
        spec_text_upto(s, y) + spec_text_from(s, y) == spec_text_from(s, 0),
    decreases y,
{
    if y == 0 {
        assert(spec_text_upto(s, 0) + spec_text_from(s, 0) =~= spec_text_from(s, 0));
    } else {
        lemma_upto_from(s, y - 1);
        assert(spec_text_upto(s, y) + spec_text_from(s, y) =~= spec_text_upto(s, y - 1) + (
        spec_row_text(s, y - 1) + spec_text_from(s, y)));
    }
}

/// Splitting text that starts with a newline-free line and its newline
/// yields that line appended to what was gathered, then the rest's lines.
proof fn lemma_split_one_line(l: Seq<u8>, rest: Seq<u8>, cur: Seq<u8>)
    requires
        forall|i: int| 0 <= i < l.len() ==> l[i] != NEWLINE_BYTE,
    ensures
        split_lines(l + seq![NEWLINE_BYTE] + rest, cur) == seq![strip_cr(cur + l)] + split_lines(
            rest,
            Seq::empty(),
        ),
    decreases l.len(),
{
    let b = l + seq![NEWLINE_BYTE] + rest;
    if l.len() == 0 {
        assert(b[0] == NEWLINE_BYTE);
        assert(b.drop_first() =~= rest);
        assert(cur + l =~= cur);
    } else {
        assert(b[0] == l[0]);
        assert(b.drop_first() =~= l.drop_first() + seq![NEWLINE_BYTE] + rest);
        lemma_split_one_line(l.drop_first(), rest, cur.push(l[0]));
        assert(cur.push(l[0]) + l.drop_first() =~= cur + l);
    }
}

/// The lines of the rendered text from row `y` on are exactly the row
/// bodies of rows `y ..`.
proof fn lemma_lines_from(s: &Space, y: int)
    requires
        s.wf_grid(),
        0 <= y <= s.spec_y_dim(),
    ensures
        split_lines(spec_text_from(s, y), Seq::empty()) == Seq::new(
            (s.spec_y_dim() - y) as nat,
            |j: int| spec_row_body(s, y + j),
        ),
    decreases s.spec_y_dim() - y,
{
    if y == s.spec_y_dim() {
        assert(split_lines(spec_text_from(s, y), Seq::empty()) =~= Seq::new(
            (s.spec_y_dim() - y) as nat,
            |j: int| spec_row_body(s, y + j),
        ));
    } else {
        let body = spec_row_body(s, y);
        assert(forall|i: int| 0 <= i < body.len() ==> body[i] != NEWLINE_BYTE);
        lemma_split_one_line(body, spec_text_from(s, y + 1), Seq::empty());
        assert(Seq::empty() + body =~= body);
        assert(body[body.len() - 1] != CR_BYTE);
        assert(strip_cr(body) == body);
        lemma_lines_from(s, y + 1);
        assert(spec_text_from(s, y) == body + seq![NEWLINE_BYTE] + spec_text_from(s, y + 1)) by {
            assert(spec_text_from(s, y) =~= body + seq![NEWLINE_BYTE] + spec_text_from(
                s,
                y + 1,
            ));
        }
        assert(seq![body] + Seq::new(
            (s.spec_y_dim() - y - 1) as nat,
            |j: int| spec_row_body(s, y + 1 + j),
        ) =~= Seq::new((s.spec_y_dim() - y) as nat, |j: int| spec_row_body(s, y + j)));
    }
}

/// Law: exporting a grid whose cells are all fully alive or fully dead
/// (no residual energy) and importing the text again reproduces the same
/// dimensions and an identical alive-cell set: the lines parse, one line
/// per row, and a cell reads back alive exactly when it was alive.
pub proof fn lemma_text_round_trip(s: &Space)
    requires
        s.wf_grid(),
        forall|x: int, y: int|
            s.in_bounds(x, y) ==> (s.state_at(x, y) == ALIVE_STATE || s.state_at(x, y) == 0),
    ensures
        lines_ok(spec_lines(spec_grid_text(s))),
        spec_lines(spec_grid_text(s)).len() == s.spec_y_dim(),
        forall|y: int|
            0 <= y < s.spec_y_dim() ==> (#[trigger] spec_lines(spec_grid_text(s))[y]).len()
                == s.spec_x_dim(),
        forall|x: int, y: int|
            s.in_bounds(x, y) ==> ((spec_lines(spec_grid_text(s))[y][x] == ALIVE_BYTE)
                <==> s.alive_at(x, y)),
{
    lemma_upto_from(s, s.spec_y_dim());
    assert(spec_text_from(s, s.spec_y_dim()) =~= Seq::<u8>::empty());
    assert(spec_grid_text(s) =~= spec_grid_text(s) + spec_text_from(s, s.spec_y_dim()));
    assert(spec_grid_text(s) == spec_text_from(s, 0));
    lemma_lines_from(s, 0);
}

} // verus!
