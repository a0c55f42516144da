//! The text pane: a viewport and cursor over a [`PieceTable`], driven by
//! [`TextCommand`]s, painting a character grid with a line-number gutter.
//!
//! Grid columns 0..4 are the gutter: a right-aligned four-digit decimal
//! line number and a space.  Text content begins at grid column 5; a
//! cursor column of `5 + k` stands for buffer column `offset.col + k` of
//! the current line.

use vstd::prelude::*;

use crate::piece_table::PieceTable;
use crate::position::Position;
use crate::views::CursorStyle;
use crate::views::Pane;
use crate::views::lemma_flatten_uniform;

verus! {

/// A command addressed to the text pane.
#[derive(Debug, Clone, Copy, PartialEq, Eq, Structural)]
pub enum TextCommand {
    CursorUp(usize),
    CursorDown(usize),
    CursorLeft(usize),
    CursorRight(usize),
    JumpTop,
    JumpBottom,
    SetCursorStyle(CursorStyle),
    Insert(char),
    Delete,
}

/// The decimal digit `d` as a character.
pub open spec fn digit_char(d: int) -> char {
    ((d + 48) as u8) as char
}

/// The gutter cell at column `c` (0..4) for one-based line number `ln`:
/// the number right-aligned over columns 0..3, a space at column 4.
pub open spec fn gutter_char(ln: int, c: int) -> char {
    if c == 0 {
        if ln < 1000 {
            ' '
        } else {
            digit_char((ln / 1000) % 10)
        }
    } else if c == 1 {
        if ln < 100 {
            ' '
        } else {
            digit_char((ln / 100) % 10)
        }
    } else if c == 2 {
        if ln < 10 {
            ' '
        } else {
            digit_char((ln / 10) % 10)
        }
    } else if c == 3 {
        digit_char(ln % 10)
    } else {
        ' '
    }
}

/// The decimal digit `d` as a character.
fn digit_to_char(d: usize) -> (c: char)
    requires
        d < 10,
    ensures
        c == digit_char(d as int),
{
    ((d as u8) + 48) as char
}

/// The cursor column pulled back to the end of a line of length
/// `line_len` when it sits at or past it: onto the last character when
/// the line has one, else onto the first text column.
pub open spec fn clamped_col(col: int, line_len: int) -> int {
    if col >= 5 + line_len {
        if line_len > 0 {
            4 + line_len
        } else {
            5
        }
    } else {
        col
    }
}

/// A change-flag sequence with every cell marked.
pub open spec fn all_marked(n: int) -> Seq<bool> {
    Seq::new(n as nat, |i: int| true)
}

/// The rendering reads only the viewport offset, the grid size and the
/// buffer: panes that agree on those paint the same grid.
proof fn lemma_rendered_same(a: TextView, b: TextView)
    requires
        a.offset == b.offset,
        a.sz == b.sz,
        a.text == b.text,
    ensures
        a.rendered() == b.rendered(),
{
    assert forall|r: int| 0 <= r < a.sz.row implies a.render_row_seq(r) == b.render_row_seq(r) by {
        assert(a.render_row_seq(r) =~= b.render_row_seq(r));
    }
    assert(Seq::new(a.sz.row as nat, |r: int| a.render_row_seq(r)) =~= Seq::new(
        b.sz.row as nat,
        |r: int| b.render_row_seq(r),
    ));
}

/// The text pane.
pub struct TextView {
    pub offset: Position,
    pub text: PieceTable,
    pub cursor: Position,
    pub sz: Position,
    pub view: Vec<char>,
    pub updates: Vec<bool>,
    pub cursor_style: CursorStyle,
}

impl TextView {
    /// The pane invariant: a well-formed buffer and a grid sized to fit.
    pub open spec fn wf(self) -> bool {
        &&& self.text.wf()
        &&& self.view@.len() == self.sz.row * self.sz.col
        &&& self.updates@.len() == self.view@.len()
    }

    /// The buffer line the cursor sits on.
    pub open spec fn line_of(self) -> int {
        self.offset.row + self.cursor.row
    }

    /// The grid cell at row `r`, column `c`: blank beyond the file end,
    /// the gutter for columns 0..4, and the visible part of the line from
    /// buffer column `offset.col` onward for the rest.
    pub open spec fn render_cell(self, r: int, c: int) -> char {
        let row = self.offset.row + r;
        if row >= self.text.line_starts@.len() {
            ' '
        } else if c < 5 {
            gutter_char(row + 1, c)
        } else {
            let line = self.text.line_seq(row);
            let tc = self.offset.col + (c - 5);
            if tc < line.len() {
                line[tc]
            } else {
                ' '
            }
        }
    }

    /// One grid row of the rendering.
    pub open spec fn render_row_seq(self, r: int) -> Seq<char> {
        Seq::new(self.sz.col as nat, |c: int| self.render_cell(r, c))
    }

    /// The whole grid, row-major.
    pub open spec fn rendered(self) -> Seq<char> {
        Seq::new(self.sz.row as nat, |r: int| self.render_row_seq(r)).flatten()
    }

    /// A fresh pane over `text`, with no size yet: cursor at the first
    /// text cell, no scroll, block cursor, an empty grid.
    pub fn new(text: &str) -> (r: TextView)
        ensures
            r.wf(),
            r.cursor == (Position { row: 0, col: 5 }),
            r.offset == (Position { row: 0, col: 0 }),
            r.sz == (Position { row: 0, col: 0 }),
            r.cursor_style == CursorStyle::Block,
            r.text.content() == text@,
            r.view@ == Seq::<char>::empty(),
    {
        let r = TextView {
            cursor: Position { row: 0, col: 5 },
            offset: Position { row: 0, col: 0 },
            text: PieceTable::new(text),
            sz: Position { row: 0, col: 0 },
            view: Vec::<char>::new(),
            updates: Vec::<bool>::new(),
            cursor_style: CursorStyle::Block,
        };
        proof {
            assert(r.text.wf());
            assert(r.view@.len() == 0);
            assert(r.updates@.len() == 0);
            assert(r.view@.len() == r.sz.row * r.sz.col);
            assert(r.wf());
        }
        r
    }

    /// Repaint the grid from the buffer, and mark every cell changed.
    pub fn refresh_text(&mut self)
        requires
            old(self).text.wf(),
        ensures
            final(self).text == old(self).text,
            final(self).sz == old(self).sz,
            final(self).offset == old(self).offset,
            final(self).cursor == old(self).cursor,
            final(self).cursor_style == old(self).cursor_style,
            final(self).view@ == old(self).rendered(),
            final(self).view@.len() == old(self).sz.row * old(self).sz.col,
            final(self).updates@ == Seq::new(final(self).view@.len(), |i: int| true),
    {
        let rows = self.sz.row;
        let cols = self.sz.col;
        let lines = self.text.lines();
        let ghost rows_seq = Seq::new(rows as nat, |r: int| self.render_row_seq(r));
        let mut new_view: Vec<char> = Vec::new();
        proof {
            assert(rows_seq.take(0) =~= Seq::<Seq<char>>::empty());
        }
        let mut r: usize = 0;
        while r < rows
            invariant
                self == old(self),
                self.text.wf(),
                rows == self.sz.row,
                cols == self.sz.col,
                lines == self.text.line_starts@.len(),
                rows_seq == Seq::new(rows as nat, |rr: int| self.render_row_seq(rr)),
                r <= rows,
                new_view@ == rows_seq.take(r as int).flatten(),
            decreases rows - r,
        {
            let mut row_v: Vec<char> = Vec::new();
            if self.offset.row < lines && r < lines - self.offset.row {
                let row = self.offset.row + r;
                let ln = row + 1;
                let line = if let Some(l) = self.text.get_line(row) {
                    l
                } else {
                    proof {
                        assert(false);
                    }
                    unreached()
                };
                let avail = if self.offset.col <= line.len() {
                    line.len() - self.offset.col
                } else {
                    0
                };
                let mut c: usize = 0;
                while c < cols
                    invariant
                        self == old(self),
                        self.text.wf(),
                        cols == self.sz.col,
                        lines == self.text.line_starts@.len(),
                        r < rows,
                        rows == self.sz.row,
                        row == self.offset.row + r,
                        row < lines,
                        ln == row + 1,
                        line@ == self.text.line_seq(row as int),
                        avail == if self.offset.col <= line@.len() {
                            line@.len() - self.offset.col
                        } else {
                            0int
                        },
                        c <= cols,
                        row_v@ == Seq::new(c as nat, |cc: int| self.render_cell(r as int, cc)),
                    decreases cols - c,
                {
                    let cell: char = if c == 0 {
                        if ln < 1000 {
                            ' '
                        } else {
                            digit_to_char((ln / 1000) % 10)
                        }
                    } else if c == 1 {
                        if ln < 100 {
                            ' '
                        } else {
                            digit_to_char((ln / 100) % 10)
                        }
                    } else if c == 2 {
                        if ln < 10 {
                            ' '
                        } else {
                            digit_to_char((ln / 10) % 10)
                        }
                    } else if c == 3 {
                        digit_to_char(ln % 10)
                    } else if c == 4 {
                        ' '
                    } else if c - 5 < avail {
                        line[self.offset.col + (c - 5)]
                    } else {
                        ' '
                    };
                    row_v.push(cell);
                    proof {
                        assert(Seq::new((c + 1) as nat, |cc: int| self.render_cell(r as int, cc))
                            =~= Seq::new(c as nat, |cc: int| self.render_cell(r as int, cc)).push(
                            self.render_cell(r as int, c as int),
                        ));
                    }
                    c = c + 1;
                }
            } else {
                let mut c: usize = 0;
                while c < cols
                    invariant
                        self == old(self),
                        cols == self.sz.col,
                        lines == self.text.line_starts@.len(),
                        r < rows,
                        rows == self.sz.row,
                        self.offset.row + r >= lines,
                        c <= cols,
                        row_v@ == Seq::new(c as nat, |cc: int| self.render_cell(r as int, cc)),
                    decreases cols - c,
                {
                    row_v.push(' ');
                    proof {
                        assert(Seq::new((c + 1) as nat, |cc: int| self.render_cell(r as int, cc))
                            =~= Seq::new(c as nat, |cc: int| self.render_cell(r as int, cc)).push(
                            self.render_cell(r as int, c as int),
                        ));
                    }
                    c = c + 1;
                }
            }
            proof {
                assert(row_v@ =~= self.render_row_seq(r as int));
                assert(rows_seq.take(r + 1 as int) =~= rows_seq.take(r as int).push(
                    rows_seq[r as int],
                ));
                rows_seq.take(r as int).lemma_flatten_push(row_v@);
            }
            new_view.append(&mut row_v);
            r = r + 1;
        }
        proof {
            assert(rows_seq.take(rows as int) =~= rows_seq);
            assert forall|i: int| 0 <= i < rows_seq.len() implies #[trigger] rows_seq[i].len()
                == cols as int by {
                assert(rows_seq[i] == self.render_row_seq(i));
            }
            lemma_flatten_uniform(rows_seq, cols as int);
        }
        self.view = new_view;
        let n = self.view.len();
        let mut new_updates: Vec<bool> = Vec::new();
        let mut i: usize = 0;
        while i < n
            invariant
                i <= n,
                new_updates@ == Seq::new(i as nat, |k: int| true),
            decreases n - i,
        {
            new_updates.push(true);
            proof {
                assert(Seq::new((i + 1) as nat, |k: int| true) =~= Seq::new(
                    i as nat,
                    |k: int| true,
                ).push(true));
            }
            i = i + 1;
        }
        self.updates = new_updates;
    }

    /// What a cursor-up by `y` does: move up within the viewport, or
    /// scroll the viewport up (stopping at the top) and repaint; then pull
    /// the cursor column back to the end of the line it landed on.
    pub open spec fn up_post(pre: TextView, post: TextView, y: int) -> bool {
        let scrolled = y > pre.cursor.row;
        let or2: int = if !scrolled {
            pre.offset.row as int
        } else if y - pre.cursor.row <= pre.offset.row {
            pre.offset.row - (y - pre.cursor.row)
        } else {
            0
        };
        let cr2: int = if !scrolled {
            pre.cursor.row - y
        } else {
            0
        };
        let ll = pre.text.line_len(or2 + cr2);
        &&& post.text == pre.text
        &&& post.sz == pre.sz
        &&& post.cursor_style == pre.cursor_style
        &&& post.offset.row == or2
        &&& post.offset.col == pre.offset.col
        &&& post.cursor.row == cr2
        &&& post.cursor.col == clamped_col(pre.cursor.col as int, ll)
        &&& post.view@ == if scrolled {
            post.rendered()
        } else {
            pre.view@
        }
        &&& post.updates@ == if scrolled {
            all_marked(post.view@.len() as int)
        } else {
            pre.updates@
        }
    }

    /// What a cursor-down by one does, when a next line exists: move down
    /// within the viewport, or scroll the viewport down one line (pinned
    /// so the viewport stays inside the file) and repaint; then pull the
    /// cursor column back.  Without a next line nothing changes.
    pub open spec fn down_post(pre: TextView, post: TextView, y: int) -> bool {
        let lines = pre.text.line_starts@.len() as int;
        if pre.line_of() + 1 < lines {
            let noscroll = pre.cursor.row + y < pre.sz.row;
            let or_tmp: int = pre.offset.row + 1;
            let clamp = or_tmp + pre.cursor.row + 1 >= lines;
            let or2: int = if noscroll {
                pre.offset.row as int
            } else if clamp {
                lines - pre.sz.row - 1
            } else {
                or_tmp
            };
            let cr2: int = if noscroll {
                pre.cursor.row + y
            } else {
                pre.sz.row - 1
            };
            let ll = pre.text.line_len(or2 + cr2);
            &&& post.text == pre.text
            &&& post.sz == pre.sz
            &&& post.cursor_style == pre.cursor_style
            &&& post.offset.row == or2
            &&& post.offset.col == pre.offset.col
            &&& post.cursor.row == cr2
            &&& post.cursor.col == clamped_col(pre.cursor.col as int, ll)
            &&& post.view@ == if noscroll {
                pre.view@
            } else {
                post.rendered()
            }
            &&& post.updates@ == if noscroll {
                pre.updates@
            } else {
                all_marked(post.view@.len() as int)
            }
        } else {
            post == pre
        }
    }

    /// What a cursor-left by `x` does: the column moves left, stopping at
    /// the first text column.
    pub open spec fn left_post(pre: TextView, post: TextView, x: int) -> bool {
        &&& post.text == pre.text
        &&& post.sz == pre.sz
        &&& post.cursor_style == pre.cursor_style
        &&& post.offset == pre.offset
        &&& post.view@ == pre.view@
        &&& post.updates@ == pre.updates@
        &&& post.cursor.row == pre.cursor.row
        &&& post.cursor.col == if pre.cursor.col - x >= 5 {
            pre.cursor.col - x
        } else {
            5
        }
    }

    /// What a cursor-right by `x` does: the column advances, scrolling the
    /// viewport right when it passes the last grid column; then, past the
    /// end of the line, it is pulled back onto the last character (block
    /// cursor) or just after it (bar cursor), scrolling back as needed and
    /// never below zero.
    pub open spec fn right_post(pre: TextView, post: TextView, x: int) -> bool {
        let cc1: int = pre.cursor.col + x;
        let scroll = cc1 >= pre.sz.col;
        let oc1: int = if scroll {
            pre.offset.col + (cc1 - pre.sz.col + 1)
        } else {
            pre.offset.col as int
        };
        let cc2: int = if scroll {
            pre.sz.col - 1
        } else {
            cc1
        };
        let ll = pre.text.line_len(pre.line_of());
        let block_over = pre.cursor_style == CursorStyle::Block && oc1 + cc2 - 5 >= ll;
        let bar_over = pre.cursor_style == CursorStyle::Bar && oc1 + cc2 - 5 > ll;
        let at_edge = cc2 + 1 == pre.sz.col;
        let oc2: int = if block_over && at_edge {
            if ll - cc2 - 1 >= 0 {
                ll - cc2 - 1
            } else {
                0
            }
        } else if bar_over && at_edge {
            if ll - cc2 >= 0 {
                ll - cc2
            } else {
                0
            }
        } else {
            oc1
        };
        let cc3: int = if block_over && !at_edge {
            4 + ll
        } else if bar_over && !at_edge {
            5 + ll
        } else {
            cc2
        };
        &&& post.text == pre.text
        &&& post.sz == pre.sz
        &&& post.cursor_style == pre.cursor_style
        &&& post.offset.row == pre.offset.row
        &&& post.offset.col == oc2
        &&& post.cursor.row == pre.cursor.row
        &&& post.cursor.col == cc3
        &&& post.view@ == pre.view@
        &&& post.updates@ == pre.updates@
    }

    /// What a jump to the top does: viewport and cursor to the first line,
    /// cursor column pulled back, repaint.
    pub open spec fn top_post(pre: TextView, post: TextView) -> bool {
        let ll = pre.text.line_len(0);
        &&& post.text == pre.text
        &&& post.sz == pre.sz
        &&& post.cursor_style == pre.cursor_style
        &&& post.offset.row == 0
        &&& post.offset.col == pre.offset.col
        &&& post.cursor.row == 0
        &&& post.cursor.col == clamped_col(pre.cursor.col as int, ll)
        &&& post.view@ == post.rendered()
        &&& post.updates@ == all_marked(post.view@.len() as int)
    }

    /// What a jump to the bottom does when the file overfills the
    /// viewport: the viewport is placed at the end of the file, the cursor
    /// on its last row, the cursor column pulled back, repaint.
    pub open spec fn bottom_post(pre: TextView, post: TextView) -> bool {
        let lines = pre.text.line_starts@.len() as int;
        let or2: int = lines - pre.sz.row - 1;
        let cr2: int = pre.sz.row - 1;
        let ll = pre.text.line_len(or2 + cr2);
        &&& post.text == pre.text
        &&& post.sz == pre.sz
        &&& post.cursor_style == pre.cursor_style
        &&& post.offset.row == or2
        &&& post.offset.col == pre.offset.col
        &&& post.cursor.row == cr2
        &&& post.cursor.col == clamped_col(pre.cursor.col as int, ll)
        &&& post.view@ == post.rendered()
        &&& post.updates@ == all_marked(post.view@.len() as int)
    }

    /// The buffer index under the cursor: the start of its line plus its
    /// buffer column.
    pub open spec fn caret_idx(pre: TextView) -> int {
        pre.text.line_starts@[pre.line_of()] + pre.offset.col + pre.cursor.col - 5
    }

    /// When an insertion is safe: the cursor sits at a buffer position
    /// (when its line exists), and the machine limits of the buffer hold.
    pub open spec fn insert_ok(pre: TextView) -> bool {
        &&& pre.offset.row + pre.cursor.row <= usize::MAX
        &&& pre.line_of() < pre.text.line_starts@.len() ==> {
            &&& pre.offset.col + pre.cursor.col >= 5
            &&& pre.offset.col + pre.cursor.col <= usize::MAX
            &&& TextView::caret_idx(pre) <= pre.text.length
            &&& pre.text.length < usize::MAX
            &&& pre.text.add_buffer@.len() < usize::MAX
            &&& pre.cursor.col < usize::MAX
        }
    }

    /// What inserting `c` does, when the cursor's line exists: the
    /// character enters the buffer at the cursor, the cursor steps right,
    /// or to the start of the next row after a newline, and the pane
    /// repaints.  Without a line under the cursor nothing changes.
    pub open spec fn insert_post(pre: TextView, post: TextView, c: char) -> bool {
        if pre.line_of() < pre.text.line_starts@.len() {
            let idx = TextView::caret_idx(pre);
            &&& post.sz == pre.sz
            &&& post.cursor_style == pre.cursor_style
            &&& post.offset == pre.offset
            &&& post.text.wf()
            &&& post.text.content() == pre.text.content().insert(idx, c)
            &&& post.cursor.row == if c == '\n' {
                pre.cursor.row + 1
            } else {
                pre.cursor.row as int
            }
            &&& post.cursor.col == if c == '\n' {
                5int
            } else {
                pre.cursor.col + 1
            }
            &&& post.view@ == post.rendered()
            &&& post.updates@ == all_marked(post.view@.len() as int)
        } else {
            post == pre
        }
    }

    /// When a deletion is safe: a character stands at the cursor for a
    /// block cursor, a position for a bar cursor; an underline cursor
    /// takes no deletion; and where a bar deletion rejoins or scrolls,
    /// the geometry admits it.
    pub open spec fn delete_ok(pre: TextView) -> bool {
        &&& pre.offset.row + pre.cursor.row <= usize::MAX
        &&& pre.line_of() < pre.text.line_starts@.len() ==> {
            let idx = TextView::caret_idx(pre);
            &&& pre.cursor_style != CursorStyle::Underline
            &&& pre.offset.col + pre.cursor.col >= 5
            &&& pre.offset.col + pre.cursor.col <= usize::MAX
            &&& (pre.cursor_style == CursorStyle::Block ==> idx < pre.text.length)
            &&& (pre.cursor_style == CursorStyle::Bar ==> idx <= pre.text.length && (idx > 0
                ==> {
                if pre.cursor.col == 5 && pre.offset.col == 0 {
                    let pl = pre.text.line_len(pre.line_of() - 1);
                    &&& pl + 4 <= usize::MAX
                    &&& (pl + 5 < pre.sz.col || (pre.sz.col >= 1 && pl + 4 >= pre.sz.col))
                } else {
                    &&& pre.cursor.col >= 1
                    &&& (pre.cursor.col >= 6 || pre.offset.col >= 1)
                }
            }))
        }
    }

    /// What a deletion does, when the cursor's line exists.  A block
    /// cursor deletes the character under the cursor.  A bar cursor
    /// deletes the character before it: at the visual start of a line it
    /// removes the preceding newline and lands at the join, scrolling if
    /// the previous line overfills the width; elsewhere it steps left,
    /// scrolling when pressed against the gutter.  At buffer position 0 a
    /// bar cursor deletes nothing.  The pane repaints.
    pub open spec fn delete_post(pre: TextView, post: TextView) -> bool {
        if pre.line_of() < pre.text.line_starts@.len() {
            let idx = TextView::caret_idx(pre);
            &&& post.sz == pre.sz
            &&& post.cursor_style == pre.cursor_style
            &&& post.view@ == post.rendered()
            &&& post.updates@ == all_marked(post.view@.len() as int)
            &&& (pre.cursor_style == CursorStyle::Block ==> {
                &&& post.text.wf()
                &&& post.text.content() == pre.text.content().remove(idx)
                &&& post.cursor == pre.cursor
                &&& post.offset == pre.offset
            })
            &&& (pre.cursor_style == CursorStyle::Bar ==> {
                if idx > 0 {
                    &&& post.text.wf()
                    &&& post.text.content() == pre.text.content().remove(idx - 1)
                    &&& if pre.cursor.col == 5 && pre.offset.col == 0 {
                        let pl = pre.text.line_len(pre.line_of() - 1);
                        &&& post.cursor.row == if pre.cursor.row == 0 {
                            0int
                        } else {
                            pre.cursor.row - 1
                        }
                        &&& post.offset.row == if pre.cursor.row == 0 {
                            pre.offset.row - 1
                        } else {
                            pre.offset.row as int
                        }
                        &&& post.cursor.col == if pl + 5 < pre.sz.col {
                            pl + 5
                        } else {
                            pre.sz.col - 1
                        }
                        &&& post.offset.col == if pl + 5 < pre.sz.col {
                            0int
                        } else {
                            pl + 4 - pre.sz.col
                        }
                    } else {
                        &&& post.cursor.row == pre.cursor.row
                        &&& post.offset.row == pre.offset.row
                        &&& post.cursor.col == if pre.cursor.col - 1 < 5 {
                            5int
                        } else {
                            pre.cursor.col - 1
                        }
                        &&& post.offset.col == if pre.cursor.col - 1 < 5 {
                            pre.offset.col - 1
                        } else {
                            pre.offset.col as int
                        }
                    }
                } else {
                    &&& post.text == pre.text
                    &&& post.cursor == pre.cursor
                    &&& post.offset == pre.offset
                }
            })
        } else {
            post == pre
        }
    }

    /// Insert `c` into the buffer at the cursor and advance the cursor.
    fn cmd_insert(&mut self, c: char)
        requires
            old(self).wf(),
            TextView::insert_ok(*old(self)),
        ensures
            final(self).wf(),
            TextView::insert_post(*old(self), *final(self), c),
    {
        let line = self.offset.row + self.cursor.row;
        let nlines = self.text.lines();
        if let Some(line_offset) = self.text.get_line_offset(line) {
            proof {
                assert(line < nlines);
            }
            let col = self.offset.col + self.cursor.col - 5;
            let idx = line_offset + col;
            self.text.insert(idx, c);
            if c == '\n' {
                self.cursor.row = self.cursor.row + 1;
                self.cursor.col = 5;
            } else {
                self.cursor.col = self.cursor.col + 1;
            }
            let ghost snap = *self;
            self.refresh_text();
            proof {
                lemma_rendered_same(snap, *self);
            }
        }
    }

    /// Delete at the cursor: the character under a block cursor, the one
    /// before a bar cursor.
    fn cmd_delete(&mut self)
        requires
            old(self).wf(),
            TextView::delete_ok(*old(self)),
        ensures
            final(self).wf(),
            TextView::delete_post(*old(self), *final(self)),
    {
        let line = self.offset.row + self.cursor.row;
        if let Some(line_offset) = self.text.get_line_offset(line) {
            let col = self.offset.col + self.cursor.col - 5;
            let idx = line_offset + col;
            match self.cursor_style {
                CursorStyle::Underline => {
                    proof {
                        assert(false);
                    }
                },
                CursorStyle::Block => {
                    self.text.delete(idx);
                },
                CursorStyle::Bar => {
                    if idx > 0 {
                        if self.cursor.col == 5 && self.offset.col == 0 {
                            proof {
                                assert(self.text.line_starts@[line as int] > 0);
                                if line == 0 {
                                    assert(self.text.line_starts@[0] == 0);
                                }
                            }
                            let prev_len = if let Some(l) = self.text.get_line_length(line - 1) {
                                l
                            } else {
                                proof {
                                    assert(false);
                                }
                                unreached()
                            };
                            self.text.delete(idx - 1);
                            if self.cursor.row == 0 {
                                self.offset.row = self.offset.row - 1;
                            } else {
                                self.cursor.row = self.cursor.row - 1;
                            }
                            if self.sz.col > 5 && prev_len < self.sz.col - 5 {
                                self.cursor.col = prev_len + 5;
                                self.offset.col = 0;
                            } else {
                                self.cursor.col = self.sz.col - 1;
                                self.offset.col = (prev_len + 4) - self.sz.col;
                            }
                        } else {
                            self.text.delete(idx - 1);
                            if self.cursor.col - 1 < 5 {
                                self.cursor.col = 5;
                                self.offset.col = self.offset.col - 1;
                            } else {
                                self.cursor.col = self.cursor.col - 1;
                            }
                        }
                    }
                },
            }
            let ghost snap = *self;
            self.refresh_text();
            proof {
                lemma_rendered_same(snap, *self);
            }
        }
    }

    /// Pull the cursor column back to the end of the line it sits on.
    fn clamp_col(&mut self)
        requires
            old(self).text.wf(),
            old(self).line_of() < old(self).text.line_starts@.len(),
        ensures
            final(self).text == old(self).text,
            final(self).sz == old(self).sz,
            final(self).offset == old(self).offset,
            final(self).cursor_style == old(self).cursor_style,
            final(self).view == old(self).view,
            final(self).updates == old(self).updates,
            final(self).cursor.row == old(self).cursor.row,
            final(self).cursor.col == clamped_col(
                old(self).cursor.col as int,
                old(self).text.line_len(old(self).line_of()),
            ),
    {
        let lines = self.text.lines();
        let line = self.offset.row + self.cursor.row;
        let ll = if let Some(l) = self.text.get_line_length(line) {
            l
        } else {
            proof {
                assert(false);
            }
            unreached()
        };
        if self.cursor.col >= 5 && self.cursor.col - 5 >= ll {
            if ll > 0 {
                self.cursor.col = 4 + ll;
            } else {
                self.cursor.col = 5;
            }
        }
    }

    /// Move the cursor up `y` rows, scrolling and repainting if it leaves
    /// the viewport, and keep its column on the line.
    fn cmd_cursor_up(&mut self, y: usize)
        requires
            old(self).wf(),
            old(self).line_of() < old(self).text.line_starts@.len(),
        ensures
            final(self).wf(),
            TextView::up_post(*old(self), *final(self), y as int),
    {
        let ghost mut snap = *self;
        if y <= self.cursor.row {
            self.cursor.row = self.cursor.row - y;
        } else {
            if y - self.cursor.row <= self.offset.row {
                self.offset.row = self.offset.row - (y - self.cursor.row);
            } else {
                self.offset.row = 0;
            }
            self.cursor.row = 0;
            proof {
                snap = *self;
            }
            self.refresh_text();
        }
        self.clamp_col();
        proof {
            if y > old(self).cursor.row {
                lemma_rendered_same(snap, *self);
            }
        }
    }

    /// Move the cursor down `y` rows if a next line exists, scrolling and
    /// repainting at the bottom of the viewport, and keep its column on
    /// the line.
    fn cmd_cursor_down(&mut self, y: usize)
        requires
            old(self).wf(),
            y == 1,
            old(self).line_of() + 1 < old(self).text.line_starts@.len() ==> old(self).sz.row >= 1,
        ensures
            final(self).wf(),
            TextView::down_post(*old(self), *final(self), y as int),
    {
        let lines = self.text.lines();
        let ghost mut snap = *self;
        if self.offset.row < lines - 1 && self.cursor.row < lines - 1 - self.offset.row {
            if self.cursor.row + y < self.sz.row {
                self.cursor.row = self.cursor.row + y;
            } else {
                self.offset.row = self.offset.row + 1;
                if self.offset.row + self.cursor.row + 1 >= lines {
                    self.offset.row = lines - self.sz.row - 1;
                }
                self.cursor.row = self.sz.row - 1;
                proof {
                    snap = *self;
                }
                self.refresh_text();
            }
            self.clamp_col();
            proof {
                if old(self).cursor.row + y >= old(self).sz.row {
                    lemma_rendered_same(snap, *self);
                }
            }
        }
    }

    /// Move the cursor left `x` columns, stopping at the first text
    /// column.
    fn cmd_cursor_left(&mut self, x: usize)
        requires
            old(self).wf(),
        ensures
            final(self).wf(),
            TextView::left_post(*old(self), *final(self), x as int),
    {
        if x <= self.cursor.col && self.cursor.col - x >= 5 {
            self.cursor.col = self.cursor.col - x;
        } else {
            self.cursor.col = 5;
        }
    }

    /// Move the cursor right `x` columns, scrolling horizontally past the
    /// grid edge, then pull it back to the end of the line per cursor
    /// style.
    fn cmd_cursor_right(&mut self, x: usize)
        requires
            old(self).wf(),
            old(self).line_of() < old(self).text.line_starts@.len(),
            old(self).offset.col + old(self).cursor.col + x + 1 <= usize::MAX,
            old(self).sz.col >= 1,
        ensures
            final(self).wf(),
            TextView::right_post(*old(self), *final(self), x as int),
    {
        self.cursor.col = self.cursor.col + x;
        if self.cursor.col >= self.sz.col {
            self.offset.col = self.offset.col + (self.cursor.col - self.sz.col + 1);
            self.cursor.col = self.sz.col - 1;
        }
        let lines = self.text.lines();
        let line = self.offset.row + self.cursor.row;
        let ll = if let Some(l) = self.text.get_line_length(line) {
            l
        } else {
            proof {
                assert(false);
            }
            unreached()
        };
        let at_edge = self.cursor.col + 1 == self.sz.col;
        let tc = self.offset.col + self.cursor.col;
        if self.cursor_style == CursorStyle::Block && tc >= 5 && tc - 5 >= ll {
            if at_edge {
                if ll >= self.cursor.col + 1 {
                    self.offset.col = ll - self.cursor.col - 1;
                } else {
                    self.offset.col = 0;
                }
            } else {
                self.cursor.col = 4 + ll;
            }
        } else if self.cursor_style == CursorStyle::Bar && tc >= 5 && tc - 5 > ll {
            if at_edge {
                if ll >= self.cursor.col {
                    self.offset.col = ll - self.cursor.col;
                } else {
                    self.offset.col = 0;
                }
            } else {
                self.cursor.col = 5 + ll;
            }
        }
    }

    /// Jump viewport and cursor to the first line.
    fn cmd_jump_top(&mut self)
        requires
            old(self).wf(),
        ensures
            final(self).wf(),
            TextView::top_post(*old(self), *final(self)),
    {
        self.cursor.row = 0;
        self.offset.row = 0;
        self.clamp_col();
        let ghost snap = *self;
        self.refresh_text();
        proof {
            lemma_rendered_same(snap, *self);
        }
    }

    /// Jump the viewport to the end of the file and the cursor to its
    /// last row.
    fn cmd_jump_bottom(&mut self)
        requires
            old(self).wf(),
            old(self).text.line_starts@.len() > old(self).sz.row,
            old(self).sz.row >= 1,
        ensures
            final(self).wf(),
            TextView::bottom_post(*old(self), *final(self)),
    {
        let lines = self.text.lines();
        self.offset.row = lines - self.sz.row - 1;
        self.cursor.row = self.sz.row - 1;
        self.clamp_col();
        let ghost snap = *self;
        self.refresh_text();
        proof {
            lemma_rendered_same(snap, *self);
        }
    }

    /// When `cmd` can be processed from `pre` without running outside the
    /// buffer, the viewport or the machine's integer range.
    pub open spec fn cmd_ok(pre: TextView, cmd: TextCommand) -> bool {
        match cmd {
            TextCommand::CursorUp(_) => pre.line_of() < pre.text.line_starts@.len(),
            TextCommand::CursorDown(y) => y == 1 && (pre.line_of() + 1
                < pre.text.line_starts@.len() ==> pre.sz.row >= 1),
            TextCommand::CursorLeft(_) => true,
            TextCommand::CursorRight(x) => pre.line_of() < pre.text.line_starts@.len()
                && pre.offset.col + pre.cursor.col + x + 1 <= usize::MAX && pre.sz.col >= 1,
            TextCommand::JumpTop => true,
            TextCommand::JumpBottom => pre.text.line_starts@.len() > pre.sz.row && pre.sz.row
                >= 1,
            TextCommand::SetCursorStyle(_) => true,
            TextCommand::Insert(_) => TextView::insert_ok(pre),
            TextCommand::Delete => TextView::delete_ok(pre),
        }
    }

    /// What processing `cmd` does, command by command.
    pub open spec fn step_post(pre: TextView, post: TextView, cmd: TextCommand) -> bool {
        match cmd {
            TextCommand::CursorUp(y) => TextView::up_post(pre, post, y as int),
            TextCommand::CursorDown(y) => TextView::down_post(pre, post, y as int),
            TextCommand::CursorLeft(x) => TextView::left_post(pre, post, x as int),
            TextCommand::CursorRight(x) => TextView::right_post(pre, post, x as int),
            TextCommand::JumpTop => TextView::top_post(pre, post),
            TextCommand::JumpBottom => TextView::bottom_post(pre, post),
            TextCommand::SetCursorStyle(sty) => {
                &&& post.cursor_style == sty
                &&& post.text == pre.text
                &&& post.sz == pre.sz
                &&& post.offset == pre.offset
                &&& post.cursor == pre.cursor
                &&& post.view == pre.view
                &&& post.updates == pre.updates
            },
            TextCommand::Insert(c) => TextView::insert_post(pre, post, c),
            TextCommand::Delete => TextView::delete_post(pre, post),
        }
    }

    /// Apply one text command to the pane.
    pub fn process_command(&mut self, cmd: TextCommand)
        requires
            old(self).wf(),
            TextView::cmd_ok(*old(self), cmd),
        ensures
            final(self).wf(),
            TextView::step_post(*old(self), *final(self), cmd),
    {
        match cmd {
            TextCommand::CursorUp(y) => self.cmd_cursor_up(y),
            TextCommand::CursorDown(y) => self.cmd_cursor_down(y),
            TextCommand::CursorLeft(x) => self.cmd_cursor_left(x),
            TextCommand::CursorRight(x) => self.cmd_cursor_right(x),
            TextCommand::JumpTop => self.cmd_jump_top(),
            TextCommand::JumpBottom => self.cmd_jump_bottom(),
            TextCommand::SetCursorStyle(sty) => {
                self.cursor_style = sty;
            },
            TextCommand::Insert(c) => self.cmd_insert(c),
            TextCommand::Delete => self.cmd_delete(),
        }
    }

    /// Whether `cmd` can be processed from the current state: the runtime
    /// mirror of [`TextView::cmd_ok`], for a driver to test before it
    /// forwards a command.
    pub fn command_ok(&self, cmd: TextCommand) -> (r: bool)
        requires
            self.wf(),
        ensures
            r == TextView::cmd_ok(*self, cmd),
    {
        let lines = self.text.lines();
        let row_sum_ok = self.offset.row <= usize::MAX - self.cursor.row;
        match cmd {
            TextCommand::CursorUp(_) => row_sum_ok && self.offset.row + self.cursor.row < lines,
            TextCommand::CursorDown(y) => y == 1 && (!(row_sum_ok && self.offset.row
                + self.cursor.row < lines - 1) || self.sz.row >= 1),
            TextCommand::CursorLeft(_) => true,
            TextCommand::CursorRight(x) => row_sum_ok && self.offset.row + self.cursor.row
                < lines && self.offset.col <= usize::MAX - self.cursor.col && self.offset.col
                + self.cursor.col < usize::MAX && x <= usize::MAX - 1 - (self.offset.col
                + self.cursor.col) && self.sz.col >= 1,
            TextCommand::JumpTop => true,
            TextCommand::JumpBottom => lines > self.sz.row && self.sz.row >= 1,
            TextCommand::SetCursorStyle(_) => true,
            TextCommand::Insert(_) => self.insert_ready(),
            TextCommand::Delete => self.delete_ready(),
        }
    }

    /// The runtime mirror of [`TextView::insert_ok`].
    fn insert_ready(&self) -> (r: bool)
        requires
            self.wf(),
        ensures
            r == TextView::insert_ok(*self),
    {
        let lines = self.text.lines();
        if !(self.offset.row <= usize::MAX - self.cursor.row) {
            false
        } else if self.offset.row + self.cursor.row >= lines {
            true
        } else {
            let line = self.offset.row + self.cursor.row;
            let line_offset = if let Some(lo) = self.text.get_line_offset(line) {
                lo
            } else {
                proof {
                    assert(false);
                }
                unreached()
            };
            let length = self.text.len();
            if !(self.offset.col <= usize::MAX - self.cursor.col) {
                false
            } else {
                let csum = self.offset.col + self.cursor.col;
                csum >= 5 && csum - 5 <= length && line_offset <= length - (csum - 5) && length
                    < usize::MAX && self.text.add_buffer.len() < usize::MAX && self.cursor.col
                    < usize::MAX
            }
        }
    }

    /// The runtime mirror of [`TextView::delete_ok`].
    fn delete_ready(&self) -> (r: bool)
        requires
            self.wf(),
        ensures
            r == TextView::delete_ok(*self),
    {
        let lines = self.text.lines();
        if !(self.offset.row <= usize::MAX - self.cursor.row) {
            false
        } else if self.offset.row + self.cursor.row >= lines {
            true
        } else {
            let line = self.offset.row + self.cursor.row;
            let line_offset = if let Some(lo) = self.text.get_line_offset(line) {
                lo
            } else {
                proof {
                    assert(false);
                }
                unreached()
            };
            let length = self.text.len();
            if self.cursor_style == CursorStyle::Underline {
                false
            } else if !(self.offset.col <= usize::MAX - self.cursor.col) {
                false
            } else {
                let csum = self.offset.col + self.cursor.col;
                if !(csum >= 5 && csum - 5 <= length && line_offset <= length - (csum - 5)) {
                    false
                } else {
                    let idx = line_offset + (csum - 5);
                    if self.cursor_style == CursorStyle::Block {
                        idx < length
                    } else {
                        // Bar: idx <= length holds here; check the landing
                        // geometry when something stands before the cursor.
                        if idx == 0 {
                            true
                        } else if self.cursor.col == 5 && self.offset.col == 0 {
                            proof {
                                assert(self.text.line_starts@[line as int] > 0);
                                if line == 0 {
                                    assert(self.text.line_starts@[0] == 0);
                                }
                            }
                            let pl = if let Some(l) = self.text.get_line_length(line - 1) {
                                l
                            } else {
                                proof {
                                    assert(false);
                                }
                                unreached()
                            };
                            pl <= usize::MAX - 4 && ((self.sz.col > 5 && pl < self.sz.col - 5)
                                || (self.sz.col >= 1 && pl + 4 >= self.sz.col))
                        } else {
                            self.cursor.col >= 1 && (self.cursor.col >= 6 || self.offset.col
                                >= 1)
                        }
                    }
                }
            }
        }
    }

    /// Resize the pane and repaint its grid.
    pub fn set_size(&mut self, p: Position)
        requires
            old(self).text.wf(),
        ensures
            final(self).wf(),
            final(self).sz == p,
            final(self).text == old(self).text,
            final(self).offset == old(self).offset,
            final(self).cursor == old(self).cursor,
            final(self).cursor_style == old(self).cursor_style,
            final(self).view@ == final(self).rendered(),
            final(self).updates@ == all_marked(final(self).view@.len() as int),
    {
        self.sz = p;
        let ghost snap = *self;
        self.refresh_text();
        proof {
            lemma_rendered_same(snap, *self);
        }
    }

    /// The pane's grid size.
    pub fn get_size(&self) -> (r: Position)
        ensures
            r == self.sz,
    {
        self.sz
    }

    /// A copy of the pane's grid, row-major.
    pub fn get_view(&self) -> (r: Vec<char>)
        ensures
            r@ == self.view@,
    {
        let n = self.view.len();
        let mut r: Vec<char> = Vec::new();
        let mut i: usize = 0;
        while i < n
            invariant
                n == self.view@.len(),
                i <= n,
                r@ == self.view@.take(i as int),
            decreases n - i,
        {
            r.push(self.view[i]);
            proof {
                assert(self.view@.take(i + 1 as int) =~= self.view@.take(i as int).push(
                    self.view@[i as int],
                ));
            }
            i = i + 1;
        }
        proof {
            assert(self.view@.take(n as int) =~= self.view@);
        }
        r
    }

    /// The change flags since the last call, which clears them.
    pub fn get_updates(&mut self) -> (r: Vec<bool>)
        ensures
            r@ == old(self).updates@,
            final(self).updates@ == Seq::new(old(self).updates@.len(), |i: int| false),
            final(self).view == old(self).view,
            final(self).text == old(self).text,
            final(self).sz == old(self).sz,
            final(self).offset == old(self).offset,
            final(self).cursor == old(self).cursor,
            final(self).cursor_style == old(self).cursor_style,
    {
        let n = self.updates.len();
        let mut r: Vec<bool> = Vec::new();
        let mut cleared: Vec<bool> = Vec::new();
        let mut i: usize = 0;
        while i < n
            invariant
                n == self.updates@.len(),
                i <= n,
                r@ == self.updates@.take(i as int),
                cleared@ == Seq::new(i as nat, |k: int| false),
            decreases n - i,
        {
            r.push(self.updates[i]);
            cleared.push(false);
            proof {
                assert(self.updates@.take(i + 1 as int) =~= self.updates@.take(i as int).push(
                    self.updates@[i as int],
                ));
                assert(Seq::new((i + 1) as nat, |k: int| false) =~= Seq::new(
                    i as nat,
                    |k: int| false,
                ).push(false));
            }
            i = i + 1;
        }
        proof {
            assert(self.updates@.take(n as int) =~= self.updates@);
        }
        self.updates = cleared;
        r
    }

    /// Where the cursor sits, in grid cells.
    pub fn get_cursor_pos(&self) -> (r: Position)
        ensures
            r == self.cursor,
    {
        self.cursor
    }

    /// The shape the terminal cursor should take.
    pub fn get_cursor_style(&self) -> (r: CursorStyle)
        ensures
            r == self.cursor_style,
    {
        self.cursor_style
    }
}

impl Default for TextView {
    /// A sized-down pane over an empty buffer.
    fn default() -> (r: Self)
        ensures
            r.wf(),
            r.text.content() == Seq::<char>::empty(),
    {
        proof {
            reveal_strlit("");
        }
        TextView::new("")
    }
}

impl Pane for TextView {
    open spec fn pane_wf(&self) -> bool {
        self.text.wf()
    }

    fn set_size(&mut self, p: Position) {
        TextView::set_size(self, p)
    }

    fn get_size(&self) -> Position {
        TextView::get_size(self)
    }

    fn get_view(&self) -> Vec<char> {
        TextView::get_view(self)
    }

    fn get_updates(&mut self) -> Vec<bool> {
        TextView::get_updates(self)
    }

    fn get_cursor_pos(&self) -> Position {
        TextView::get_cursor_pos(self)
    }

    fn get_cursor_style(&self) -> CursorStyle {
        TextView::get_cursor_style(self)
    }
}

} // verus!
