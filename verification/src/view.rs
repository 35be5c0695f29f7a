//! The headless cursor + editing-intent model. A [`View`] holds where the caret is and
//! knows how to move and edit, but does not own the text: every method borrows a
//! [`Document`]. All positions are chars, never bytes.
use vstd::prelude::*;
use vstd::view::View as HasView;

use crate::document::{
    lemma_line_count_bounds, lemma_line_start_bounds, lemma_lines_left, line_body, line_count,
    line_start, spliced_in, spliced_out, Document,
};

verus! {

/// The length of line `l` of `s`, its newline excluded.
pub open spec fn line_len(s: Seq<char>, l: int) -> int {
    line_body(s, l).len() as int
}

/// The last line the caret may rest on (a text ending in `'\n'` has a trailing empty line,
/// and the caret may sit on it).
pub open spec fn last_line(s: Seq<char>) -> int {
    line_count(s) - 1
}

/// A position pulled back inside `s`: never past the last line, never past that line's
/// last char.
pub open spec fn clamp_pos(s: Seq<char>, line: int, col: int) -> (int, int) {
    let l = if line > last_line(s) {
        last_line(s)
    } else {
        line
    };
    let c = if col > line_len(s, l) {
        line_len(s, l)
    } else {
        col
    };
    (l, c)
}

/// A cursor over a [`Document`]: a `(line, column)` position plus a remembered goal
/// column. Vertical moves try to land on the goal column; horizontal moves and edits reset
/// it to the current column.
#[derive(Debug, Clone)]
pub struct View {
    line: usize,
    column: usize,
    goal_column: usize,
}

impl View {
    /// The caret's line.
    pub closed spec fn line_v(&self) -> int {
        self.line as int
    }

    /// The caret's column.
    pub closed spec fn col_v(&self) -> int {
        self.column as int
    }

    /// The remembered goal column.
    pub closed spec fn goal_v(&self) -> int {
        self.goal_column as int
    }

    /// Whether the caret lies inside `s`: on an existing line, at most at its end.
    pub open spec fn placed(&self, s: Seq<char>) -> bool {
        0 <= self.line_v() <= last_line(s) && 0 <= self.col_v() <= line_len(s, self.line_v())
    }

    /// Whether the caret sits at `(line, col)` with goal column `goal`.
    pub open spec fn at(&self, line: int, col: int, goal: int) -> bool {
        self.line_v() == line && self.col_v() == col && self.goal_v() == goal
    }

    /// A fresh cursor at the top-left of the buffer, `(0, 0)` with goal column 0.
    pub fn new() -> (v: View)
        ensures
            v.at(0, 0, 0),
    {
        View { line: 0, column: 0, goal_column: 0 }
    }

    /// The line the caret is on (0-based).
    pub fn cursor_line(&self) -> (r: usize)
        ensures
            r == self.line_v(),
    {
        self.line
    }

    /// The column the caret is on (0-based, in characters).
    pub fn cursor_column(&self) -> (r: usize)
        ensures
            r == self.col_v(),
    {
        self.column
    }

    /// The flat character index of the caret within `doc`.
    pub fn cursor_char_idx(&self, doc: &Document) -> (r: usize)
        requires
            self.placed(doc@),
        ensures
            r == line_start(doc@, self.line_v()) + self.col_v(),
            r <= doc@.len(),
    {
        proof {
            lemma_placed_index(doc@, self.line as int, self.column as int);
        }
        doc.len_bound();
        doc.line_to_char(self.line) + self.column
    }

    /// The last line index the caret may rest on.
    fn last_line(doc: &Document) -> (r: usize)
        ensures
            r == last_line(doc@),
    {
        doc.line_count() - 1
    }

    fn set_column(&mut self, column: usize)
        ensures
            final(self).at(old(self).line_v(), column as int, column as int),
    {
        self.column = column;
        self.goal_column = column;
    }

    /// Pull the caret back inside `doc` (after the text changed under it); the goal column
    /// stays.
    pub fn clamp(&mut self, doc: &Document)
        ensures
            final(self).line_v() == clamp_pos(doc@, old(self).line_v(), old(self).col_v()).0,
            final(self).col_v() == clamp_pos(doc@, old(self).line_v(), old(self).col_v()).1,
            final(self).goal_v() == old(self).goal_v(),
            final(self).placed(doc@),
    {
        let last = Self::last_line(doc);
        if self.line > last {
            self.line = last;
        }
        let max_col = doc.line_len_chars(self.line);
        if self.column > max_col {
            self.column = max_col;
        }
        proof {
            lemma_line_count_bounds(doc@);
        }
    }

    /// Move one character left; at column 0, wrap to the end of the previous line.
    /// No-op at the very start of the buffer.
    pub fn move_left(&mut self, doc: &Document)
        ensures
            ({
                let (l, c, g) = if old(self).col_v() > 0 {
                    (old(self).line_v(), old(self).col_v() - 1, old(self).col_v() - 1)
                } else if old(self).line_v() > 0 {
                    let pl = old(self).line_v() - 1;
                    (pl, line_len(doc@, pl), line_len(doc@, pl))
                } else {
                    (old(self).line_v(), old(self).col_v(), old(self).goal_v())
                };
                final(self).at(clamp_pos(doc@, l, c).0, clamp_pos(doc@, l, c).1, g)
            }),
            final(self).placed(doc@),
    {
        if self.column > 0 {
            self.set_column(self.column - 1);
        } else if self.line > 0 {
            self.line = self.line - 1;
            self.set_column(doc.line_len_chars(self.line));
        }
        self.clamp(doc);
    }

    /// Move one character right; at a line's end, wrap to the start of the next line.
    /// No-op at the very end of the buffer.
    pub fn move_right(&mut self, doc: &Document)
        ensures
            ({
                let (l, c, g) = if old(self).col_v() < line_len(doc@, old(self).line_v()) {
                    (old(self).line_v(), old(self).col_v() + 1, old(self).col_v() + 1)
                } else if old(self).line_v() < last_line(doc@) {
                    (old(self).line_v() + 1, 0, 0)
                } else {
                    (old(self).line_v(), old(self).col_v(), old(self).goal_v())
                };
                final(self).at(clamp_pos(doc@, l, c).0, clamp_pos(doc@, l, c).1, g)
            }),
            final(self).placed(doc@),
    {
        if self.column < doc.line_len_chars(self.line) {
            self.set_column(self.column + 1);
        } else if self.line < Self::last_line(doc) {
            self.line = self.line + 1;
            self.set_column(0);
        }
        self.clamp(doc);
    }

    /// Move to the start of the current line.
    pub fn move_home(&mut self)
        ensures
            final(self).at(old(self).line_v(), 0, 0),
    {
        self.set_column(0);
    }

    /// Move to the end of the current line (its last character, newline excluded).
    pub fn move_end(&mut self, doc: &Document)
        ensures
            ({
                let c = line_len(doc@, old(self).line_v());
                final(self).at(
                    clamp_pos(doc@, old(self).line_v(), c).0,
                    clamp_pos(doc@, old(self).line_v(), c).1,
                    c,
                )
            }),
            final(self).placed(doc@),
    {
        self.set_column(doc.line_len_chars(self.line));
        self.clamp(doc);
    }

    /// Move up one line, landing on the goal column clamped to the target line's length.
    /// No-op on the first line.
    pub fn move_up(&mut self, doc: &Document)
        ensures
            ({
                let (l, c) = if old(self).line_v() > 0 {
                    let t = old(self).line_v() - 1;
                    (t, if old(self).goal_v() < line_len(doc@, t) {
                        old(self).goal_v()
                    } else {
                        line_len(doc@, t)
                    })
                } else {
                    (old(self).line_v(), old(self).col_v())
                };
                final(self).at(clamp_pos(doc@, l, c).0, clamp_pos(doc@, l, c).1, old(self).goal_v())
            }),
            final(self).placed(doc@),
    {
        if self.line > 0 {
            self.line = self.line - 1;
            let len = doc.line_len_chars(self.line);
            self.column = if self.goal_column < len {
                self.goal_column
            } else {
                len
            };
        }
        self.clamp(doc);
    }

    /// Move down one line, landing on the goal column clamped to the target line's length.
    /// No-op on the last line.
    pub fn move_down(&mut self, doc: &Document)
        ensures
            ({
                let (l, c) = if old(self).line_v() < last_line(doc@) {
                    let t = old(self).line_v() + 1;
                    (t, if old(self).goal_v() < line_len(doc@, t) {
                        old(self).goal_v()
                    } else {
                        line_len(doc@, t)
                    })
                } else {
                    (old(self).line_v(), old(self).col_v())
                };
                final(self).at(clamp_pos(doc@, l, c).0, clamp_pos(doc@, l, c).1, old(self).goal_v())
            }),
            final(self).placed(doc@),
    {
        if self.line < Self::last_line(doc) {
            self.line = self.line + 1;
            let len = doc.line_len_chars(self.line);
            self.column = if self.goal_column < len {
                self.goal_column
            } else {
                len
            };
        }
        self.clamp(doc);
    }

    /// Move up by `page` lines (clamping at the top), preserving the goal column.
    pub fn move_page_up(&mut self, doc: &Document, page: usize)
        ensures
            ({
                let t = if old(self).line_v() > page {
                    old(self).line_v() - page
                } else {
                    0
                };
                let c = if old(self).goal_v() < line_len(doc@, t) {
                    old(self).goal_v()
                } else {
                    line_len(doc@, t)
                };
                final(self).at(clamp_pos(doc@, t, c).0, clamp_pos(doc@, t, c).1, old(self).goal_v())
            }),
            final(self).placed(doc@),
    {
        self.line = if self.line > page {
            self.line - page
        } else {
            0
        };
        let len = doc.line_len_chars(self.line);
        self.column = if self.goal_column < len {
            self.goal_column
        } else {
            len
        };
        self.clamp(doc);
    }

    /// Move down by `page` lines (clamping at the bottom), preserving the goal column.
    pub fn move_page_down(&mut self, doc: &Document, page: usize)
        ensures
            ({
                let t = if old(self).line_v() + page < last_line(doc@) {
                    old(self).line_v() + page
                } else {
                    last_line(doc@)
                };
                let c = if old(self).goal_v() < line_len(doc@, t) {
                    old(self).goal_v()
                } else {
                    line_len(doc@, t)
                };
                final(self).at(clamp_pos(doc@, t, c).0, clamp_pos(doc@, t, c).1, old(self).goal_v())
            }),
            final(self).placed(doc@),
    {
        let last = Self::last_line(doc);
        self.line = if self.line < last && page < last - self.line {
            self.line + page
        } else {
            last
        };
        let len = doc.line_len_chars(self.line);
        self.column = if self.goal_column < len {
            self.goal_column
        } else {
            len
        };
        self.clamp(doc);
    }

    /// Jump the caret to the start of `line` (clamped into the buffer). Resets the goal
    /// column.
    pub fn move_to_line(&mut self, doc: &Document, line: usize)
        ensures
            final(self).at(clamp_pos(doc@, line as int, 0).0, 0, 0),
            final(self).placed(doc@),
    {
        self.line = line;
        self.set_column(0);
        self.clamp(doc);
    }

    /// Place the caret at `(line, col)`, clamping the line into the buffer and the column
    /// into the target line. Resets the goal column.
    pub fn move_to(&mut self, doc: &Document, line: usize, col: usize)
        ensures
            ({
                let l = clamp_pos(doc@, line as int, 0).0;
                let c = if col < line_len(doc@, l) {
                    col as int
                } else {
                    line_len(doc@, l)
                };
                final(self).at(l, c, c)
            }),
            final(self).placed(doc@),
    {
        self.move_to_line(doc, line);
        let max = doc.line_len_chars(self.line);
        self.set_column(if col < max {
            col
        } else {
            max
        });
    }

    /// Insert `ch` at the caret and step the caret past it.
    pub fn insert_char(&mut self, doc: &mut Document, ch: char)
        requires
            old(self).placed(old(doc)@),
        ensures
            ({
                let idx = line_start(old(doc)@, old(self).line_v()) + old(self).col_v();
                &&& final(doc)@ == spliced_in(old(doc)@, idx, seq![ch])
                &&& final(self).at(
                    clamp_pos(final(doc)@, old(self).line_v(), old(self).col_v() + 1).0,
                    clamp_pos(final(doc)@, old(self).line_v(), old(self).col_v() + 1).1,
                    old(self).col_v() + 1,
                )
            }),
            final(doc).modified_flag(),
            final(self).placed(final(doc)@),
    {
        let idx = self.cursor_char_idx(doc);
        doc.len_bound();
        let v = vec![ch];
        doc.insert(idx, &v);
        proof {
            lemma_placed_col_bound(old(doc)@, self.line as int, self.column as int);
        }
        self.set_column(self.column + 1);
        self.clamp(doc);
    }

    /// Split the line at the caret, moving it to the start of the new line below.
    pub fn insert_newline(&mut self, doc: &mut Document)
        requires
            old(self).placed(old(doc)@),
        ensures
            ({
                let idx = line_start(old(doc)@, old(self).line_v()) + old(self).col_v();
                &&& final(doc)@ == spliced_in(old(doc)@, idx, seq!['\n'])
                &&& final(self).at(
                    clamp_pos(final(doc)@, old(self).line_v() + 1, 0).0,
                    clamp_pos(final(doc)@, old(self).line_v() + 1, 0).1,
                    0,
                )
            }),
            final(doc).modified_flag(),
            final(self).placed(final(doc)@),
    {
        let idx = self.cursor_char_idx(doc);
        doc.len_bound();
        proof {
            lemma_line_count_bounds(old(doc)@);
        }
        let v = vec!['\n'];
        doc.insert(idx, &v);
        self.line = self.line + 1;
        self.set_column(0);
        self.clamp(doc);
    }

    /// Delete the character before the caret. At column 0 this removes the previous
    /// line's break, joining the current line onto it. No-op at the start of the buffer.
    pub fn backspace(&mut self, doc: &mut Document)
        requires
            old(self).placed(old(doc)@),
        ensures
            ({
                let idx = line_start(old(doc)@, old(self).line_v()) + old(self).col_v();
                if idx == 0 {
                    *final(doc) == *old(doc) && *final(self) == *old(self)
                } else if old(self).col_v() > 0 {
                    &&& final(doc)@ == spliced_out(old(doc)@, idx - 1, idx)
                    &&& final(doc).modified_flag()
                    &&& final(self).at(
                        clamp_pos(final(doc)@, old(self).line_v(), old(self).col_v() - 1).0,
                        clamp_pos(final(doc)@, old(self).line_v(), old(self).col_v() - 1).1,
                        old(self).col_v() - 1,
                    )
                } else {
                    let prev = old(self).line_v() - 1;
                    let seam = line_len(old(doc)@, prev);
                    &&& final(doc)@ == spliced_out(old(doc)@, idx - 1, idx)
                    &&& final(doc).modified_flag()
                    &&& final(self).at(
                        clamp_pos(final(doc)@, prev, seam).0,
                        clamp_pos(final(doc)@, prev, seam).1,
                        seam,
                    )
                }
            }),
            final(self).placed(final(doc)@),
    {
        let idx = self.cursor_char_idx(doc);
        if idx == 0 {
            return;
        }
        if self.column > 0 {
            doc.remove(idx - 1, idx);
            self.set_column(self.column - 1);
        } else {
            assert(self.line > 0) by {
                if self.line == 0 {
                    assert(line_start(doc@, 0) == 0);
                }
            }
            let prev = self.line - 1;
            let seam = doc.line_len_chars(prev);
            doc.remove(idx - 1, idx);
            self.line = prev;
            self.set_column(seam);
        }
        self.clamp(doc);
    }

    /// Delete the character at the caret. At a line's end this removes the line break,
    /// pulling the next line up. No-op at the end of the buffer.
    pub fn delete(&mut self, doc: &mut Document)
        requires
            old(self).placed(old(doc)@),
        ensures
            ({
                let idx = line_start(old(doc)@, old(self).line_v()) + old(self).col_v();
                if idx >= old(doc)@.len() {
                    *final(doc) == *old(doc) && *final(self) == *old(self)
                } else {
                    &&& final(doc)@ == spliced_out(old(doc)@, idx, idx + 1)
                    &&& final(doc).modified_flag()
                    &&& final(self).at(
                        clamp_pos(final(doc)@, old(self).line_v(), old(self).col_v()).0,
                        clamp_pos(final(doc)@, old(self).line_v(), old(self).col_v()).1,
                        old(self).goal_v(),
                    )
                }
            }),
            final(self).placed(final(doc)@),
    {
        let idx = self.cursor_char_idx(doc);
        if idx >= doc.char_count() {
            return;
        }
        doc.remove(idx, idx + 1);
        self.clamp(doc);
    }
}

/// A placed caret's char index lies within the text.
pub proof fn lemma_placed_index(s: Seq<char>, line: int, col: int)
    requires
        0 <= line <= last_line(s),
        0 <= col <= line_len(s, line),
    ensures
        line_start(s, line) + col <= s.len(),
{
    lemma_line_start_bounds(s, line);
    lemma_lines_left(s, line);
}

proof fn lemma_placed_col_bound(s: Seq<char>, line: int, col: int)
    requires
        0 <= line <= last_line(s),
        0 <= col <= line_len(s, line),
    ensures
        col < s.len() + 1,
{
    lemma_placed_index(s, line, col);
    lemma_line_start_bounds(s, line);
}

} // verus!
