//! The two screen panes and what they share: cursor shapes, keys, and the
//! common pane interface the driver paints from.

use vstd::prelude::*;

use crate::position::Position;

pub mod command_view;
pub mod text_view;

verus! {

/// The shape the terminal cursor is asked to take.
#[derive(Debug, Clone, Copy, PartialEq, Eq, Structural)]
pub enum CursorStyle {
    Block,
    Bar,
    Underline,
}

/// A keystroke as the interpreter sees it: a printable scalar value
/// (including `'\n'` for Enter), Escape, Backspace, or anything else,
/// which the interpreter discards.
#[derive(Debug, Clone, Copy, PartialEq, Eq, Structural)]
pub enum Key {
    Char(char),
    Esc,
    Backspace,
    Other,
}

/// Flattening rows of one width gives a grid of predictable size.
pub(crate) proof fn lemma_flatten_uniform(ss: Seq<Seq<char>>, w: int)
    requires
        forall|i: int| 0 <= i < ss.len() ==> #[trigger] ss[i].len() == w,
        w >= 0,
    ensures
        ss.flatten().len() == ss.len() * w,
    decreases ss.len(),
{
    if ss.len() == 0 {
    } else {
        assert forall|i: int| 0 <= i < ss.drop_first().len() implies #[trigger] ss.drop_first()[
        i].len() == w by {
            assert(ss.drop_first()[i] == ss[i + 1]);
        }
        lemma_flatten_uniform(ss.drop_first(), w);
        assert(ss.len() * w == w + (ss.len() - 1) * w) by (nonlinear_arith);
    }
}

/// What the driver needs from a pane in order to paint it: its size, its
/// character grid, which cells changed, and where the cursor sits.
pub trait Pane {
    /// The pane's own well-formedness, kept by `set_size`.
    spec fn pane_wf(&self) -> bool;

    fn set_size(&mut self, p: Position)
        requires
            old(self).pane_wf(),
        ensures
            final(self).pane_wf(),
    ;

    fn get_size(&self) -> Position;

    fn get_view(&self) -> Vec<char>;

    fn get_updates(&mut self) -> Vec<bool>;

    fn get_cursor_pos(&self) -> Position;

    fn get_cursor_style(&self) -> CursorStyle;
}

} // verus!
