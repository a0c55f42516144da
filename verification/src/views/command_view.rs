//! The status pane and modal keystroke interpreter.
//!
//! Keystrokes arrive in batches and are interpreted against the current
//! mode — Normal, Insert or command line — into two FIFO queues: text
//! commands for the text pane, and application commands for the driver.
//! The pane's single-row grid mirrors the mode: a mode banner, or a `':'`
//! followed by the command line being typed.

use std::collections::VecDeque;

use vstd::prelude::*;

use crate::app::ApplicationCommand;
use crate::position::Position;
use crate::views::lemma_flatten_uniform;
use crate::views::CursorStyle;
use crate::views::Key;
use crate::views::Pane;
use crate::views::text_view::TextCommand;

verus! {

/// The interpreter's mode.
#[derive(Debug, Clone, Copy, PartialEq, Eq, Structural)]
pub enum CommandViewModes {
    NormalMode,
    InsertMode,
    CommandLineMode,
}

/// What interpreting a key sequence produces: the mode and command-line
/// buffer afterwards, the keys kept for the next batch (a lone `g` at the
/// end of input), and the two command streams, in emission order.
pub struct InterpResult {
    pub mode: CommandViewModes,
    pub line: Seq<char>,
    pub keep: Seq<Key>,
    pub txt: Seq<TextCommand>,
    pub app: Seq<ApplicationCommand>,
}

/// `r` with the text commands `e` emitted before its own.
pub open spec fn emit_txt(r: InterpResult, e: Seq<TextCommand>) -> InterpResult {
    InterpResult { mode: r.mode, line: r.line, keep: r.keep, txt: e + r.txt, app: r.app }
}

/// `r` with the application commands `e` emitted before its own.
pub open spec fn emit_app(r: InterpResult, e: Seq<ApplicationCommand>) -> InterpResult {
    InterpResult { mode: r.mode, line: r.line, keep: r.keep, txt: r.txt, app: e + r.app }
}

/// What an accumulated command line asks of the application: `q` and
/// `q!` quit; anything else is unknown and asks nothing.
pub open spec fn parse_app(line: Seq<char>) -> Seq<ApplicationCommand> {
    if line == seq!['q'] {
        seq![ApplicationCommand::Quit(false)]
    } else if line == seq!['q', '!'] {
        seq![ApplicationCommand::Quit(true)]
    } else {
        Seq::empty()
    }
}

/// The modal interpreter over a key sequence, one key at a time.
///
/// Normal mode: `:` opens the command line and asks for focus; `h j k l`
/// move the cursor; `gg` jumps to the top, a lone trailing `g` is kept
/// for the next batch; `G` jumps to the bottom; `i` and `a` enter Insert
/// mode with a bar cursor, `a` stepping right first; `x` deletes; other
/// keys are discarded.  Insert mode: Escape returns to Normal mode with a
/// block cursor stepped left; printable characters are inserted;
/// Backspace deletes.  Command-line mode: characters accumulate; Enter
/// interprets them and returns focus and mode; Backspace shortens the
/// line, leaving it when already empty; Escape abandons it.
pub open spec fn interp(mode: CommandViewModes, line: Seq<char>, keys: Seq<Key>) -> InterpResult
    decreases keys.len(),
{
    if keys.len() == 0 {
        InterpResult { mode, line, keep: Seq::empty(), txt: Seq::empty(), app: Seq::empty() }
    } else {
        match mode {
            CommandViewModes::NormalMode => match keys[0] {
                Key::Char(ch) => {
                    if ch == ':' {
                        emit_app(
                            interp(
                                CommandViewModes::CommandLineMode,
                                Seq::empty(),
                                keys.drop_first(),
                            ),
                            seq![ApplicationCommand::FocusCommand],
                        )
                    } else if ch == 'h' {
                        emit_txt(
                            interp(mode, line, keys.drop_first()),
                            seq![TextCommand::CursorLeft(1)],
                        )
                    } else if ch == 'j' {
                        emit_txt(
                            interp(mode, line, keys.drop_first()),
                            seq![TextCommand::CursorDown(1)],
                        )
                    } else if ch == 'k' {
                        emit_txt(
                            interp(mode, line, keys.drop_first()),
                            seq![TextCommand::CursorUp(1)],
                        )
                    } else if ch == 'l' {
                        emit_txt(
                            interp(mode, line, keys.drop_first()),
                            seq![TextCommand::CursorRight(1)],
                        )
                    } else if ch == 'g' {
                        if keys.len() == 1 {
                            InterpResult {
                                mode,
                                line,
                                keep: keys,
                                txt: Seq::empty(),
                                app: Seq::empty(),
                            }
                        } else if keys[1] == Key::Char('g') {
                            emit_txt(interp(mode, line, keys.skip(2)), seq![TextCommand::JumpTop])
                        } else {
                            interp(mode, line, keys.drop_first())
                        }
                    } else if ch == 'G' {
                        emit_txt(interp(mode, line, keys.drop_first()), seq![TextCommand::JumpBottom])
                    } else if ch == 'i' {
                        emit_txt(
                            interp(CommandViewModes::InsertMode, line, keys.drop_first()),
                            seq![TextCommand::SetCursorStyle(CursorStyle::Bar)],
                        )
                    } else if ch == 'a' {
                        emit_txt(
                            interp(CommandViewModes::InsertMode, line, keys.drop_first()),
                            seq![
                                TextCommand::SetCursorStyle(CursorStyle::Bar),
                                TextCommand::CursorRight(1),
                            ],
                        )
                    } else if ch == 'x' {
                        emit_txt(interp(mode, line, keys.drop_first()), seq![TextCommand::Delete])
                    } else {
                        interp(mode, line, keys.drop_first())
                    }
                },
                _ => interp(mode, line, keys.drop_first()),
            },
            CommandViewModes::InsertMode => match keys[0] {
                Key::Esc => emit_txt(
                    interp(CommandViewModes::NormalMode, line, keys.drop_first()),
                    seq![
                        TextCommand::SetCursorStyle(CursorStyle::Block),
                        TextCommand::CursorLeft(1),
                    ],
                ),
                Key::Char(c) => emit_txt(
                    interp(mode, line, keys.drop_first()),
                    seq![TextCommand::Insert(c)],
                ),
                Key::Backspace => emit_txt(
                    interp(mode, line, keys.drop_first()),
                    seq![TextCommand::Delete],
                ),
                Key::Other => interp(mode, line, keys.drop_first()),
            },
            CommandViewModes::CommandLineMode => match keys[0] {
                Key::Char(c) => {
                    if c == '\n' {
                        emit_app(
                            interp(CommandViewModes::NormalMode, Seq::empty(), keys.drop_first()),
                            parse_app(line) + seq![ApplicationCommand::FocusText],
                        )
                    } else {
                        interp(mode, line.push(c), keys.drop_first())
                    }
                },
                Key::Backspace => {
                    if line.len() == 0 {
                        emit_app(
                            interp(CommandViewModes::NormalMode, line, keys.drop_first()),
                            seq![ApplicationCommand::FocusText],
                        )
                    } else {
                        interp(mode, line.drop_last(), keys.drop_first())
                    }
                },
                Key::Esc => emit_app(
                    interp(CommandViewModes::NormalMode, Seq::empty(), keys.drop_first()),
                    seq![ApplicationCommand::FocusText],
                ),
                Key::Other => interp(mode, line, keys.drop_first()),
            },
        }
    }
}

/// One interpreter step folds into the running totals: what a prefix of
/// the keys emitted so far, extended by one step's emissions, accounts
/// for the whole interpretation as far as the remaining keys.
proof fn lemma_step_glue(
    r_all: InterpResult,
    td0: Seq<TextCommand>,
    ad0: Seq<ApplicationCommand>,
    rr_old: InterpResult,
    rr_new: InterpResult,
    te: Seq<TextCommand>,
    ae: Seq<ApplicationCommand>,
)
    requires
        rr_old.mode == rr_new.mode,
        rr_old.line == rr_new.line,
        rr_old.keep == rr_new.keep,
        rr_old.txt == te + rr_new.txt,
        rr_old.app == ae + rr_new.app,
        r_all.mode == rr_old.mode,
        r_all.line == rr_old.line,
        r_all.keep == rr_old.keep,
        r_all.txt == td0 + rr_old.txt,
        r_all.app == ad0 + rr_old.app,
    ensures
        r_all.mode == rr_new.mode,
        r_all.line == rr_new.line,
        r_all.keep == rr_new.keep,
        r_all.txt == (td0 + te) + rr_new.txt,
        r_all.app == (ad0 + ae) + rr_new.app,
{
    assert(td0 + (te + rr_new.txt) =~= (td0 + te) + rr_new.txt);
    assert(ad0 + (ae + rr_new.app) =~= (ad0 + ae) + rr_new.app);
}

/// The Normal-mode banner.
pub open spec fn normal_text() -> Seq<char> {
    seq!['-', '-', ' ', 'N', 'o', 'r', 'm', 'a', 'l', ' ', '-', '-']
}

/// The Insert-mode banner.
pub open spec fn insert_text() -> Seq<char> {
    seq!['-', '-', ' ', 'I', 'n', 's', 'e', 'r', 't', ' ', '-', '-']
}

/// What the status row shows before padding: the mode banner, or the
/// command line behind a `':'`.
pub open spec fn status_base(mode: CommandViewModes, line: Seq<char>) -> Seq<char> {
    match mode {
        CommandViewModes::NormalMode => normal_text(),
        CommandViewModes::InsertMode => insert_text(),
        CommandViewModes::CommandLineMode => seq![':'] + line,
    }
}

/// The status grid: the base text padded or cut to the grid width on row
/// 0, blank rows below.
pub open spec fn status_render(
    mode: CommandViewModes,
    line: Seq<char>,
    rows: int,
    cols: int,
) -> Seq<char> {
    let base = status_base(mode, line);
    Seq::new(
        rows as nat,
        |r: int|
            Seq::new(
                cols as nat,
                |c: int|
                    if r == 0 && c < base.len() {
                        base[c]
                    } else {
                        ' '
                    },
            ),
    ).flatten()
}

/// Where the status cursor sits: after the text typed so far, held inside
/// the grid.
pub open spec fn status_cursor_col(mode: CommandViewModes, line: Seq<char>, cols: int) -> int {
    if mode == CommandViewModes::CommandLineMode {
        if 1 + line.len() < cols {
            1 + line.len() as int
        } else if cols >= 1 {
            cols - 1
        } else {
            0
        }
    } else {
        0
    }
}

/// The status pane and interpreter state.
pub struct CommandView {
    pub state: CommandViewModes,
    pub cmd: Vec<Key>,
    pub line: Vec<char>,
    pub txt_cmds: VecDeque<TextCommand>,
    pub app_cmds: VecDeque<ApplicationCommand>,
    pub cursor: Position,
    pub sz: Position,
    pub view: Vec<char>,
    pub updates: Vec<bool>,
}

impl CommandView {
    /// The pane invariant: the grid sized to fit and painted from the
    /// mode and command line, the cursor where the typing is, and at most
    /// a lone kept `g` pending.
    pub open spec fn wf(self) -> bool {
        &&& self.view@ == status_render(
            self.state,
            self.line@,
            self.sz.row as int,
            self.sz.col as int,
        )
        &&& self.view@.len() == self.sz.row * self.sz.col
        &&& self.updates@.len() == self.view@.len()
        &&& self.cursor.row == 0
        &&& self.cursor.col == status_cursor_col(self.state, self.line@, self.sz.col as int)
        &&& (self.cmd@ == Seq::<Key>::empty() || (self.cmd@ == seq![Key::Char('g')]
            && self.state == CommandViewModes::NormalMode))
    }

    /// A fresh pane: Normal mode, nothing pending, no size yet.
    pub fn new() -> (r: CommandView)
        ensures
            r.wf(),
            r.state == CommandViewModes::NormalMode,
            r.cmd@ == Seq::<Key>::empty(),
            r.line@ == Seq::<char>::empty(),
            r.txt_cmds@ == Seq::<TextCommand>::empty(),
            r.app_cmds@ == Seq::<ApplicationCommand>::empty(),
            r.sz == (Position { row: 0, col: 0 }),
    {
        let r = CommandView {
            state: CommandViewModes::NormalMode,
            cmd: Vec::<Key>::new(),
            line: Vec::<char>::new(),
            txt_cmds: VecDeque::<TextCommand>::new(),
            app_cmds: VecDeque::<ApplicationCommand>::new(),
            cursor: Position { row: 0, col: 0 },
            sz: Position { row: 0, col: 0 },
            view: Vec::<char>::new(),
            updates: Vec::<bool>::new(),
        };
        proof {
            assert(r.view@ =~= status_render(r.state, r.line@, 0, 0)) by {
                assert(Seq::new(0nat, |rr: int| Seq::new(0nat, |c: int| ' ')).flatten() =~= Seq::<
                    char,
                >::empty());
            }
        }
        r
    }

    /// Repaint the status row from the mode and command line, place the
    /// cursor, and mark every cell changed.
    fn refresh_view(&mut self)
        ensures
            final(self).state == old(self).state,
            final(self).cmd == old(self).cmd,
            final(self).line == old(self).line,
            final(self).txt_cmds == old(self).txt_cmds,
            final(self).app_cmds == old(self).app_cmds,
            final(self).sz == old(self).sz,
            final(self).view@ == status_render(
                old(self).state,
                old(self).line@,
                old(self).sz.row as int,
                old(self).sz.col as int,
            ),
            final(self).view@.len() == old(self).sz.row * old(self).sz.col,
            final(self).updates@ == Seq::new(final(self).view@.len(), |i: int| true),
            final(self).cursor.row == 0,
            final(self).cursor.col == status_cursor_col(
                old(self).state,
                old(self).line@,
                old(self).sz.col as int,
            ),
    {
        let rows = self.sz.row;
        let cols = self.sz.col;
        let ghost base = status_base(self.state, self.line@);
        let ghost rows_seq = Seq::new(
            rows as nat,
            |r: int|
                Seq::new(
                    cols as nat,
                    |c: int|
                        if r == 0 && c < base.len() {
                            base[c]
                        } else {
                            ' '
                        },
                ),
        );
        let mut new_view: Vec<char> = Vec::new();
        proof {
            assert(rows_seq.take(0) =~= Seq::<Seq<char>>::empty());
        }
        let mut r: usize = 0;
        while r < rows
            invariant
                self == old(self),
                rows == self.sz.row,
                cols == self.sz.col,
                base == status_base(self.state, self.line@),
                rows_seq == Seq::new(
                    rows as nat,
                    |rr: int|
                        Seq::new(
                            cols as nat,
                            |c: int|
                                if rr == 0 && c < base.len() {
                                    base[c]
                                } else {
                                    ' '
                                },
                        ),
                ),
                r <= rows,
                new_view@ == rows_seq.take(r as int).flatten(),
            decreases rows - r,
        {
            let mut row_v: Vec<char> = Vec::new();
            let mut c: usize = 0;
            while c < cols
                invariant
                    self == old(self),
                    cols == self.sz.col,
                    base == status_base(self.state, self.line@),
                    r < rows,
                    c <= cols,
                    row_v@ == Seq::new(
                        c as nat,
                        |cc: int|
                            if r == 0 && cc < base.len() {
                                base[cc]
                            } else {
                                ' '
                            },
                    ),
                decreases cols - c,
            {
                let cell: char = if r == 0 {
                    self.base_char(c)
                } else {
                    ' '
                };
                row_v.push(cell);
                proof {
                    assert(Seq::new(
                        (c + 1) as nat,
                        |cc: int|
                            if r == 0 && cc < base.len() {
                                base[cc]
                            } else {
                                ' '
                            },
                    ) =~= Seq::new(
                        c as nat,
                        |cc: int|
                            if r == 0 && cc < base.len() {
                                base[cc]
                            } else {
                                ' '
                            },
                    ).push(
                        if r == 0 && c < base.len() {
                            base[c as int]
                        } else {
                            ' '
                        },
                    ));
                }
                c = c + 1;
            }
            proof {
                assert(row_v@ =~= rows_seq[r as int]);
                assert(rows_seq.take(r + 1 as int) =~= rows_seq.take(r as int).push(
                    rows_seq[r as int],
                ));
                rows_seq.take(r as int).lemma_flatten_push(row_v@);
            }
            new_view.append(&mut row_v);
            r = r + 1;
        }
        proof {
            assert(rows_seq.take(rows as int) =~= rows_seq);
            assert forall|i: int| 0 <= i < rows_seq.len() implies #[trigger] rows_seq[i].len()
                == cols as int by {
                assert(rows_seq[i].len() == Seq::new(
                    cols as nat,
                    |c: int|
                        if i == 0 && c < base.len() {
                            base[c]
                        } else {
                            ' '
                        },
                ).len());
            }
            lemma_flatten_uniform(rows_seq, cols as int);
        }
        self.view = new_view;
        let n = self.view.len();
        let mut new_updates: Vec<bool> = Vec::new();
        let mut i: usize = 0;
        while i < n
            invariant
                i <= n,
                new_updates@ == Seq::new(i as nat, |k: int| true),
            decreases n - i,
        {
            new_updates.push(true);
            proof {
                assert(Seq::new((i + 1) as nat, |k: int| true) =~= Seq::new(
                    i as nat,
                    |k: int| true,
                ).push(true));
            }
            i = i + 1;
        }
        self.updates = new_updates;
        let cc = self.status_cursor();
        self.cursor = Position { row: 0, col: cc };
    }

    /// The character of the status base text at column `c`, a space past
    /// its end.
    fn base_char(&self, c: usize) -> (r: char)
        ensures
            r == if c < status_base(self.state, self.line@).len() {
                status_base(self.state, self.line@)[c as int]
            } else {
                ' '
            },
    {
        match self.state {
            CommandViewModes::NormalMode => {
                let banner = ['-', '-', ' ', 'N', 'o', 'r', 'm', 'a', 'l', ' ', '-', '-'];
                if c < 12 {
                    banner[c]
                } else {
                    ' '
                }
            },
            CommandViewModes::InsertMode => {
                let banner = ['-', '-', ' ', 'I', 'n', 's', 'e', 'r', 't', ' ', '-', '-'];
                if c < 12 {
                    banner[c]
                } else {
                    ' '
                }
            },
            CommandViewModes::CommandLineMode => {
                if c == 0 {
                    ':'
                } else if c - 1 < self.line.len() {
                    self.line[c - 1]
                } else {
                    ' '
                }
            },
        }
    }

    /// Where the status cursor belongs for the current mode and line.
    fn status_cursor(&self) -> (r: usize)
        ensures
            r == status_cursor_col(self.state, self.line@, self.sz.col as int),
    {
        match self.state {
            CommandViewModes::CommandLineMode => {
                let l = self.line.len();
                if l < usize::MAX && l + 1 < self.sz.col {
                    l + 1
                } else if self.sz.col >= 1 {
                    self.sz.col - 1
                } else {
                    0
                }
            },
            _ => 0,
        }
    }

    /// Interpret every pending key into the two command queues, keep only
    /// a lone trailing `g`, and repaint the status row.
    #[verifier::rlimit(100)]
    fn parse_commands(&mut self)
        ensures
            ({
                let r = interp(old(self).state, old(self).line@, old(self).cmd@);
                &&& final(self).wf()
                &&& final(self).state == r.mode
                &&& final(self).line@ == r.line
                &&& final(self).cmd@ == r.keep
                &&& final(self).txt_cmds@ == old(self).txt_cmds@ + r.txt
                &&& final(self).app_cmds@ == old(self).app_cmds@ + r.app
                &&& final(self).sz == old(self).sz
            }),
    {
        let ghost ks = self.cmd@;
        let ghost r_all = interp(self.state, self.line@, ks);
        let n = self.cmd.len();
        let mut i: usize = 0;
        let ghost mut txt_done: Seq<TextCommand> = Seq::empty();
        let ghost mut app_done: Seq<ApplicationCommand> = Seq::empty();
        let mut pending_g = false;
        proof {
            assert(ks.skip(0) =~= ks);
            assert(Seq::<TextCommand>::empty() + r_all.txt =~= r_all.txt);
            assert(Seq::<ApplicationCommand>::empty() + r_all.app =~= r_all.app);
            assert(old(self).txt_cmds@ + txt_done =~= old(self).txt_cmds@);
            assert(old(self).app_cmds@ + app_done =~= old(self).app_cmds@);
        }
        while i < n && !pending_g
            invariant
                n == ks.len(),
                self.cmd@ == ks,
                i <= n,
                self.sz == old(self).sz,
                self.view == old(self).view,
                self.updates == old(self).updates,
                self.cursor == old(self).cursor,
                self.txt_cmds@ == old(self).txt_cmds@ + txt_done,
                self.app_cmds@ == old(self).app_cmds@ + app_done,
                r_all == interp(old(self).state, old(self).line@, ks),
                ({
                    let rr = interp(self.state, self.line@, ks.skip(i as int));
                    &&& r_all.mode == rr.mode
                    &&& r_all.line == rr.line
                    &&& r_all.keep == rr.keep
                    &&& r_all.txt == txt_done + rr.txt
                    &&& r_all.app == app_done + rr.app
                }),
                pending_g ==> (self.state == CommandViewModes::NormalMode && i + 1 == n && ks[
                i as int] == Key::Char('g')),
            decreases n - i, (if pending_g { 0int } else { 1int }),
        {
            let ghost i0 = i as int;
            let ghost pre_st = self.state;
            let ghost pre_line = self.line@;
            let ghost td0 = txt_done;
            let ghost ad0 = app_done;
            let ghost tail = ks.skip(i0);
            proof {
                assert(tail[0] == ks[i0]);
                assert(tail.drop_first() =~= ks.skip(i0 + 1));
            }
            let k = self.cmd[i];
            match self.state {
                CommandViewModes::NormalMode => {
                    match k {
                        Key::Char(ch) => {
                            if ch == ':' {
                                self.app_cmds.push_back(ApplicationCommand::FocusCommand);
                                self.state = CommandViewModes::CommandLineMode;
                                self.line = Vec::new();
                                i = i + 1;
                                proof {
                                    let rr_old = interp(pre_st, pre_line, tail);
                                    let rr_new = interp(self.state, self.line@, ks.skip(i as int));
                                    assert(self.line@ =~= Seq::<char>::empty());
                                    assert(rr_old == emit_app(
                                        rr_new,
                                        seq![ApplicationCommand::FocusCommand],
                                    ));
                                    lemma_step_glue(
                                        r_all,
                                        td0,
                                        ad0,
                                        rr_old,
                                        rr_new,
                                        Seq::empty(),
                                        seq![ApplicationCommand::FocusCommand],
                                    );
                                    txt_done = td0 + Seq::<TextCommand>::empty();
                                    app_done = ad0 + seq![ApplicationCommand::FocusCommand];
                                    assert(txt_done =~= td0);
                                    assert(self.app_cmds@ =~= old(self).app_cmds@ + app_done);
                                }
                            } else if ch == 'h' || ch == 'j' || ch == 'k' || ch == 'l' {
                                let e = if ch == 'h' {
                                    TextCommand::CursorLeft(1)
                                } else if ch == 'j' {
                                    TextCommand::CursorDown(1)
                                } else if ch == 'k' {
                                    TextCommand::CursorUp(1)
                                } else {
                                    TextCommand::CursorRight(1)
                                };
                                self.txt_cmds.push_back(e);
                                i = i + 1;
                                proof {
                                    let rr_old = interp(pre_st, pre_line, tail);
                                    let rr_new = interp(self.state, self.line@, ks.skip(i as int));
                                    assert(rr_old == emit_txt(rr_new, seq![e]));
                                    lemma_step_glue(
                                        r_all,
                                        td0,
                                        ad0,
                                        rr_old,
                                        rr_new,
                                        seq![e],
                                        Seq::empty(),
                                    );
                                    txt_done = td0 + seq![e];
                                    app_done = ad0 + Seq::<ApplicationCommand>::empty();
                                    assert(app_done =~= ad0);
                                    assert(self.txt_cmds@ =~= old(self).txt_cmds@ + txt_done);
                                }
                            } else if ch == 'g' {
                                if i + 1 < n {
                                    let k2 = self.cmd[i + 1];
                                    if k2 == Key::Char('g') {
                                        self.txt_cmds.push_back(TextCommand::JumpTop);
                                        i = i + 2;
                                        proof {
                                            assert(tail[1] == ks[i0 + 1]);
                                            assert(tail.skip(2) =~= ks.skip(i0 + 2));
                                            let rr_old = interp(pre_st, pre_line, tail);
                                            let rr_new = interp(
                                                self.state,
                                                self.line@,
                                                ks.skip(i as int),
                                            );
                                            assert(rr_old == emit_txt(
                                                rr_new,
                                                seq![TextCommand::JumpTop],
                                            ));
                                            lemma_step_glue(
                                                r_all,
                                                td0,
                                                ad0,
                                                rr_old,
                                                rr_new,
                                                seq![TextCommand::JumpTop],
                                                Seq::empty(),
                                            );
                                            txt_done = td0 + seq![TextCommand::JumpTop];
                                            app_done = ad0 + Seq::<ApplicationCommand>::empty();
                                            assert(app_done =~= ad0);
                                            assert(self.txt_cmds@ =~= old(self).txt_cmds@
                                                + txt_done);
                                        }
                                    } else {
                                        i = i + 1;
                                        proof {
                                            assert(tail[1] == ks[i0 + 1]);
                                            let rr_old = interp(pre_st, pre_line, tail);
                                            let rr_new = interp(
                                                self.state,
                                                self.line@,
                                                ks.skip(i as int),
                                            );
                                            assert(rr_old == rr_new);
                                        }
                                    }
                                } else {
                                    pending_g = true;
                                }
                            } else if ch == 'G' {
                                self.txt_cmds.push_back(TextCommand::JumpBottom);
                                i = i + 1;
                                proof {
                                    let rr_old = interp(pre_st, pre_line, tail);
                                    let rr_new = interp(self.state, self.line@, ks.skip(i as int));
                                    assert(rr_old == emit_txt(rr_new, seq![TextCommand::JumpBottom]));
                                    lemma_step_glue(
                                        r_all,
                                        td0,
                                        ad0,
                                        rr_old,
                                        rr_new,
                                        seq![TextCommand::JumpBottom],
                                        Seq::empty(),
                                    );
                                    txt_done = td0 + seq![TextCommand::JumpBottom];
                                    app_done = ad0 + Seq::<ApplicationCommand>::empty();
                                    assert(app_done =~= ad0);
                                    assert(self.txt_cmds@ =~= old(self).txt_cmds@ + txt_done);
                                }
                            } else if ch == 'i' {
                                self.txt_cmds.push_back(
                                    TextCommand::SetCursorStyle(CursorStyle::Bar),
                                );
                                self.state = CommandViewModes::InsertMode;
                                i = i + 1;
                                proof {
                                    let rr_old = interp(pre_st, pre_line, tail);
                                    let rr_new = interp(self.state, self.line@, ks.skip(i as int));
                                    assert(rr_old == emit_txt(
                                        rr_new,
                                        seq![TextCommand::SetCursorStyle(CursorStyle::Bar)],
                                    ));
                                    lemma_step_glue(
                                        r_all,
                                        td0,
                                        ad0,
                                        rr_old,
                                        rr_new,
                                        seq![TextCommand::SetCursorStyle(CursorStyle::Bar)],
                                        Seq::empty(),
                                    );
                                    txt_done = td0 + seq![
                                        TextCommand::SetCursorStyle(CursorStyle::Bar),
                                    ];
                                    app_done = ad0 + Seq::<ApplicationCommand>::empty();
                                    assert(app_done =~= ad0);
                                    assert(self.txt_cmds@ =~= old(self).txt_cmds@ + txt_done);
                                }
                            } else if ch == 'a' {
                                self.txt_cmds.push_back(
                                    TextCommand::SetCursorStyle(CursorStyle::Bar),
                                );
                                self.txt_cmds.push_back(TextCommand::CursorRight(1));
                                self.state = CommandViewModes::InsertMode;
                                i = i + 1;
                                proof {
                                    let rr_old = interp(pre_st, pre_line, tail);
                                    let rr_new = interp(self.state, self.line@, ks.skip(i as int));
                                    assert(rr_old == emit_txt(
                                        rr_new,
                                        seq![
                                            TextCommand::SetCursorStyle(CursorStyle::Bar),
                                            TextCommand::CursorRight(1),
                                        ],
                                    ));
                                    lemma_step_glue(
                                        r_all,
                                        td0,
                                        ad0,
                                        rr_old,
                                        rr_new,
                                        seq![
                                            TextCommand::SetCursorStyle(CursorStyle::Bar),
                                            TextCommand::CursorRight(1),
                                        ],
                                        Seq::empty(),
                                    );
                                    txt_done = td0 + seq![
                                        TextCommand::SetCursorStyle(CursorStyle::Bar),
                                        TextCommand::CursorRight(1),
                                    ];
                                    app_done = ad0 + Seq::<ApplicationCommand>::empty();
                                    assert(app_done =~= ad0);
                                    assert(self.txt_cmds@ =~= old(self).txt_cmds@ + txt_done);
                                }
                            } else if ch == 'x' {
                                self.txt_cmds.push_back(TextCommand::Delete);
                                i = i + 1;
                                proof {
                                    let rr_old = interp(pre_st, pre_line, tail);
                                    let rr_new = interp(self.state, self.line@, ks.skip(i as int));
                                    assert(rr_old == emit_txt(rr_new, seq![TextCommand::Delete]));
                                    lemma_step_glue(
                                        r_all,
                                        td0,
                                        ad0,
                                        rr_old,
                                        rr_new,
                                        seq![TextCommand::Delete],
                                        Seq::empty(),
                                    );
                                    txt_done = td0 + seq![TextCommand::Delete];
                                    app_done = ad0 + Seq::<ApplicationCommand>::empty();
                                    assert(app_done =~= ad0);
                                    assert(self.txt_cmds@ =~= old(self).txt_cmds@ + txt_done);
                                }
                            } else {
                                i = i + 1;
                                proof {
                                    let rr_old = interp(pre_st, pre_line, tail);
                                    let rr_new = interp(self.state, self.line@, ks.skip(i as int));
                                    assert(rr_old == rr_new);
                                }
                            }
                        },
                        _ => {
                            i = i + 1;
                            proof {
                                let rr_old = interp(pre_st, pre_line, tail);
                                let rr_new = interp(self.state, self.line@, ks.skip(i as int));
                                assert(rr_old == rr_new);
                            }
                        },
                    }
                },
                CommandViewModes::InsertMode => {
                    match k {
                        Key::Esc => {
                            self.txt_cmds.push_back(TextCommand::SetCursorStyle(CursorStyle::Block));
                            self.txt_cmds.push_back(TextCommand::CursorLeft(1));
                            self.state = CommandViewModes::NormalMode;
                            i = i + 1;
                            proof {
                                let rr_old = interp(pre_st, pre_line, tail);
                                let rr_new = interp(self.state, self.line@, ks.skip(i as int));
                                assert(rr_old == emit_txt(
                                    rr_new,
                                    seq![
                                        TextCommand::SetCursorStyle(CursorStyle::Block),
                                        TextCommand::CursorLeft(1),
                                    ],
                                ));
                                lemma_step_glue(
                                    r_all,
                                    td0,
                                    ad0,
                                    rr_old,
                                    rr_new,
                                    seq![
                                        TextCommand::SetCursorStyle(CursorStyle::Block),
                                        TextCommand::CursorLeft(1),
                                    ],
                                    Seq::empty(),
                                );
                                txt_done = td0 + seq![
                                    TextCommand::SetCursorStyle(CursorStyle::Block),
                                    TextCommand::CursorLeft(1),
                                ];
                                app_done = ad0 + Seq::<ApplicationCommand>::empty();
                                assert(app_done =~= ad0);
                                assert(self.txt_cmds@ =~= old(self).txt_cmds@ + txt_done);
                            }
                        },
                        Key::Char(c) => {
                            self.txt_cmds.push_back(TextCommand::Insert(c));
                            i = i + 1;
                            proof {
                                let rr_old = interp(pre_st, pre_line, tail);
                                let rr_new = interp(self.state, self.line@, ks.skip(i as int));
                                assert(rr_old == emit_txt(rr_new, seq![TextCommand::Insert(c)]));
                                lemma_step_glue(
                                    r_all,
                                    td0,
                                    ad0,
                                    rr_old,
                                    rr_new,
                                    seq![TextCommand::Insert(c)],
                                    Seq::empty(),
                                );
                                txt_done = td0 + seq![TextCommand::Insert(c)];
                                app_done = ad0 + Seq::<ApplicationCommand>::empty();
                                assert(app_done =~= ad0);
                                assert(self.txt_cmds@ =~= old(self).txt_cmds@ + txt_done);
                            }
                        },
                        Key::Backspace => {
                            self.txt_cmds.push_back(TextCommand::Delete);
                            i = i + 1;
                            proof {
                                let rr_old = interp(pre_st, pre_line, tail);
                                let rr_new = interp(self.state, self.line@, ks.skip(i as int));
                                assert(rr_old == emit_txt(rr_new, seq![TextCommand::Delete]));
                                lemma_step_glue(
                                    r_all,
                                    td0,
                                    ad0,
                                    rr_old,
                                    rr_new,
                                    seq![TextCommand::Delete],
                                    Seq::empty(),
                                );
                                txt_done = td0 + seq![TextCommand::Delete];
                                app_done = ad0 + Seq::<ApplicationCommand>::empty();
                                assert(app_done =~= ad0);
                                assert(self.txt_cmds@ =~= old(self).txt_cmds@ + txt_done);
                            }
                        },
                        Key::Other => {
                            i = i + 1;
                            proof {
                                let rr_old = interp(pre_st, pre_line, tail);
                                let rr_new = interp(self.state, self.line@, ks.skip(i as int));
                                assert(rr_old == rr_new);
                            }
                        },
                    }
                },
                CommandViewModes::CommandLineMode => {
                    match k {
                        Key::Char(c) => {
                            if c == '\n' {
                                let is_q = self.line.len() == 1 && self.line[0] == 'q';
                                let is_qbang = self.line.len() == 2 && self.line[0] == 'q'
                                    && self.line[1] == '!';
                                let ghost pe = parse_app(pre_line);
                                proof {
                                    if is_q {
                                        assert(pre_line =~= seq!['q']);
                                    } else if is_qbang {
                                        assert(pre_line =~= seq!['q', '!']);
                                    } else {
                                        if pre_line == seq!['q'] {
                                            assert(pre_line.len() == 1 && pre_line[0] == 'q');
                                        }
                                        if pre_line == seq!['q', '!'] {
                                            assert(pre_line.len() == 2 && pre_line[0] == 'q'
                                                && pre_line[1] == '!');
                                        }
                                        assert(pe =~= Seq::<ApplicationCommand>::empty());
                                    }
                                }
                                if is_q {
                                    self.app_cmds.push_back(ApplicationCommand::Quit(false));
                                } else if is_qbang {
                                    self.app_cmds.push_back(ApplicationCommand::Quit(true));
                                }
                                self.app_cmds.push_back(ApplicationCommand::FocusText);
                                self.state = CommandViewModes::NormalMode;
                                self.line = Vec::new();
                                i = i + 1;
                                proof {
                                    let ae = pe + seq![ApplicationCommand::FocusText];
                                    let rr_old = interp(pre_st, pre_line, tail);
                                    let rr_new = interp(self.state, self.line@, ks.skip(i as int));
                                    assert(self.line@ =~= Seq::<char>::empty());
                                    assert(rr_old == emit_app(rr_new, ae));
                                    lemma_step_glue(
                                        r_all,
                                        td0,
                                        ad0,
                                        rr_old,
                                        rr_new,
                                        Seq::empty(),
                                        ae,
                                    );
                                    txt_done = td0 + Seq::<TextCommand>::empty();
                                    app_done = ad0 + ae;
                                    assert(txt_done =~= td0);
                                    assert(self.app_cmds@ =~= old(self).app_cmds@ + app_done);
                                }
                            } else {
                                self.line.push(c);
                                i = i + 1;
                                proof {
                                    let rr_old = interp(pre_st, pre_line, tail);
                                    let rr_new = interp(self.state, self.line@, ks.skip(i as int));
                                    assert(rr_old == rr_new);
                                }
                            }
                        },
                        Key::Backspace => {
                            if self.line.len() == 0 {
                                self.app_cmds.push_back(ApplicationCommand::FocusText);
                                self.state = CommandViewModes::NormalMode;
                                i = i + 1;
                                proof {
                                    let rr_old = interp(pre_st, pre_line, tail);
                                    let rr_new = interp(self.state, self.line@, ks.skip(i as int));
                                    assert(rr_old == emit_app(
                                        rr_new,
                                        seq![ApplicationCommand::FocusText],
                                    ));
                                    lemma_step_glue(
                                        r_all,
                                        td0,
                                        ad0,
                                        rr_old,
                                        rr_new,
                                        Seq::empty(),
                                        seq![ApplicationCommand::FocusText],
                                    );
                                    txt_done = td0 + Seq::<TextCommand>::empty();
                                    app_done = ad0 + seq![ApplicationCommand::FocusText];
                                    assert(txt_done =~= td0);
                                    assert(self.app_cmds@ =~= old(self).app_cmds@ + app_done);
                                }
                            } else {
                                self.line.pop();
                                i = i + 1;
                                proof {
                                    assert(self.line@ =~= pre_line.drop_last());
                                    let rr_old = interp(pre_st, pre_line, tail);
                                    let rr_new = interp(self.state, self.line@, ks.skip(i as int));
                                    assert(rr_old == rr_new);
                                }
                            }
                        },
                        Key::Esc => {
                            self.line = Vec::new();
                            self.app_cmds.push_back(ApplicationCommand::FocusText);
                            self.state = CommandViewModes::NormalMode;
                            i = i + 1;
                            proof {
                                let rr_old = interp(pre_st, pre_line, tail);
                                let rr_new = interp(self.state, self.line@, ks.skip(i as int));
                                assert(self.line@ =~= Seq::<char>::empty());
                                assert(rr_old == emit_app(
                                    rr_new,
                                    seq![ApplicationCommand::FocusText],
                                ));
                                lemma_step_glue(
                                    r_all,
                                    td0,
                                    ad0,
                                    rr_old,
                                    rr_new,
                                    Seq::empty(),
                                    seq![ApplicationCommand::FocusText],
                                );
                                txt_done = td0 + Seq::<TextCommand>::empty();
                                app_done = ad0 + seq![ApplicationCommand::FocusText];
                                assert(txt_done =~= td0);
                                assert(self.app_cmds@ =~= old(self).app_cmds@ + app_done);
                            }
                        },
                        Key::Other => {
                            i = i + 1;
                            proof {
                                let rr_old = interp(pre_st, pre_line, tail);
                                let rr_new = interp(self.state, self.line@, ks.skip(i as int));
                                assert(rr_old == rr_new);
                            }
                        },
                    }
                },
            }
        }
        if pending_g {
            let mut leftover: Vec<Key> = Vec::new();
            leftover.push(Key::Char('g'));
            self.cmd = leftover;
            proof {
                assert(ks.skip(ks.len() - 1) =~= seq![ks[ks.len() - 1]]);
                assert(self.cmd@ =~= ks.skip(i as int));
            }
        } else {
            self.cmd = Vec::new();
            proof {
                assert(ks.skip(n as int) =~= Seq::<Key>::empty());
                assert(self.cmd@ =~= Seq::<Key>::empty());
            }
        }
        proof {
            let rr = interp(self.state, self.line@, ks.skip(i as int));
            assert(r_all.txt =~= txt_done + rr.txt);
            assert(r_all.app =~= app_done + rr.app);
        }
        self.refresh_view();
    }

    /// Take a batch of keystrokes and interpret everything now pending.
    pub fn add_keystrokes(&mut self, keys: Vec<Key>)
        requires
            old(self).wf(),
        ensures
            ({
                let r = interp(old(self).state, old(self).line@, old(self).cmd@ + keys@);
                &&& final(self).wf()
                &&& final(self).state == r.mode
                &&& final(self).line@ == r.line
                &&& final(self).cmd@ == r.keep
                &&& final(self).txt_cmds@ == old(self).txt_cmds@ + r.txt
                &&& final(self).app_cmds@ == old(self).app_cmds@ + r.app
                &&& final(self).sz == old(self).sz
            }),
    {
        let mut incoming = keys;
        self.cmd.append(&mut incoming);
        self.parse_commands();
    }

    /// Whether a text command is waiting.
    pub fn has_text_command(&self) -> (r: bool)
        ensures
            r == (self.txt_cmds@.len() > 0),
    {
        self.txt_cmds.len() > 0
    }

    /// The oldest waiting text command, if any.
    pub fn get_text_command(&mut self) -> (r: Option<TextCommand>)
        ensures
            *final(self) == (CommandView { txt_cmds: final(self).txt_cmds, ..*old(self) }),
            match r {
                Some(cmd) => old(self).txt_cmds@.len() > 0 && cmd == old(self).txt_cmds@[0]
                    && final(self).txt_cmds@ == old(self).txt_cmds@.drop_first(),
                None => old(self).txt_cmds@.len() == 0 && final(self).txt_cmds@ == old(
                    self,
                ).txt_cmds@,
            },
    {
        let r = self.txt_cmds.pop_front();
        proof {
            if old(self).txt_cmds@.len() > 0 {
                assert(old(self).txt_cmds@.subrange(1, old(self).txt_cmds@.len() as int) =~= old(
                    self,
                ).txt_cmds@.drop_first());
            }
        }
        r
    }

    /// Whether an application command is waiting.
    pub fn has_app_command(&self) -> (r: bool)
        ensures
            r == (self.app_cmds@.len() > 0),
    {
        self.app_cmds.len() > 0
    }

    /// The oldest waiting application command, if any.
    pub fn get_app_command(&mut self) -> (r: Option<ApplicationCommand>)
        ensures
            *final(self) == (CommandView { app_cmds: final(self).app_cmds, ..*old(self) }),
            match r {
                Some(cmd) => old(self).app_cmds@.len() > 0 && cmd == old(self).app_cmds@[0]
                    && final(self).app_cmds@ == old(self).app_cmds@.drop_first(),
                None => old(self).app_cmds@.len() == 0 && final(self).app_cmds@ == old(
                    self,
                ).app_cmds@,
            },
    {
        let r = self.app_cmds.pop_front();
        proof {
            if old(self).app_cmds@.len() > 0 {
                assert(old(self).app_cmds@.subrange(1, old(self).app_cmds@.len() as int) =~= old(
                    self,
                ).app_cmds@.drop_first());
            }
        }
        r
    }

    /// Resize the pane and repaint the status row.
    pub fn set_size(&mut self, p: Position)
        requires
            old(self).cmd@ == Seq::<Key>::empty() || (old(self).cmd@ == seq![Key::Char('g')]
                && old(self).state == CommandViewModes::NormalMode),
        ensures
            final(self).wf(),
            final(self).sz == p,
            final(self).state == old(self).state,
            final(self).cmd == old(self).cmd,
            final(self).line == old(self).line,
            final(self).txt_cmds == old(self).txt_cmds,
            final(self).app_cmds == old(self).app_cmds,
    {
        self.sz = p;
        self.refresh_view();
    }

    /// The pane's grid size.
    pub fn get_size(&self) -> (r: Position)
        ensures
            r == self.sz,
    {
        self.sz
    }

    /// A copy of the pane's grid, row-major.
    pub fn get_view(&self) -> (r: Vec<char>)
        ensures
            r@ == self.view@,
    {
        let n = self.view.len();
        let mut r: Vec<char> = Vec::new();
        let mut i: usize = 0;
        while i < n
            invariant
                n == self.view@.len(),
                i <= n,
                r@ == self.view@.take(i as int),
            decreases n - i,
        {
            r.push(self.view[i]);
            proof {
                assert(self.view@.take(i + 1 as int) =~= self.view@.take(i as int).push(
                    self.view@[i as int],
                ));
            }
            i = i + 1;
        }
        proof {
            assert(self.view@.take(n as int) =~= self.view@);
        }
        r
    }

    /// The change flags since the last call, which clears them.
    pub fn get_updates(&mut self) -> (r: Vec<bool>)
        ensures
            r@ == old(self).updates@,
            final(self).updates@ == Seq::new(old(self).updates@.len(), |i: int| false),
            *final(self) == (CommandView { updates: final(self).updates, ..*old(self) }),
    {
        let n = self.updates.len();
        let mut r: Vec<bool> = Vec::new();
        let mut cleared: Vec<bool> = Vec::new();
        let mut i: usize = 0;
        while i < n
            invariant
                n == self.updates@.len(),
                i <= n,
                r@ == self.updates@.take(i as int),
                cleared@ == Seq::new(i as nat, |k: int| false),
            decreases n - i,
        {
            r.push(self.updates[i]);
            cleared.push(false);
            proof {
                assert(self.updates@.take(i + 1 as int) =~= self.updates@.take(i as int).push(
                    self.updates@[i as int],
                ));
                assert(Seq::new((i + 1) as nat, |k: int| false) =~= Seq::new(
                    i as nat,
                    |k: int| false,
                ).push(false));
            }
            i = i + 1;
        }
        proof {
            assert(self.updates@.take(n as int) =~= self.updates@);
        }
        self.updates = cleared;
        r
    }

    /// Where the status cursor sits, in grid cells.
    pub fn get_cursor_pos(&self) -> (r: Position)
        ensures
            r == self.cursor,
    {
        self.cursor
    }

    /// The status pane always shows a block cursor.
    pub fn get_cursor_style(&self) -> (r: CursorStyle)
        ensures
            r == CursorStyle::Block,
    {
        CursorStyle::Block
    }
}

impl Default for CommandView {
    /// The same pane `new` builds.
    fn default() -> (r: Self)
        ensures
            r.wf(),
            r.state == CommandViewModes::NormalMode,
            r.txt_cmds@ == Seq::<TextCommand>::empty(),
            r.app_cmds@ == Seq::<ApplicationCommand>::empty(),
    {
        CommandView::new()
    }
}

impl Pane for CommandView {
    open spec fn pane_wf(&self) -> bool {
        self.cmd@ == Seq::<Key>::empty() || (self.cmd@ == seq![Key::Char('g')] && self.state
            == CommandViewModes::NormalMode)
    }

    fn set_size(&mut self, p: Position) {
        CommandView::set_size(self, p)
    }

    fn get_size(&self) -> Position {
        CommandView::get_size(self)
    }

    fn get_view(&self) -> Vec<char> {
        CommandView::get_view(self)
    }

    fn get_updates(&mut self) -> Vec<bool> {
        CommandView::get_updates(self)
    }

    fn get_cursor_pos(&self) -> Position {
        CommandView::get_cursor_pos(self)
    }

    fn get_cursor_style(&self) -> CursorStyle {
        CommandView::get_cursor_style(self)
    }
}

} // verus!
