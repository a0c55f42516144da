use rvim::app::{AppState, ApplicationCommand};
use rvim::position::Position;
use rvim::views::command_view::{CommandView, CommandViewModes};
use rvim::views::text_view::{TextCommand, TextView};
use rvim::views::{CursorStyle, Key};

fn contents(tv: &TextView) -> String {
    (0..tv.text.len()).map(|i| tv.text.index(i)).collect::<String>()
}

fn feed(cv: &mut CommandView, tv: &mut TextView, app: &mut AppState, keys: Vec<Key>) {
    cv.add_keystrokes(keys);
    while let Some(cmd) = cv.get_app_command() {
        app.process_command(cmd);
    }
    while let Some(cmd) = cv.get_text_command() {
        assert!(tv.command_ok(cmd));
        tv.process_command(cmd);
    }
}

fn chars(s: &str) -> Vec<Key> {
    s.chars().map(Key::Char).collect()
}

#[test]
fn editing_session_end_to_end() {
    let mut tv = TextView::new("hello\nworld");
    tv.set_size(Position { row: 5, col: 20 });
    let mut cv = CommandView::new();
    cv.set_size(Position { row: 1, col: 20 });
    let mut app = AppState::new();

    feed(&mut cv, &mut tv, &mut app, chars("jl"));
    assert_eq!(tv.get_cursor_pos(), Position { row: 1, col: 6 });

    feed(&mut cv, &mut tv, &mut app, chars("i!"));
    assert_eq!(contents(&tv), "hello\nw!orld");
    assert_eq!(tv.get_cursor_pos(), Position { row: 1, col: 7 });
    assert_eq!(tv.get_cursor_style(), CursorStyle::Bar);

    feed(&mut cv, &mut tv, &mut app, vec![Key::Esc]);
    assert_eq!(tv.get_cursor_style(), CursorStyle::Block);
    assert_eq!(tv.get_cursor_pos(), Position { row: 1, col: 6 });

    cv.add_keystrokes(chars(":q!\n"));
    let mut app_cmds = Vec::new();
    while let Some(cmd) = cv.get_app_command() {
        app_cmds.push(cmd);
    }
    assert!(app_cmds.contains(&ApplicationCommand::Quit(true)));
    assert_eq!(
        app_cmds,
        vec![
            ApplicationCommand::FocusCommand,
            ApplicationCommand::Quit(true),
            ApplicationCommand::FocusText,
        ]
    );
}

#[test]
fn text_view_renders_gutter_and_text() {
    let mut tv = TextView::new("ab\ncdef");
    tv.set_size(Position { row: 3, col: 9 });
    let grid = tv.get_view();
    assert_eq!(grid.len(), 27);
    let row0: String = grid[0..9].iter().collect();
    let row1: String = grid[9..18].iter().collect();
    let row2: String = grid[18..27].iter().collect();
    assert_eq!(row0, "   1 ab  ");
    assert_eq!(row1, "   2 cdef");
    assert_eq!(row2, "         ");
}

#[test]
fn text_view_scrolls_down_and_back_up() {
    let mut tv = TextView::new("a\nb\nc\nd\ne");
    tv.set_size(Position { row: 2, col: 10 });
    for _ in 0..3 {
        assert!(tv.command_ok(TextCommand::CursorDown(1)));
        tv.process_command(TextCommand::CursorDown(1));
    }
    assert_eq!(tv.offset.row, 2);
    assert_eq!(tv.get_cursor_pos().row, 1);
    let grid = tv.get_view();
    let row0: String = grid[0..10].iter().collect();
    assert_eq!(row0, "   3 c    ");
    tv.process_command(TextCommand::JumpTop);
    assert_eq!(tv.offset.row, 0);
    assert_eq!(tv.get_cursor_pos().row, 0);
}

#[test]
fn cursor_right_clamps_to_line_end() {
    let mut tv = TextView::new("ab\nlonger line");
    tv.set_size(Position { row: 4, col: 30 });
    tv.process_command(TextCommand::CursorRight(10));
    // Block style: the cursor sits on the last of the two characters.
    assert_eq!(tv.get_cursor_pos(), Position { row: 0, col: 6 });
    tv.process_command(TextCommand::SetCursorStyle(CursorStyle::Bar));
    tv.process_command(TextCommand::CursorRight(10));
    // Bar style: the cursor may sit just past the last character.
    assert_eq!(tv.get_cursor_pos(), Position { row: 0, col: 7 });
}

#[test]
fn insert_newline_moves_to_next_row() {
    let mut tv = TextView::new("ab");
    tv.set_size(Position { row: 3, col: 10 });
    tv.process_command(TextCommand::SetCursorStyle(CursorStyle::Bar));
    tv.process_command(TextCommand::CursorRight(1));
    tv.process_command(TextCommand::Insert('\n'));
    assert_eq!(contents(&tv), "a\nb");
    assert_eq!(tv.get_cursor_pos(), Position { row: 1, col: 5 });
    assert_eq!(tv.text.lines(), 2);
}

#[test]
fn bar_delete_joins_lines() {
    let mut tv = TextView::new("ab\ncd");
    tv.set_size(Position { row: 3, col: 10 });
    tv.process_command(TextCommand::SetCursorStyle(CursorStyle::Bar));
    tv.process_command(TextCommand::CursorDown(1));
    // Cursor at the visual start of line 1; deleting removes the newline.
    assert!(tv.command_ok(TextCommand::Delete));
    tv.process_command(TextCommand::Delete);
    assert_eq!(contents(&tv), "abcd");
    assert_eq!(tv.text.lines(), 1);
    assert_eq!(tv.get_cursor_pos(), Position { row: 0, col: 7 });
}

#[test]
fn block_delete_removes_under_cursor() {
    let mut tv = TextView::new("xyz");
    tv.set_size(Position { row: 2, col: 10 });
    tv.process_command(TextCommand::CursorRight(1));
    tv.process_command(TextCommand::Delete);
    assert_eq!(contents(&tv), "xz");
}

#[test]
fn command_view_shows_mode_banner() {
    let mut cv = CommandView::new();
    cv.set_size(Position { row: 1, col: 20 });
    let row: String = cv.get_view().into_iter().collect();
    assert_eq!(row, "-- Normal --        ");
    cv.add_keystrokes(vec![Key::Char('i')]);
    let row: String = cv.get_view().into_iter().collect();
    assert_eq!(row, "-- Insert --        ");
    cv.add_keystrokes(vec![Key::Esc]);
    let row: String = cv.get_view().into_iter().collect();
    assert_eq!(row, "-- Normal --        ");
}

#[test]
fn command_line_echoes_and_backspaces() {
    let mut cv = CommandView::new();
    cv.set_size(Position { row: 1, col: 10 });
    cv.add_keystrokes(chars(":wq"));
    let row: String = cv.get_view().into_iter().collect();
    assert_eq!(row, ":wq       ");
    assert_eq!(cv.get_cursor_pos(), Position { row: 0, col: 3 });
    cv.add_keystrokes(vec![Key::Backspace]);
    let row: String = cv.get_view().into_iter().collect();
    assert_eq!(row, ":w        ");
    assert_eq!(cv.get_cursor_pos(), Position { row: 0, col: 2 });
    // Backspacing an empty command line returns to Normal mode.
    cv.add_keystrokes(vec![Key::Backspace, Key::Backspace]);
    assert_eq!(cv.state, CommandViewModes::NormalMode);
    assert_eq!(cv.get_app_command(), Some(ApplicationCommand::FocusCommand));
    assert_eq!(cv.get_app_command(), Some(ApplicationCommand::FocusText));
    assert_eq!(cv.get_app_command(), None);
}

#[test]
fn unknown_command_emits_no_quit() {
    let mut cv = CommandView::new();
    cv.set_size(Position { row: 1, col: 20 });
    cv.add_keystrokes(chars(":wq\n"));
    assert_eq!(cv.get_app_command(), Some(ApplicationCommand::FocusCommand));
    assert_eq!(cv.get_app_command(), Some(ApplicationCommand::FocusText));
    assert_eq!(cv.get_app_command(), None);
    assert_eq!(cv.state, CommandViewModes::NormalMode);
}

#[test]
fn plain_quit_is_not_forced() {
    let mut cv = CommandView::new();
    cv.set_size(Position { row: 1, col: 20 });
    cv.add_keystrokes(chars(":q\n"));
    assert_eq!(cv.get_app_command(), Some(ApplicationCommand::FocusCommand));
    assert_eq!(cv.get_app_command(), Some(ApplicationCommand::Quit(false)));
    assert_eq!(cv.get_app_command(), Some(ApplicationCommand::FocusText));
}

#[test]
fn double_g_jumps_to_top_across_batches() {
    let mut cv = CommandView::new();
    cv.set_size(Position { row: 1, col: 20 });
    cv.add_keystrokes(vec![Key::Char('g')]);
    assert_eq!(cv.get_text_command(), None);
    cv.add_keystrokes(vec![Key::Char('g')]);
    assert_eq!(cv.get_text_command(), Some(TextCommand::JumpTop));
    cv.add_keystrokes(vec![Key::Char('G')]);
    assert_eq!(cv.get_text_command(), Some(TextCommand::JumpBottom));
}

#[test]
fn movement_keys_emit_in_order() {
    let mut cv = CommandView::new();
    cv.set_size(Position { row: 1, col: 20 });
    cv.add_keystrokes(chars("hjklx"));
    assert_eq!(cv.get_text_command(), Some(TextCommand::CursorLeft(1)));
    assert_eq!(cv.get_text_command(), Some(TextCommand::CursorDown(1)));
    assert_eq!(cv.get_text_command(), Some(TextCommand::CursorUp(1)));
    assert_eq!(cv.get_text_command(), Some(TextCommand::CursorRight(1)));
    assert_eq!(cv.get_text_command(), Some(TextCommand::Delete));
    assert_eq!(cv.get_text_command(), None);
}

#[test]
fn append_key_steps_right_before_insert() {
    let mut cv = CommandView::new();
    cv.set_size(Position { row: 1, col: 20 });
    cv.add_keystrokes(vec![Key::Char('a'), Key::Char('z')]);
    assert_eq!(
        cv.get_text_command(),
        Some(TextCommand::SetCursorStyle(CursorStyle::Bar))
    );
    assert_eq!(cv.get_text_command(), Some(TextCommand::CursorRight(1)));
    assert_eq!(cv.get_text_command(), Some(TextCommand::Insert('z')));
}

#[test]
fn app_state_follows_commands() {
    let mut app = AppState::new();
    assert!(app.running);
    assert!(app.txt_focus);
    app.process_command(ApplicationCommand::FocusCommand);
    assert!(!app.txt_focus);
    app.process_command(ApplicationCommand::FocusText);
    assert!(app.txt_focus);
    app.process_command(ApplicationCommand::Quit(false));
    assert!(!app.running);
    let mut app2 = AppState::new();
    app2.process_command(ApplicationCommand::Quit(true));
    assert!(!app2.running);
}

#[test]
fn gutter_shows_four_digit_line_numbers() {
    let mut text = String::new();
    for _ in 0..1199 {
        text.push('\n');
    }
    text.push('x');
    // 1200 lines, the last holding one character.
    let mut tv = TextView::new(&text);
    tv.set_size(Position { row: 5, col: 8 });
    assert!(tv.command_ok(TextCommand::JumpBottom));
    tv.process_command(TextCommand::JumpBottom);
    assert_eq!(tv.offset.row, 1194);
    let grid = tv.get_view();
    let row0: String = grid[0..8].iter().collect();
    let row4: String = grid[32..40].iter().collect();
    assert_eq!(row0, "1195    ");
    // The bottom row shows line 1199, one above the last line.
    assert_eq!(row4, "1199    ");
}
