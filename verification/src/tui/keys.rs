use vstd::prelude::*;

use super::explorer::{after_collapse, after_expand, after_move, after_reset, after_scroll, ExplorerState};

verus! {

/// A key pressed in the explorer.
#[derive(Debug, Clone, Copy, PartialEq, Eq, Structural)]
pub enum ExplorerKey {
    Char(char),
    Up,
    Down,
    Enter,
    Right,
    Left,
    Backspace,
    PageUp,
    PageDown,
    Other,
}

/// What the explorer does on a key.
#[derive(Debug, Clone, Copy, PartialEq, Eq, Structural)]
pub enum ExplorerAction {
    Quit,
    Move(isize),
    Expand,
    Collapse,
    Reset,
    ScrollCode(isize),
    Ignore,
}

/// The action of each key: `q` quits; up or `k` and down or `j` move the
/// selection; Enter, right or `l` expand; left, Backspace or `h` collapse or
/// go to the parent; `r` resets; Page Down or `]` and Page Up or `[` scroll
/// the code by ten lines (letters in either case).
pub open spec fn action_for(key: ExplorerKey) -> ExplorerAction {
    match key {
        ExplorerKey::Char(c) => if c == 'q' || c == 'Q' {
            ExplorerAction::Quit
        } else if c == 'k' || c == 'K' {
            ExplorerAction::Move(-1isize)
        } else if c == 'j' || c == 'J' {
            ExplorerAction::Move(1isize)
        } else if c == 'l' || c == 'L' {
            ExplorerAction::Expand
        } else if c == 'h' || c == 'H' {
            ExplorerAction::Collapse
        } else if c == 'r' || c == 'R' {
            ExplorerAction::Reset
        } else if c == ']' {
            ExplorerAction::ScrollCode(10isize)
        } else if c == '[' {
            ExplorerAction::ScrollCode(-10isize)
        } else {
            ExplorerAction::Ignore
        },
        ExplorerKey::Up => ExplorerAction::Move(-1isize),
        ExplorerKey::Down => ExplorerAction::Move(1isize),
        ExplorerKey::Enter => ExplorerAction::Expand,
        ExplorerKey::Right => ExplorerAction::Expand,
        ExplorerKey::Left => ExplorerAction::Collapse,
        ExplorerKey::Backspace => ExplorerAction::Collapse,
        ExplorerKey::PageDown => ExplorerAction::ScrollCode(10isize),
        ExplorerKey::PageUp => ExplorerAction::ScrollCode(-10isize),
        ExplorerKey::Other => ExplorerAction::Ignore,
    }
}

/// The action of a key (see `action_for`).
pub fn key_action(key: ExplorerKey) -> (r: ExplorerAction)
    ensures
        r == action_for(key),
{
    match key {
        ExplorerKey::Char(c) => if c == 'q' || c == 'Q' {
            ExplorerAction::Quit
        } else if c == 'k' || c == 'K' {
            ExplorerAction::Move(-1isize)
        } else if c == 'j' || c == 'J' {
            ExplorerAction::Move(1isize)
        } else if c == 'l' || c == 'L' {
            ExplorerAction::Expand
        } else if c == 'h' || c == 'H' {
            ExplorerAction::Collapse
        } else if c == 'r' || c == 'R' {
            ExplorerAction::Reset
        } else if c == ']' {
            ExplorerAction::ScrollCode(10isize)
        } else if c == '[' {
            ExplorerAction::ScrollCode(-10isize)
        } else {
            ExplorerAction::Ignore
        },
        ExplorerKey::Up => ExplorerAction::Move(-1isize),
        ExplorerKey::Down => ExplorerAction::Move(1isize),
        ExplorerKey::Enter => ExplorerAction::Expand,
        ExplorerKey::Right => ExplorerAction::Expand,
        ExplorerKey::Left => ExplorerAction::Collapse,
        ExplorerKey::Backspace => ExplorerAction::Collapse,
        ExplorerKey::PageDown => ExplorerAction::ScrollCode(10isize),
        ExplorerKey::PageUp => ExplorerAction::ScrollCode(-10isize),
        ExplorerKey::Other => ExplorerAction::Ignore,
    }
}

/// Carries out `action` on the explorer (code scrolling as if one line
/// fits); false when the action is to quit.
pub fn apply_action(state: &mut ExplorerState, action: ExplorerAction) -> (r: bool)
    ensures
        r == !(action is Quit),
        match action {
            ExplorerAction::Move(d) => final(state)@ == after_move(old(state)@, d as int),
            ExplorerAction::Expand => final(state)@ == after_expand(old(state)@),
            ExplorerAction::Collapse => final(state)@ == after_collapse(old(state)@),
            ExplorerAction::Reset => final(state)@ == after_reset(old(state)@),
            ExplorerAction::ScrollCode(d) => final(state)@ == after_scroll(old(state)@, d as int, 1),
            _ => *final(state) == *old(state),
        },
{
    match action {
        ExplorerAction::Quit => false,
        ExplorerAction::Move(d) => {
            state.move_selection(d);
            true
        },
        ExplorerAction::Expand => {
            state.expand_selected();
            true
        },
        ExplorerAction::Collapse => {
            state.collapse_or_parent();
            true
        },
        ExplorerAction::Reset => {
            state.reset();
            true
        },
        ExplorerAction::ScrollCode(d) => {
            state.scroll_code(d, 1);
            true
        },
        ExplorerAction::Ignore => true,
    }
}

} // verus!
