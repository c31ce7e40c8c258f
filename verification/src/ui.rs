//! The decisions of the interactive terminal interface: what each key does to the
//! text being typed and to the scrolling of the log, and whether to quit or to run
//! the encryption pipeline. Reading keys and drawing stay with the caller.
use vstd::prelude::*;
use crate::primitives::{string_push, string_pop};

verus! {

/// A key as the interface tells them apart.
pub enum KeyInput {
    Esc,
    Enter,
    Char(char),
    Backspace,
    Up,
    Down,
    Other,
}

/// What the caller does after a key.
#[derive(PartialEq, Eq, Structural, Debug, Clone, Copy)]
pub enum UiAction {
    Quit,
    RunPipeline,
    Continue,
}

/// The state the keys act on: the text typed so far, the number of steps in the log,
/// and how far the log is scrolled.
pub struct UiState {
    pub input_buffer: String,
    pub n_steps: usize,
    pub logs_scroll: usize,
}

/// Handles one key: Esc quits, Enter runs the pipeline, a character is appended to the
/// text and Backspace removes its last character, Up scrolls the log back by one line
/// (not before the start) and Down forward by one (only with a non-empty log, and at
/// most to line 100). Nothing else changes.
pub fn ui_step(state: &mut UiState, key: KeyInput) -> (act: UiAction)
    ensures
        key == KeyInput::Esc ==> act == UiAction::Quit && *final(state) == *old(state),
        key == KeyInput::Enter ==> act == UiAction::RunPipeline && *final(state) == *old(state),
        key != KeyInput::Esc && key != KeyInput::Enter ==> act == UiAction::Continue,
        final(state).n_steps == old(state).n_steps,
        key matches KeyInput::Char(c) ==> final(state).input_buffer@ == old(state).input_buffer@.push(c),
        key == KeyInput::Backspace ==> final(state).input_buffer@ == (if old(state).input_buffer@.len() > 0 {
            old(state).input_buffer@.drop_last()
        } else {
            old(state).input_buffer@
        }),
        !(key is Char) && key != KeyInput::Backspace ==> final(state).input_buffer@ == old(
            state,
        ).input_buffer@,
        key == KeyInput::Up ==> final(state).logs_scroll == (if old(state).logs_scroll > 0 {
            old(state).logs_scroll - 1
        } else {
            old(state).logs_scroll as int
        }),
        key == KeyInput::Down ==> final(state).logs_scroll == (if old(state).n_steps > 0 && old(state).logs_scroll
            < 100 {
            old(state).logs_scroll + 1
        } else {
            old(state).logs_scroll as int
        }),
        key != KeyInput::Up && key != KeyInput::Down ==> final(state).logs_scroll == old(state).logs_scroll,
        old(state).logs_scroll <= 100 ==> final(state).logs_scroll <= 100,
{
    match key {
        KeyInput::Esc => UiAction::Quit,
        KeyInput::Enter => UiAction::RunPipeline,
        KeyInput::Char(c) => {
            string_push(&mut state.input_buffer, c);
            UiAction::Continue
        },
        KeyInput::Backspace => {
            let _ = string_pop(&mut state.input_buffer);
            UiAction::Continue
        },
        KeyInput::Up => {
            if state.logs_scroll > 0 {
                state.logs_scroll = state.logs_scroll - 1;
            }
            UiAction::Continue
        },
        KeyInput::Down => {
            // no scrolling past line 100, and none on an empty log
            if state.n_steps > 0 && state.logs_scroll < 100 {
                state.logs_scroll = state.logs_scroll + 1;
            }
            UiAction::Continue
        },
        KeyInput::Other => UiAction::Continue,
    }
}

} // verus!
