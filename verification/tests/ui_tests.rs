use kibeurre::ntt::reverse_bits_u8;
use kibeurre::ui::{ui_step, KeyInput, UiAction, UiState};

fn state(text: &str, n_steps: usize, logs_scroll: usize) -> UiState {
    UiState { input_buffer: text.to_string(), n_steps, logs_scroll }
}

#[test]
fn keys_edit_the_text() {
    let mut s = state("ab", 0, 0);
    assert_eq!(ui_step(&mut s, KeyInput::Char('é')), UiAction::Continue);
    assert_eq!(s.input_buffer, "abé");
    assert_eq!(ui_step(&mut s, KeyInput::Backspace), UiAction::Continue);
    assert_eq!(s.input_buffer, "ab");
    let mut e = state("", 0, 0);
    assert_eq!(ui_step(&mut e, KeyInput::Backspace), UiAction::Continue);
    assert_eq!(e.input_buffer, "");
}

#[test]
fn keys_scroll_the_log_within_bounds() {
    let mut s = state("x", 3, 0);
    ui_step(&mut s, KeyInput::Up);
    assert_eq!(s.logs_scroll, 0);
    ui_step(&mut s, KeyInput::Down);
    assert_eq!(s.logs_scroll, 1);
    let mut top = state("x", 3, 100);
    ui_step(&mut top, KeyInput::Down);
    assert_eq!(top.logs_scroll, 100);
    let mut empty = state("x", 0, 5);
    ui_step(&mut empty, KeyInput::Down);
    assert_eq!(empty.logs_scroll, 5);
    ui_step(&mut empty, KeyInput::Up);
    assert_eq!(empty.logs_scroll, 4);
}

#[test]
fn esc_quits_and_enter_runs() {
    let mut s = state("hello", 2, 7);
    assert_eq!(ui_step(&mut s, KeyInput::Enter), UiAction::RunPipeline);
    assert_eq!(ui_step(&mut s, KeyInput::Other), UiAction::Continue);
    assert_eq!(ui_step(&mut s, KeyInput::Esc), UiAction::Quit);
    assert_eq!((s.input_buffer.as_str(), s.n_steps, s.logs_scroll), ("hello", 2, 7));
}

#[test]
fn reverse_bits_matches_std() {
    for x in 0..=255u8 {
        assert_eq!(reverse_bits_u8(x), x.reverse_bits());
    }
}
