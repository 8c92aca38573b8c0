use microbit_animator::document::{DocError, State};
use microbit_animator::frame::Frame;

const SEC: u64 = 1_000_000_000;

fn numbered(k: u8) -> Frame {
    Frame::with_values([k; 25])
}

fn doc_of(n: u8) -> State {
    let mut s = State::new();
    let mut text = String::new();
    for k in 0..n {
        text.push_str(&format!(".byte {}\n", vec![k.to_string(); 25].join(",")));
    }
    s.load_text("a.txt".to_string(), text.as_bytes()).unwrap();
    s
}

#[test]
fn new_document_has_five_lit_frames() {
    let s = State::new();
    assert_eq!(s.frame_count(), 5);
    assert_eq!(s.selected(), 0);
    assert_eq!(s.fps(), 3);
    assert!(!s.is_running());
    assert!(s.bound_path().is_none());
    for i in 0..5 {
        assert_eq!(s.frame(i), Frame::new());
    }
}

#[test]
fn save_without_path_is_refused() {
    let s = State::new();
    assert_eq!(s.save(), Err(DocError::NoBoundPath));
}

#[test]
fn save_as_binds_and_encodes() {
    let mut s = State::new();
    let bytes = s.save_as("out.txt".to_string());
    assert_eq!(s.bound_path().as_deref(), Some("out.txt"));
    let text = String::from_utf8(bytes.clone()).unwrap();
    assert_eq!(text.lines().count(), 10);
    assert!(text.ends_with(".byte 0\n"));
    assert_eq!(s.save(), Ok(bytes));
}

#[test]
fn load_then_save_round_trip() {
    let mut s = doc_of(3);
    s.set_frame(1, numbered(200));
    let bytes = s.save().unwrap();
    let mut t = State::new();
    t.load_text("b.txt".to_string(), &bytes).unwrap();
    assert_eq!(t.frame_count(), 3);
    assert_eq!(t.frame(0), numbered(0));
    assert_eq!(t.frame(1), numbered(200));
    assert_eq!(t.frame(2), numbered(2));
}

#[test]
fn load_of_empty_text_keeps_frames_and_binds_path() {
    let mut s = State::new();
    s.set_frame(0, numbered(1));
    assert_eq!(s.load_text("e.txt".to_string(), b".byte 0\n"), Err(DocError::EmptyResultAfterLoad));
    assert_eq!(s.frame_count(), 5);
    assert_eq!(s.frame(0), numbered(1));
    assert_eq!(s.bound_path().as_deref(), Some("e.txt"));
}

#[test]
fn load_clamps_selection() {
    let mut s = State::new();
    assert!(s.select(4));
    s.load_text("x".to_string(), b".byte 1\n.byte 0\n.byte 2,3\n").unwrap();
    assert_eq!(s.frame_count(), 1);
    assert_eq!(s.selected(), 0);
}

#[test]
fn remove_on_single_frame_is_refused() {
    let mut s = doc_of(1);
    assert_eq!(s.remove(0), Err(DocError::LastFrame));
    assert_eq!(s.frame_count(), 1);
    assert_eq!(s.frame(0), numbered(0));
}

#[test]
fn remove_reclamps_selection() {
    let mut s = doc_of(3);
    assert_eq!(s.remove(2), Ok(()));
    assert_eq!(s.frame_count(), 2);
    assert_eq!(s.selected(), 1);
    assert_eq!(s.remove(0), Ok(()));
    assert_eq!(s.selected(), 0);
    assert_eq!(s.frame(0), numbered(1));
}

#[test]
fn insert_after_duplicates_and_selects_copy() {
    let mut s = doc_of(2);
    s.insert_after(0);
    assert_eq!(s.frame_count(), 3);
    assert_eq!(s.selected(), 1);
    assert_eq!(s.frame(0), numbered(0));
    assert_eq!(s.frame(1), numbered(0));
    assert_eq!(s.frame(2), numbered(1));
}

#[test]
fn swap_moves_selection_with_frame() {
    let mut s = doc_of(3);
    s.select(0);
    s.swap(0, 2);
    assert_eq!(s.frame(0), numbered(2));
    assert_eq!(s.frame(2), numbered(0));
    assert_eq!(s.selected(), 2);
    s.select(1);
    s.swap(0, 2);
    assert_eq!(s.selected(), 1);
}

#[test]
fn move_up_and_down_respect_bounds() {
    let mut s = doc_of(3);
    s.move_up(0);
    assert_eq!(s.frame(0), numbered(0));
    s.move_down(2);
    assert_eq!(s.frame(2), numbered(2));
    s.select(1);
    s.move_up(1);
    assert_eq!(s.frame(0), numbered(1));
    assert_eq!(s.selected(), 0);
    s.move_down(0);
    assert_eq!(s.frame(1), numbered(1));
    assert_eq!(s.selected(), 1);
}

#[test]
fn set_fps_is_held_in_range() {
    let mut s = State::new();
    s.set_fps(0);
    assert_eq!(s.fps(), 1);
    s.set_fps(200);
    assert_eq!(s.fps(), 15);
    s.set_fps(7);
    assert_eq!(s.fps(), 7);
}

#[test]
fn tick_while_stopped_does_nothing() {
    let mut s = doc_of(5);
    assert_eq!(s.tick(10 * SEC), None);
    assert_eq!(s.selected(), 0);
}

#[test]
fn ticks_at_quarter_second_cadence_at_five_fps() {
    let mut s = doc_of(5);
    s.set_fps(5);
    s.start(0);
    let mut steps = 0;
    for k in 1..=4u64 {
        let before = s.selected();
        let r = s.tick(k * SEC / 4);
        assert_eq!(r, Some((before + 1) % 5));
        steps += 1;
    }
    assert_eq!(steps, 4);
    assert_eq!(s.selected(), 4);
    assert_eq!(s.tick(SEC + SEC / 10), None);
    assert_eq!(s.tick(SEC + SEC / 5), Some(0));
}

#[test]
fn long_delay_advances_one_step_only() {
    let mut s = doc_of(5);
    s.set_fps(5);
    s.start(0);
    assert_eq!(s.tick(3 * SEC), Some(1));
    assert_eq!(s.selected(), 1);
    assert_eq!(s.tick(3 * SEC), None);
}

#[test]
fn tick_interval_is_exact_at_three_fps() {
    let mut s = doc_of(2);
    s.start(100);
    assert_eq!(s.tick(100 + 333_333_333), None);
    assert_eq!(s.tick(100 + 333_333_334), Some(1));
    s.stop();
    assert_eq!(s.tick(100 + 10 * SEC), None);
    assert_eq!(s.selected(), 1);
}

#[test]
fn clock_going_back_counts_as_no_time() {
    let mut s = doc_of(2);
    s.start(5 * SEC);
    assert_eq!(s.tick(0), None);
}
