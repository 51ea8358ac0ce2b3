use markdown_view::compositor::{Canvas, Offset};
use markdown_view::surface::{allocatable_size, composite, Coverage, State};
use markdown_view::Message;

fn glyph() -> Vec<Coverage> {
    vec![
        Coverage { origin: Offset { x: 2, y: 4 }, size: Canvas { w: 6, h: 10 }, color: 0xFFFFFFFF },
        Coverage { origin: Offset { x: 3, y: 5 }, size: Canvas { w: 1, h: 1 }, color: 0x800000FF },
    ]
}

#[test]
fn first_pass_composites_and_second_reuses() {
    let viewport = Canvas { w: 64, h: 20 };
    let mut state = State::new();
    assert!(state.needs_redraw(viewport, false));
    let n = state.render_or_reuse(viewport, true, &glyph());
    assert!(n >= 1);
    let first = state.handle().unwrap().to_bytes();
    assert_eq!(first.len(), 64 * 20 * 4);
    assert!(!state.needs_redraw(viewport, false));
    let n = state.render_or_reuse(viewport, false, &glyph());
    assert_eq!(n, 0);
    assert_eq!(state.handle().unwrap().to_bytes(), first);
}

#[test]
fn reuse_keeps_surface_even_with_other_rects() {
    let viewport = Canvas { w: 8, h: 8 };
    let mut state = State::new();
    state.render_or_reuse(viewport, false, &glyph());
    let before = state.handle().unwrap().pixels.clone();
    let n = state.render_or_reuse(viewport, false, &Vec::new());
    assert_eq!(n, 0);
    assert_eq!(state.handle().unwrap().pixels, before);
}

#[test]
fn redraw_or_new_size_composites_again() {
    let mut state = State::new();
    state.render_or_reuse(Canvas { w: 8, h: 8 }, false, &glyph());
    assert!(state.needs_redraw(Canvas { w: 8, h: 8 }, true));
    assert_eq!(state.render_or_reuse(Canvas { w: 8, h: 8 }, true, &Vec::new()), 0);
    assert!(state.handle().unwrap().pixels.iter().all(|&p| p == 0));
    assert!(state.needs_redraw(Canvas { w: 9, h: 8 }, false));
    assert_eq!(state.render_or_reuse(Canvas { w: 9, h: 8 }, false, &glyph()), 2);
    let s = state.handle().unwrap();
    assert_eq!(s.size, Canvas { w: 9, h: 8 });
    assert_eq!(s.pixels.len(), 72);
}

#[test]
fn composite_draws_in_order() {
    let s = composite(Canvas { w: 8, h: 8 }, &glyph());
    assert_eq!(s.pixels[4 * 8 + 2], 0xFFFFFFFF);
    // the half-transparent blue mixed over white
    assert_eq!(s.pixels[5 * 8 + 3], 0xFEFE7E7E);
    assert_eq!(s.pixels[0], 0);
}

#[test]
fn bytes_are_rgba() {
    let s = composite(Canvas { w: 1, h: 1 }, &vec![Coverage { origin: Offset { x: 0, y: 0 }, size: Canvas { w: 1, h: 1 }, color: 0xFF112233 }]);
    assert_eq!(s.pixels, vec![0xFF332211]);
    assert_eq!(s.to_bytes(), vec![0x11, 0x22, 0x33, 0xFF]);
}

#[test]
fn zero_viewport_gives_empty_surface() {
    let mut state = State::new();
    assert_eq!(state.render_or_reuse(Canvas { w: 0, h: 20 }, true, &glyph()), 2);
    let s = state.handle().unwrap();
    assert!(s.pixels.is_empty());
    assert!(s.to_bytes().is_empty());
}

#[test]
fn clipboard_message_carries_text() {
    let m = Message::Clipboard(String::from("a"));
    match m {
        Message::Clipboard(t) => assert_eq!(t, "a"),
    }
}

#[test]
fn allocatable_sizes() {
    assert!(allocatable_size(Canvas { w: 64, h: 20 }));
    assert!(allocatable_size(Canvas { w: 0, h: 0 }));
    assert!(!allocatable_size(Canvas { w: -1, h: 20 }));
    assert!(!allocatable_size(Canvas { w: 20, h: -5 }));
}
