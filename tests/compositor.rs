use markdown_view::compositor::{blend_pixel, draw_rect, swap_red_blue, Canvas, Offset};

fn surface(w: i32, h: i32) -> Vec<u32> {
    vec![0u32; (w * h) as usize]
}

#[test]
fn swap_moves_blue_into_red_position() {
    assert_eq!(swap_red_blue(0xFF0000FF), 0xFFFF0000);
    assert_eq!(swap_red_blue(0x12345678), 0x12785634);
    assert_eq!(swap_red_blue(0x00000000), 0x00000000);
}

#[test]
fn opaque_fill_writes_swapped_colour() {
    let mut buf = surface(4, 3);
    draw_rect(&mut buf, Canvas { w: 4, h: 3 }, Canvas { w: 4, h: 3 }, Offset { x: 0, y: 0 }, 0xFF0000FF);
    assert!(buf.iter().all(|&p| p == 0xFFFF0000));
}

#[test]
fn opaque_fill_on_empty_surface_only_touches_rect() {
    let mut buf = surface(5, 4);
    draw_rect(&mut buf, Canvas { w: 5, h: 4 }, Canvas { w: 2, h: 2 }, Offset { x: 1, y: 1 }, 0xFF112233);
    for y in 0..4 {
        for x in 0..5 {
            let p = buf[y * 5 + x];
            if (1..3).contains(&x) && (1..3).contains(&y) {
                assert_eq!(p, 0xFF332211);
            } else {
                assert_eq!(p, 0);
            }
        }
    }
}

#[test]
fn transparent_colour_changes_nothing() {
    let mut buf: Vec<u32> = (0..12u32).map(|i| i * 0x01010101).collect();
    let before = buf.clone();
    draw_rect(&mut buf, Canvas { w: 4, h: 3 }, Canvas { w: 4, h: 3 }, Offset { x: 0, y: 0 }, 0x00FFFFFF);
    assert_eq!(buf, before);
}

#[test]
fn rect_with_negative_origin_is_clipped() {
    let mut buf = surface(3, 3);
    draw_rect(&mut buf, Canvas { w: 3, h: 3 }, Canvas { w: 3, h: 3 }, Offset { x: -2, y: -1 }, 0xFF000001);
    let expected = vec![0x00010000 | 0xFF000000, 0, 0, 0xFF010000, 0, 0, 0, 0, 0];
    assert_eq!(buf, expected);
}

#[test]
fn rect_past_far_edge_is_clipped() {
    let mut buf = surface(3, 2);
    draw_rect(&mut buf, Canvas { w: 3, h: 2 }, Canvas { w: 10, h: 10 }, Offset { x: 2, y: 1 }, 0xFF000000);
    assert_eq!(buf, vec![0, 0, 0, 0, 0, 0xFF000000]);
}

#[test]
fn rect_entirely_outside_writes_nothing() {
    let mut buf = surface(3, 2);
    draw_rect(&mut buf, Canvas { w: 3, h: 2 }, Canvas { w: 4, h: 4 }, Offset { x: 3, y: 0 }, 0xFFFFFFFF);
    draw_rect(&mut buf, Canvas { w: 3, h: 2 }, Canvas { w: 4, h: 4 }, Offset { x: -4, y: -4 }, 0xFFFFFFFF);
    draw_rect(&mut buf, Canvas { w: 3, h: 2 }, Canvas { w: -1, h: 4 }, Offset { x: 0, y: 0 }, 0xFFFFFFFF);
    assert_eq!(buf, vec![0; 6]);
}

#[test]
fn rect_near_integer_limits_is_clipped() {
    let mut buf = surface(2, 2);
    draw_rect(&mut buf, Canvas { w: 2, h: 2 }, Canvas { w: i32::MAX, h: i32::MAX }, Offset { x: i32::MIN, y: i32::MIN }, 0xFF000000);
    assert_eq!(buf, vec![0; 4]);
    draw_rect(&mut buf, Canvas { w: 2, h: 2 }, Canvas { w: i32::MAX, h: i32::MAX }, Offset { x: -10, y: -10 }, 0xFF000000);
    assert_eq!(buf, vec![0xFF000000; 4]);
    let mut buf = surface(2, 2);
    draw_rect(&mut buf, Canvas { w: 2, h: 2 }, Canvas { w: i32::MAX, h: i32::MAX }, Offset { x: 1, y: 1 }, 0xFF000000);
    assert_eq!(buf, vec![0, 0, 0, 0xFF000000]);
}

#[test]
fn empty_surface_takes_no_work() {
    let mut buf: Vec<u32> = Vec::new();
    draw_rect(&mut buf, Canvas { w: 0, h: 0 }, Canvas { w: 4, h: 4 }, Offset { x: 0, y: 0 }, 0xFFFFFFFF);
    assert!(buf.is_empty());
}

#[test]
fn partial_alpha_on_empty_pixel_overwrites() {
    let mut buf = surface(2, 1);
    draw_rect(&mut buf, Canvas { w: 2, h: 1 }, Canvas { w: 1, h: 1 }, Offset { x: 1, y: 0 }, 0x80405060);
    assert_eq!(buf, vec![0, 0x80605040]);
}

#[test]
fn half_alpha_over_opaque_mixes_channels() {
    let mut buf = vec![0xFF0000FFu32];
    draw_rect(&mut buf, Canvas { w: 1, h: 1 }, Canvas { w: 1, h: 1 }, Offset { x: 0, y: 0 }, 0x8000FF00);
    let p = buf[0];
    assert_eq!(p, 0xFE007F7E);
    // each colour byte lies between the two colours, give or take one
    let old = 0xFF0000FFu32;
    let src = 0x8000FF00u32;
    for k in 0..3 {
        let (d, s, r) = ((old >> (8 * k)) & 0xFF, (src >> (8 * k)) & 0xFF, (p >> (8 * k)) & 0xFF);
        assert!(r + 1 >= d.min(s) && r <= d.max(s));
    }
    assert_eq!(p >> 24, 0xFE);
}

#[test]
fn blend_formula_exact_value() {
    assert_eq!(blend_pixel(0xFF102030, 0x80605040), 0xFE373737);
    assert_eq!(blend_pixel(0xFF0000FF, 0x8000FF00), 0xFE007F7E);
}

#[test]
fn later_rects_draw_over_earlier_ones() {
    let mut buf = surface(2, 1);
    draw_rect(&mut buf, Canvas { w: 2, h: 1 }, Canvas { w: 2, h: 1 }, Offset { x: 0, y: 0 }, 0xFF0000FF);
    draw_rect(&mut buf, Canvas { w: 2, h: 1 }, Canvas { w: 1, h: 1 }, Offset { x: 0, y: 0 }, 0xFFFF0000);
    assert_eq!(buf, vec![0xFF0000FF, 0xFFFF0000]);
}
