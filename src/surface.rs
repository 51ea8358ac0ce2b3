//! The composited surface of one view and the single-slot cache that keeps it.
use vstd::prelude::*;

use crate::compositor::{channel, draw_rect, drawn, fits, Canvas, Offset};

verus! {

/// One coloured rectangle that the text engine asks to be drawn: its
/// position, its size and its colour in the engine's `0xAARRGGBB` order.
#[derive(Clone, Copy, Debug, PartialEq, Eq, Structural)]
pub struct Coverage {
    pub origin: Offset,
    pub size: Canvas,
    pub color: u32,
}

/// A row-major surface of packed `0xAABBGGRR` pixels.
pub struct Surface {
    pub size: Canvas,
    pub pixels: Vec<u32>,
}

impl Surface {
    pub open spec fn wf(&self) -> bool {
        fits(self.size, self.pixels@.len() as int)
    }
}

/// A surface of `canvas` size can be allocated, with four bytes per pixel.
pub open spec fn allocatable(canvas: Canvas) -> bool {
    canvas.w >= 0 && canvas.h >= 0 && canvas.w * canvas.h * 4 <= usize::MAX
}

/// Whether a surface of `canvas` size can be allocated.
pub fn allocatable_size(canvas: Canvas) -> (r: bool)
    ensures
        r == allocatable(canvas),
{
    if canvas.w < 0 || canvas.h < 0 {
        return false;
    }
    let w = canvas.w as u128;
    let h = canvas.h as u128;
    assert(w * h * 4 <= 0x1_0000_0000_0000_0000) by (nonlinear_arith)
        requires
            w <= 0x8000_0000,
            h <= 0x8000_0000,
    ;
    w * h * 4 <= usize::MAX as u128
}

/// The pixels of a surface of `canvas` size that starts out transparent and
/// gets `rects` drawn on it in order.
pub open spec fn composite_spec(canvas: Canvas, rects: Seq<Coverage>) -> Seq<u32>
    decreases rects.len(),
{
    if rects.len() == 0 {
        Seq::new((canvas.w * canvas.h) as nat, |i: int| 0u32)
    } else {
        let r = rects.last();
        drawn(composite_spec(canvas, rects.drop_last()), canvas, r.size, r.origin, r.color)
    }
}

proof fn lemma_composite_len(canvas: Canvas, rects: Seq<Coverage>)
    requires
        canvas.w >= 0,
        canvas.h >= 0,
    ensures
        composite_spec(canvas, rects).len() == canvas.w * canvas.h,
    decreases rects.len(),
{
    assert(canvas.w * canvas.h >= 0) by (nonlinear_arith)
        requires
            canvas.w >= 0,
            canvas.h >= 0,
    ;
    if rects.len() > 0 {
        lemma_composite_len(canvas, rects.drop_last());
    }
}

/// Draws `rects`, in order, onto a fresh transparent surface of `canvas` size.
pub fn composite(canvas: Canvas, rects: &Vec<Coverage>) -> (s: Surface)
    requires
        allocatable(canvas),
    ensures
        s.wf(),
        s.size == canvas,
        s.pixels@ == composite_spec(canvas, rects@),
{
    let n = (canvas.w as usize) * (canvas.h as usize);
    let mut pixels: Vec<u32> = Vec::new();
    let mut i: usize = 0;
    while i < n
        invariant
            i <= n,
            pixels@ == Seq::new(i as nat, |j: int| 0u32),
        decreases n - i,
    {
        pixels.push(0);
        i = i + 1;
    }
    assert(pixels@ =~= composite_spec(canvas, rects@.take(0)));
    let mut k: usize = 0;
    while k < rects.len()
        invariant
            k <= rects@.len(),
            allocatable(canvas),
            n == canvas.w * canvas.h,
            pixels@ == composite_spec(canvas, rects@.take(k as int)),
        decreases rects@.len() - k,
    {
        let r = rects[k];
        proof {
            lemma_composite_len(canvas, rects@.take(k as int));
            assert(rects@.take(k as int + 1).drop_last() =~= rects@.take(k as int));
        }
        draw_rect(&mut pixels, canvas, r.size, r.origin, r.color);
        k = k + 1;
    }
    assert(rects@.take(rects@.len() as int) =~= rects@);
    proof {
        lemma_composite_len(canvas, rects@);
    }
    Surface { size: canvas, pixels }
}

impl Surface {
    /// The surface as bytes, four per pixel, red first: the layout of an
    /// RGBA image.
    pub fn to_bytes(&self) -> (r: Vec<u8>)
        requires
            self.pixels@.len() * 4 <= usize::MAX,
        ensures
            r@.len() == self.pixels@.len() * 4,
            forall|i: int, k: int|
                0 <= i < self.pixels@.len() && 0 <= k < 4 ==> r@[i * 4 + k] as u32 == #[trigger] channel(self.pixels@[i], k),
    {
        let mut r: Vec<u8> = Vec::new();
        let mut i: usize = 0;
        while i < self.pixels.len()
            invariant
                i <= self.pixels@.len(),
                self.pixels@.len() * 4 <= usize::MAX,
                r@.len() == i * 4,
                forall|j: int, k: int|
                    0 <= j < i && 0 <= k < 4 ==> r@[j * 4 + k] as u32 == #[trigger] channel(self.pixels@[j], k),
            decreases self.pixels@.len() - i,
        {
            let p = self.pixels[i];
            let b0 = (p & 0xFF) as u8;
            let b1 = ((p >> 8) & 0xFF) as u8;
            let b2 = ((p >> 16) & 0xFF) as u8;
            let b3 = (p >> 24) as u8;
            assert(b3 as u32 == p >> 24 && b0 as u32 == p & 0xFF && b1 as u32 == (p >> 8) & 0xFF
                && b2 as u32 == (p >> 16) & 0xFF) by (bit_vector)
                requires
                    b0 == (p & 0xFF) as u8,
                    b1 == ((p >> 8) & 0xFF) as u8,
                    b2 == ((p >> 16) & 0xFF) as u8,
                    b3 == (p >> 24) as u8,
            ;
            r.push(b0);
            r.push(b1);
            r.push(b2);
            r.push(b3);
            proof {
                assert forall|j: int, k: int|
                    0 <= j < i + 1 && 0 <= k < 4 implies r@[j * 4 + k] as u32 == #[trigger] channel(self.pixels@[j], k) by {
                    if j < i {
                        assert(j * 4 + k < i * 4) by (nonlinear_arith)
                            requires
                                j < i,
                                k < 4,
                        ;
                    }
                }
            }
            i = i + 1;
        }
        r
    }
}

/// Per-view cache of the last composited surface.
pub struct State {
    pub handle_opt: Option<Surface>,
}

/// Whether a draw pass must composite anew: the text engine asked for a
/// redraw, nothing is cached, or the cached surface has another size.
pub open spec fn needs_redraw_spec(state: State, canvas: Canvas, redraw: bool) -> bool {
    redraw || match state.handle_opt {
        None => true,
        Some(s) => s.size != canvas,
    }
}

/// `state` holds a surface of `canvas` size with `rects` drawn on it.
pub open spec fn holds_composite(state: State, canvas: Canvas, rects: Seq<Coverage>) -> bool {
    match state.handle_opt {
        None => false,
        Some(s) => s.wf() && s.size == canvas && s.pixels@ == composite_spec(canvas, rects),
    }
}

/// What one draw pass at `canvas` size does to the cache `before`, leaving
/// `after` and reporting `composited` rectangles drawn.
pub open spec fn render_outcome(
    before: State,
    after: State,
    canvas: Canvas,
    redraw: bool,
    rects: Seq<Coverage>,
    composited: int,
) -> bool {
    &&& after.wf()
    &&& needs_redraw_spec(before, canvas, redraw) ==> holds_composite(after, canvas, rects) && composited
        == rects.len()
    &&& !needs_redraw_spec(before, canvas, redraw) ==> after == before && composited == 0
}

/// A second draw pass at the same size, with no redraw asked for, reuses the
/// surface of the first: the cache is left exactly as it was and nothing is
/// composited.
pub proof fn second_pass_reuses(
    s0: State,
    s1: State,
    s2: State,
    canvas: Canvas,
    redraw: bool,
    first: Seq<Coverage>,
    second: Seq<Coverage>,
    n1: int,
    n2: int,
)
    requires
        s0.wf(),
        render_outcome(s0, s1, canvas, redraw, first, n1),
        render_outcome(s1, s2, canvas, false, second, n2),
    ensures
        s2 == s1,
        n2 == 0,
{
}

impl State {
    pub open spec fn wf(&self) -> bool {
        match self.handle_opt {
            None => true,
            Some(s) => s.wf(),
        }
    }

    /// A cache that holds nothing yet.
    pub fn new() -> (s: State)
        ensures
            s.handle_opt is None,
    {
        State { handle_opt: None }
    }

    /// Whether the next draw pass at `canvas` size must composite anew.
    pub fn needs_redraw(&self, canvas: Canvas, redraw: bool) -> (r: bool)
        ensures
            r == needs_redraw_spec(*self, canvas, redraw),
    {
        if redraw {
            return true;
        }
        match &self.handle_opt {
            None => true,
            Some(s) => s.size != canvas,
        }
    }

    /// Returns the surface for a draw pass at `canvas` size. When
    /// `needs_redraw` holds, `rects` are composited onto a fresh surface that
    /// replaces the cached one; otherwise the cache is left as it is. The
    /// result is the number of rectangles composited.
    pub fn render_or_reuse(&mut self, canvas: Canvas, redraw: bool, rects: &Vec<Coverage>) -> (composited: usize)
        requires
            allocatable(canvas),
            old(self).wf(),
        ensures
            render_outcome(*old(self), *final(self), canvas, redraw, rects@, composited as int),
    {
        if self.needs_redraw(canvas, redraw) {
            let s = composite(canvas, rects);
            self.handle_opt = Some(s);
            rects.len()
        } else {
            0
        }
    }

    /// The cached surface, if any.
    pub fn handle(&self) -> (r: Option<&Surface>)
        ensures
            r == match self.handle_opt {
                None => None::<&Surface>,
                Some(ref s) => Some(s),
            },
    {
        match &self.handle_opt {
            None => None,
            Some(s) => Some(s),
        }
    }
}

} // verus!
