use vstd::prelude::*;
use crate::geometry::{Color, Point};

verus! {

/// A drawing surface that points can be painted onto.
pub trait Renderer {
    /// The color the surface currently draws with.
    spec fn current_color(&self) -> Color;

    /// Each batch of points painted so far, with its color, oldest first. It
    /// exists for contracts only: code that Verus does not check may keep
    /// the default.
    closed spec fn painted(&self) -> Seq<(Seq<Point>, Color)> {
        Seq::empty()
    }

    fn draw_color(&self) -> (c: Color)
        ensures
            c == self.current_color(),
    ;

    fn set_draw_color(&mut self, color: Color)
        ensures
            final(self).current_color() == color,
            final(self).painted() == old(self).painted(),
    ;

    /// Paints `points` in `color`; the error is the backend's own message,
    /// and a failed draw adds no batch.
    fn draw_points(&mut self, points: &[Point], color: Color) -> (r: Result<(), String>)
        ensures
            r is Ok ==> final(self).painted() == old(self).painted().push((points@, color)),
            r is Err ==> final(self).painted() == old(self).painted(),
    ;
}

/// Something that can paint itself onto a [`Renderer`].
pub trait Renderable {
    type Error;

    /// The batches a successful render paints, in order.
    spec fn batches(&self) -> Seq<(Seq<Point>, Color)>;

    /// Paints `self`. On success the renderer has painted exactly
    /// `self.batches()`; on failure a strict prefix of them. The draw color
    /// is the same afterwards as before, whether the call succeeds or fails.
    fn render<R: Renderer>(&self, renderer: &mut R) -> (r: Result<(), Self::Error>)
        ensures
            final(renderer).current_color() == old(renderer).current_color(),
            r is Ok ==> final(renderer).painted() == old(renderer).painted() + self.batches(),
            r is Err ==> exists|j: int|
                0 <= j < self.batches().len() && final(renderer).painted() == old(renderer).painted()
                    + #[trigger] self.batches().take(j),
    ;
}

} // verus!
