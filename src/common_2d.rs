//! The sink that the rasterizers write pixel coverage into.
use vstd::prelude::*;

verus! {

pub open spec fn abs(v: int) -> int {
    if v < 0 {
        -v
    } else {
        v
    }
}

pub open spec fn max(a: int, b: int) -> int {
    if a >= b {
        a
    } else {
        b
    }
}

pub open spec fn min(a: int, b: int) -> int {
    if a <= b {
        a
    } else {
        b
    }
}

/// A target for single-pixel coverage events.
///
/// `painted` models the sink as the sequence of `(x, y, alpha)` events it has
/// received so far; every write appends exactly one event. Sinks written in
/// verified code override `painted` and prove their writes against it. The
/// default (no history) lets a sink outside verified code, such as an image
/// buffer, implement the trait; such a sink cannot meet these contracts and is
/// taken on trust: what is proved of a caller then holds of the events it
/// hands over, not of what the sink stores.
pub trait PutPixel {
    open spec fn painted(&self) -> Seq<(int, int, int)> {
        Seq::empty()
    }

    /// Full-coverage write of pixel `(x, y)`.
    fn put_pixel(&mut self, x: i32, y: i32)
        ensures
            final(self).painted() == old(self).painted().push((x as int, y as int, 255int)),
    ;

    /// Coverage-weighted write of pixel `(x, y)`.
    fn put_pixel_alpha(&mut self, x: i32, y: i32, alpha: u8)
        ensures
            final(self).painted() == old(self).painted().push(
                (x as int, y as int, alpha as int),
            ),
    ;
}

/// A sink that records every event it receives, in order.
pub struct PixelLog {
    pub events: Vec<(i32, i32, u8)>,
}

impl PixelLog {
    pub open spec fn view_events(&self) -> Seq<(int, int, int)> {
        self.events@.map_values(|e: (i32, i32, u8)| (e.0 as int, e.1 as int, e.2 as int))
    }

    pub fn new() -> (r: PixelLog)
        ensures
            r.view_events() == Seq::<(int, int, int)>::empty(),
    {
        PixelLog { events: Vec::new() }
    }
}

impl PutPixel for PixelLog {
    open spec fn painted(&self) -> Seq<(int, int, int)> {
        self.view_events()
    }

    fn put_pixel(&mut self, x: i32, y: i32) {
        self.events.push((x, y, 255u8));
        assert(self.view_events() =~= old(self).view_events().push((x as int, y as int, 255int)));
    }

    fn put_pixel_alpha(&mut self, x: i32, y: i32, alpha: u8) {
        self.events.push((x, y, alpha));
        assert(self.view_events() =~= old(self).view_events().push(
            (x as int, y as int, alpha as int),
        ));
    }
}

} // verus!
