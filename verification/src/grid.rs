//! The mathematical model of a raster: its size and the colour at each
//! coordinate.

use vstd::prelude::*;
use crate::color::Color;

verus! {

/// What a raster is: `width` columns, `height` rows, and one colour for each
/// coordinate `(x, y)` with `0 <= x < width` and `0 <= y < height`.
pub ghost struct Grid {
    pub width: int,
    pub height: int,
    pub pixels: Map<(int, int), Color>,
}

/// A coordinate as a pair of mathematical integers.
pub open spec fn point(c: (u32, u32)) -> (int, int) {
    (c.0 as int, c.1 as int)
}

impl Grid {
    /// Whether `(x, y)` names a cell of the grid.
    pub open spec fn contains(self, c: (int, int)) -> bool {
        0 <= c.0 < self.width && 0 <= c.1 < self.height
    }

    /// The grid's size is not negative and it holds a colour for exactly its
    /// own cells.
    pub open spec fn wf(self) -> bool {
        &&& 0 <= self.width
        &&& 0 <= self.height
        &&& forall|c: (int, int)| self.pixels.dom().contains(c) <==> self.contains(c)
    }

    /// The colour at a coordinate given as machine integers.
    pub open spec fn color_at(self, c: (u32, u32)) -> Color {
        self.pixels[point(c)]
    }

    /// The colours found when walking `line` from its first coordinate to its
    /// last.
    pub open spec fn colors_along(self, line: Seq<(u32, u32)>) -> Seq<Color> {
        Seq::new(line.len(), |i: int| self.color_at(line[i]))
    }

    /// Whether every coordinate of `line` names a cell of the grid.
    pub open spec fn covers(self, line: Seq<(u32, u32)>) -> bool {
        forall|i: int| 0 <= i < line.len() ==> self.contains(point(#[trigger] line[i]))
    }

    /// The grid with `color` in the cell `c`, and every other cell as it was.
    pub open spec fn put(self, c: (int, int), color: Color) -> Grid {
        Grid { width: self.width, height: self.height, pixels: self.pixels.insert(c, color) }
    }

    /// The grid turned by half a turn: the cell at `(x, y)` moves to
    /// `(width - 1 - x, height - 1 - y)`.
    pub open spec fn rotate180(self) -> Grid {
        Grid {
            width: self.width,
            height: self.height,
            pixels: Map::new(
                |c: (int, int)| self.contains(c),
                |c: (int, int)| self.pixels[(self.width - 1 - c.0, self.height - 1 - c.1)],
            ),
        }
    }

    /// The grid turned a quarter turn clockwise: the cell at `(x, y)` moves to
    /// `(height - 1 - y, x)`, and width and height change places.
    pub open spec fn rotate90(self) -> Grid {
        Grid {
            width: self.height,
            height: self.width,
            pixels: Map::new(
                |c: (int, int)| 0 <= c.0 < self.height && 0 <= c.1 < self.width,
                |c: (int, int)| self.pixels[(c.1, self.height - 1 - c.0)],
            ),
        }
    }

    /// The grid turned three quarter turns clockwise: the cell at `(x, y)`
    /// moves to `(y, width - 1 - x)`, and width and height change places.
    pub open spec fn rotate270(self) -> Grid {
        Grid {
            width: self.height,
            height: self.width,
            pixels: Map::new(
                |c: (int, int)| 0 <= c.0 < self.height && 0 <= c.1 < self.width,
                |c: (int, int)| self.pixels[(self.width - 1 - c.1, c.0)],
            ),
        }
    }
}

/// Two half turns give back the grid they started from.
pub proof fn lemma_rotate180_twice(g: Grid)
    requires
        g.wf(),
    ensures
        g.rotate180().wf(),
        g.rotate180().rotate180() == g,
{
    let r = g.rotate180().rotate180();
    assert forall|c: (int, int)| r.pixels.dom().contains(c) == g.pixels.dom().contains(c) by {
        assert(g.pixels.dom().contains(c) <==> g.contains(c));
    }
    assert forall|c: (int, int)| r.pixels.dom().contains(c) implies r.pixels[c] == g.pixels[c] by {
        let d = (g.width - 1 - c.0, g.height - 1 - c.1);
        assert(g.rotate180().contains(d));
    }
    assert(r.pixels =~= g.pixels);
}

/// Four quarter turns give back the grid they started from.
pub proof fn lemma_rotate90_four_times(g: Grid)
    requires
        g.wf(),
    ensures
        g.rotate90().wf(),
        g.rotate90().rotate90() == g.rotate180(),
        g.rotate90().rotate90().rotate90().rotate90() == g,
{
    let r2 = g.rotate90().rotate90();
    assert(r2.pixels =~= g.rotate180().pixels);
    assert(r2 == g.rotate180());
    let r4 = r2.rotate90().rotate90();
    assert(r4.pixels =~= r2.rotate180().pixels);
    lemma_rotate180_twice(g);
}

/// A quarter turn followed by three quarter turns, or the other way round,
/// gives back the grid it started from.
pub proof fn lemma_rotate90_then_270(g: Grid)
    requires
        g.wf(),
    ensures
        g.rotate270().wf(),
        g.rotate90().rotate270() == g,
        g.rotate270().rotate90() == g,
{
    let a = g.rotate90().rotate270();
    let b = g.rotate270().rotate90();
    assert forall|c: (int, int)|
        a.pixels.dom().contains(c) == g.pixels.dom().contains(c) && b.pixels.dom().contains(c)
            == g.pixels.dom().contains(c) by {
        assert(g.pixels.dom().contains(c) <==> g.contains(c));
    }
    assert(a.pixels =~= g.pixels);
    assert(b.pixels =~= g.pixels);
}

} // verus!
