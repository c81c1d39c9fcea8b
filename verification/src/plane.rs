//! Single-channel pixel planes: 2-D grids of 8-bit samples, row-major.

use vstd::prelude::*;

verus! {

/// Largest accepted plane height or width; keeps every index computation
/// inside the machine's integer ranges.
pub const MAX_DIM: usize = 16384;

/// A grid is well formed when it has `h` rows of `w` samples each.
pub open spec fn grid_wf(g: Seq<Seq<u8>>, h: int, w: int) -> bool {
    g.len() == h && forall|i: int| 0 <= i < h ==> #[trigger] g[i].len() == w
}

/// One color channel of an image: `height x width` unsigned 8-bit samples,
/// row-major, origin top-left.
pub struct Plane {
    pub data: Vec<Vec<u8>>,
}

impl Plane {
    /// The mathematical value of the plane: a sequence of rows.
    pub open spec fn view(&self) -> Seq<Seq<u8>> {
        self.data@.map_values(|r: Vec<u8>| r@)
    }

    pub open spec fn spec_height(&self) -> int {
        self.view().len() as int
    }

    pub open spec fn spec_width(&self) -> int {
        self.view()[0].len() as int
    }

    /// Non-empty rectangular grid of bounded size.
    pub open spec fn wf(&self) -> bool {
        &&& 1 <= self.spec_height() <= MAX_DIM
        &&& 1 <= self.spec_width() <= MAX_DIM
        &&& grid_wf(self.view(), self.spec_height(), self.spec_width())
    }

    /// Builds a plane from rows; `None` when the rows do not form a
    /// non-empty rectangle of bounded size.
    pub fn new(data: Vec<Vec<u8>>) -> (res: Option<Plane>)
        ensures
            res is Some <==> {
                &&& 1 <= data@.len() <= MAX_DIM
                &&& 1 <= data@[0].len() <= MAX_DIM
                &&& forall|i: int| 0 <= i < data@.len() ==> #[trigger] data@[i].len() == data@[0].len()
            },
            res is Some ==> res.unwrap().wf() && res.unwrap().view() == data@.map_values(
                |r: Vec<u8>| r@,
            ),
    {
        if data.len() == 0 || data.len() > MAX_DIM {
            return None;
        }
        let w = data[0].len();
        if w == 0 || w > MAX_DIM {
            return None;
        }
        let mut i: usize = 1;
        while i < data.len()
            invariant
                1 <= i <= data@.len(),
                w == data@[0].len(),
                forall|j: int| 0 <= j < i ==> #[trigger] data@[j].len() == w,
            decreases data@.len() - i,
        {
            if data[i].len() != w {
                return None;
            }
            i += 1;
        }
        let p = Plane { data };
        assert(forall|i: int|
            0 <= i < p.view().len() ==> #[trigger] p.view()[i].len() == p.data@[i].len());
        Some(p)
    }

    pub fn height(&self) -> (h: usize)
        requires
            self.wf(),
        ensures
            h == self.spec_height(),
    {
        self.data.len()
    }

    pub fn width(&self) -> (w: usize)
        requires
            self.wf(),
        ensures
            w == self.spec_width(),
    {
        proof {
            assert(self.view()[0] == self.data@[0]@);
        }
        self.data[0].len()
    }

    /// The sample at row `y`, column `x`.
    pub fn get(&self, y: usize, x: usize) -> (v: u8)
        requires
            self.wf(),
            y < self.spec_height(),
            x < self.spec_width(),
        ensures
            v == self.view()[y as int][x as int],
    {
        proof {
            assert(self.data@.len() == self.view().len());
            assert(self.view()[y as int] == self.data@[y as int]@);
        }
        self.data[y][x]
    }
}

} // verus!
