use vstd::prelude::*;

verus! {

/// Most pixels a picture may have so that a sum of squared differences fits a `u64`.
pub const MAX_PIXELS: u64 = 283686952306183;

/// A class identifier.
#[derive(Debug, Clone, Copy, PartialEq, Eq, Structural)]
pub struct PictureClass {
    pub numerical_value: i32,
}

/// A square grid of 8-bit samples, stored row-major as rows of equal length.
#[derive(Debug, Clone)]
pub struct Picture {
    pub data: Vec<Vec<u8>>,
}

/// A picture together with its class.
#[derive(Debug, Clone)]
pub struct ClassifiedPicture {
    pub picture: Picture,
    pub class: PictureClass,
}

/// A grid is square: as many rows as there are samples in each row.
pub open spec fn is_square(g: Seq<Seq<u8>>) -> bool {
    forall|i: int| 0 <= i < g.len() ==> #[trigger] g[i].len() == g.len()
}

impl View for Picture {
    type V = Seq<Seq<u8>>;

    open spec fn view(&self) -> Seq<Seq<u8>> {
        self.data@.map_values(|r: Vec<u8>| r@)
    }
}

impl Picture {
    /// Side length of the picture.
    pub open spec fn side(&self) -> nat {
        self.data@.len()
    }

    pub open spec fn wf(&self) -> bool {
        is_square(self@)
    }

    /// Side length of the picture.
    pub fn side_length(&self) -> (r: usize)
        ensures
            r == self.side(),
    {
        self.data.len()
    }

    /// Whether every row has as many samples as there are rows.
    pub fn is_square(&self) -> (r: bool)
        ensures
            r == self.wf(),
    {
        let n = self.data.len();
        let mut i: usize = 0;
        while i < n
            invariant
                i <= n,
                n == self.data@.len(),
                forall|k: int| 0 <= k < i ==> #[trigger] self@[k].len() == n,
            decreases n - i,
        {
            assert(self@[i as int] == self.data@[i as int]@);
            if self.data[i].len() != n {
                return false;
            }
            i = i + 1;
        }
        true
    }
}

} // verus!
