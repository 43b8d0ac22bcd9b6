use vstd::prelude::*;

verus! {

/// What the renderer needs from a presentation surface: a row-major store
/// of 32-bit pixels and its extent. The presentation layer owns allocation
/// and resizing; the renderer only reads the extent and the store.
pub trait Surface {
    /// The pixel store, row-major.
    spec fn pixels_spec(&self) -> Seq<u32>;

    /// The extent in pixels, width then height.
    spec fn extent_spec(&self) -> (usize, usize);

    /// Read view of the pixel store.
    fn get_data(&self) -> (d: &Vec<u32>)
        ensures
            d@ == self.pixels_spec(),
    ;

    /// Current extent, width then height.
    fn get_extent(&self) -> (e: (usize, usize))
        ensures
            e == self.extent_spec(),
    ;
}

impl Surface for crate::surface::Surface {
    closed spec fn pixels_spec(&self) -> Seq<u32> {
        self.data@
    }

    closed spec fn extent_spec(&self) -> (usize, usize) {
        (self.width, self.height)
    }

    fn get_data(&self) -> (d: &Vec<u32>) {
        &self.data
    }

    fn get_extent(&self) -> (e: (usize, usize)) {
        (self.width, self.height)
    }
}

} // verus!
