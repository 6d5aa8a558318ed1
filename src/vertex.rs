//! Sprite geometry.
use vstd::prelude::*;

verus! {

/// The four corners of a rectangular sprite.
#[derive(Copy, Clone)]
pub struct Square<T: Copy> {
    pub top_left: T,
    pub top_right: T,
    pub bottom_left: T,
    pub bottom_right: T,
}

impl<T: Copy> Square<T> {
    /// The corners as two triangles: top-left, top-right, bottom-left, then
    /// bottom-left, top-right, bottom-right.
    pub fn get_vec(self) -> (r: Vec<T>)
        ensures
            r@ == seq![
                self.top_left,
                self.top_right,
                self.bottom_left,
                self.bottom_left,
                self.top_right,
                self.bottom_right,
            ],
    {
        let mut v: Vec<T> = Vec::new();
        v.push(self.top_left);
        v.push(self.top_right);
        v.push(self.bottom_left);
        v.push(self.bottom_left);
        v.push(self.top_right);
        v.push(self.bottom_right);
        assert(v@ =~= seq![
            self.top_left,
            self.top_right,
            self.bottom_left,
            self.bottom_left,
            self.top_right,
            self.bottom_right,
        ]);
        v
    }
}

} // verus!
