//! The values that a drawing of a builder's items is made from.
use crate::builder::{FrontToBackBuilder, Item};
use vstd::prelude::*;

verus! {

/// The shade, from 0 to 99, that picks the colour of an item with `key`.
pub open spec fn shade_of(key: u64) -> int {
    (key * 37) % 100
}

/// The shade that picks the colour of an item with `key`: `key * 37` modulo 100.
pub fn key_shade(key: u64) -> (s: u8)
    ensures
        s as int == shade_of(key),
        s < 100,
{
    let k = key % 100;
    proof {
        vstd::arithmetic::div_mod::lemma_mul_mod_noop_left(key as int, 37, 100);
    }
    ((k * 37) % 100) as u8
}

/// The largest right and bottom edge among `items`, starting from `w` and `h`.
fn stretch(items: &[Item], w: i32, h: i32) -> (r: (i32, i32))
    ensures
        r.0 >= w,
        r.1 >= h,
        forall|j: int| 0 <= j < items@.len() ==> r.0 >= (#[trigger] items@[j]).rectangle.max.x,
        forall|j: int| 0 <= j < items@.len() ==> r.1 >= (#[trigger] items@[j]).rectangle.max.y,
        r.0 == w || exists|j: int| 0 <= j < items@.len() && r.0 == (#[trigger] items@[j]).rectangle.max.x,
        r.1 == h || exists|j: int| 0 <= j < items@.len() && r.1 == (#[trigger] items@[j]).rectangle.max.y,
{
    let mut cw = w;
    let mut ch = h;
    let mut i: usize = 0;
    while i < items.len()
        invariant
            i <= items@.len(),
            cw >= w,
            ch >= h,
            forall|j: int| 0 <= j < i ==> cw >= (#[trigger] items@[j]).rectangle.max.x,
            forall|j: int| 0 <= j < i ==> ch >= (#[trigger] items@[j]).rectangle.max.y,
            cw == w || exists|j: int| 0 <= j < i && cw == (#[trigger] items@[j]).rectangle.max.x,
            ch == h || exists|j: int| 0 <= j < i && ch == (#[trigger] items@[j]).rectangle.max.y,
        decreases items@.len() - i,
    {
        let r = items[i].rectangle;
        if r.max.x > cw {
            cw = r.max.x;
        }
        if r.max.y > ch {
            ch = r.max.y;
        }
        i += 1;
    }
    (cw, ch)
}

impl FrontToBackBuilder {
    /// The width and height of a drawing that holds every item: the largest
    /// right and bottom edge among the items, and at least 0.
    pub fn extent(&self) -> (r: (i32, i32))
        ensures
            r.0 >= 0,
            r.1 >= 0,
            forall|j: int| 0 <= j < self.opaque().len() ==> r.0 >= (#[trigger] self.opaque()[j]).rectangle.max.x
                && r.1 >= self.opaque()[j].rectangle.max.y,
            forall|j: int| 0 <= j < self.alpha().len() ==> r.0 >= (#[trigger] self.alpha()[j]).rectangle.max.x
                && r.1 >= self.alpha()[j].rectangle.max.y,
            r.0 == 0 || (exists|j: int| 0 <= j < self.opaque().len() && r.0 == (#[trigger] self.opaque()[j]).rectangle.max.x)
                || (exists|j: int| 0 <= j < self.alpha().len() && r.0 == (#[trigger] self.alpha()[j]).rectangle.max.x),
            r.1 == 0 || (exists|j: int| 0 <= j < self.opaque().len() && r.1 == (#[trigger] self.opaque()[j]).rectangle.max.y)
                || (exists|j: int| 0 <= j < self.alpha().len() && r.1 == (#[trigger] self.alpha()[j]).rectangle.max.y),
    {
        let (w, h) = stretch(self.opaque_items(), 0, 0);
        stretch(self.alpha_items(), w, h)
    }
}

} // verus!
