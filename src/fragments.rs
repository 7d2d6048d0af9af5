//! The working set of fragments of one rectangle, and how an occluder cuts it.
use crate::geom::{all_inside, covered, pairwise_apart, point2, Point, Rect};
use smallvec::SmallVec;
use vstd::prelude::*;

verus! {

/// A growable list of fragments that keeps its first sixteen elements inline.
#[verifier::external_body]
pub struct Fragments {
    v: SmallVec<[Rect; 16]>,
}

/// The fragments held by a working set, in order.
pub uninterp spec fn fragments_of(f: Fragments) -> Seq<Rect>;

impl Fragments {
    /// Relies on `SmallVec::new`: a new vector is empty.
    #[verifier::external_body]
    pub(crate) fn new() -> (f: Fragments)
        ensures
            fragments_of(f) == Seq::<Rect>::empty(),
    {
        Fragments { v: SmallVec::new() }
    }

    /// Relies on `SmallVec::len`: the number of elements held.
    #[verifier::external_body]
    pub(crate) fn len(&self) -> (n: usize)
        ensures
            n == fragments_of(*self).len(),
    {
        self.v.len()
    }

    /// Relies on indexing a `SmallVec`: the element at position `i`.
    #[verifier::external_body]
    pub(crate) fn get(&self, i: usize) -> (r: Rect)
        requires
            i < fragments_of(*self).len(),
        ensures
            r == fragments_of(*self)[i as int],
    {
        self.v[i]
    }

    /// Relies on `SmallVec::push`: the element is appended at the end. It
    /// panics only on capacity overflow, for a length whose storage would pass
    /// `isize::MAX` bytes, which no list in memory reaches.
    #[verifier::external_body]
    pub(crate) fn push(&mut self, r: Rect)
        ensures
            fragments_of(*final(self)) == fragments_of(*old(self)).push(r),
    {
        self.v.push(r)
    }

    /// Relies on `SmallVec::swap_remove`: the last element takes the place of
    /// the one removed at position `i`.
    #[verifier::external_body]
    pub(crate) fn swap_remove(&mut self, i: usize) -> (r: Rect)
        requires
            i < fragments_of(*old(self)).len(),
        ensures
            r == fragments_of(*old(self))[i as int],
            fragments_of(*final(self)) == fragments_of(*old(self)).update(
                i as int,
                fragments_of(*old(self)).last(),
            ).drop_last(),
    {
        self.v.swap_remove(i)
    }
}

/// The larger of two coordinates.
pub open spec fn max_of(a: i32, b: i32) -> i32 {
    if a < b {
        b
    } else {
        a
    }
}

/// The smaller of two coordinates.
pub open spec fn min_of(a: i32, b: i32) -> i32 {
    if a < b {
        a
    } else {
        b
    }
}

/// The part of `r` above the occluder `o`, over the full width of `r`.
pub open spec fn top_band(r: Rect, o: Rect) -> Rect {
    Rect { min: r.min, max: Point { x: r.max.x, y: o.min.y } }
}

/// The part of `r` below the occluder `o`, over the full width of `r`.
pub open spec fn bottom_band(r: Rect, o: Rect) -> Rect {
    Rect { min: Point { x: r.min.x, y: o.max.y }, max: r.max }
}

/// The part of `r` left of the occluder `o`, within the rows that both span.
pub open spec fn left_band(r: Rect, o: Rect) -> Rect {
    Rect {
        min: Point { x: r.min.x, y: max_of(r.min.y, o.min.y) },
        max: Point { x: o.min.x, y: min_of(r.max.y, o.max.y) },
    }
}

/// The part of `r` right of the occluder `o`, within the rows that both span.
pub open spec fn right_band(r: Rect, o: Rect) -> Rect {
    Rect {
        min: Point { x: o.max.x, y: max_of(r.min.y, o.min.y) },
        max: Point { x: r.max.x, y: min_of(r.max.y, o.max.y) },
    }
}

/// `r` when `c` holds, else nothing.
pub open spec fn band_if(c: bool, r: Rect) -> Seq<Rect> {
    if c {
        seq![r]
    } else {
        Seq::empty()
    }
}

/// The bands that replace `r` when the occluder `o` crosses it, in the order
/// top, bottom, left, right; a band is kept only where `r` reaches strictly
/// past the occluder's edge on that side.
pub open spec fn bands(r: Rect, o: Rect) -> Seq<Rect> {
    band_if(r.min.y < o.min.y && r.max.y > o.min.y, top_band(r, o)) + band_if(
        r.max.y > o.max.y && r.min.y < o.max.y,
        bottom_band(r, o),
    ) + band_if(r.min.x < o.min.x && r.max.x > o.min.x, left_band(r, o)) + band_if(
        r.max.x > o.max.x && r.min.x < o.max.x,
        right_band(r, o),
    )
}

/// A cell is covered by a concatenation when it is covered by either part.
pub proof fn lemma_covered_concat(s: Seq<Rect>, t: Seq<Rect>)
    ensures
        forall|x: int, y: int| #[trigger]
            covered(s + t, x, y) == (covered(s, x, y) || covered(t, x, y)),
{
    assert forall|x: int, y: int| #[trigger]
        covered(s + t, x, y) == (covered(s, x, y) || covered(t, x, y)) by {
        if covered(s + t, x, y) {
            let j = choose|j: int| 0 <= j < (s + t).len() && (s + t)[j].covers(x, y);
            if j >= s.len() {
                assert(t[j - s.len()] == (s + t)[j]);
            }
        }
        if covered(s, x, y) {
            let j = choose|j: int| 0 <= j < s.len() && s[j].covers(x, y);
            assert((s + t)[j] == s[j]);
        }
        if covered(t, x, y) {
            let j = choose|j: int| 0 <= j < t.len() && t[j].covers(x, y);
            assert((s + t)[s.len() + j] == t[j]);
        }
    }
}

/// A singleton or empty list covers the cells of its element, if any.
pub proof fn lemma_covered_band_if(c: bool, r: Rect)
    ensures
        forall|x: int, y: int| #[trigger]
            covered(band_if(c, r), x, y) == (c && r.covers(x, y)),
{
    assert forall|x: int, y: int| #[trigger]
        covered(band_if(c, r), x, y) == (c && r.covers(x, y)) by {
        if c && r.covers(x, y) {
            assert(band_if(c, r)[0] == r);
        }
    }
}

/// The bands of a crossing occluder cover exactly the cells of `r` outside the
/// occluder; they have area, lie inside `r` and do not cross each other.
pub proof fn lemma_bands(r: Rect, o: Rect)
    requires
        r.has_area(),
        o.has_area(),
        r.crosses(o),
    ensures
        all_inside(bands(r, o), r),
        pairwise_apart(bands(r, o)),
        forall|x: int, y: int| #[trigger]
            covered(bands(r, o), x, y) == (r.covers(x, y) && !o.covers(x, y)),
{
    let t = band_if(r.min.y < o.min.y && r.max.y > o.min.y, top_band(r, o));
    let b = band_if(r.max.y > o.max.y && r.min.y < o.max.y, bottom_band(r, o));
    let l = band_if(r.min.x < o.min.x && r.max.x > o.min.x, left_band(r, o));
    let g = band_if(r.max.x > o.max.x && r.min.x < o.max.x, right_band(r, o));
    lemma_covered_band_if(r.min.y < o.min.y && r.max.y > o.min.y, top_band(r, o));
    lemma_covered_band_if(r.max.y > o.max.y && r.min.y < o.max.y, bottom_band(r, o));
    lemma_covered_band_if(r.min.x < o.min.x && r.max.x > o.min.x, left_band(r, o));
    lemma_covered_band_if(r.max.x > o.max.x && r.min.x < o.max.x, right_band(r, o));
    lemma_covered_concat(t, b);
    lemma_covered_concat(t + b, l);
    lemma_covered_concat(t + b + l, g);
    let s = bands(r, o);
    assert(s == t + b + l + g);
    let n1 = t.len();
    let n2 = n1 + b.len();
    let n3 = n2 + l.len();
    assert forall|j: int| 0 <= j < s.len() implies {
        &&& (#[trigger] s[j]).has_area()
        &&& s[j].inside(r)
        &&& j < n1 ==> s[j] == top_band(r, o)
        &&& n1 <= j < n2 ==> s[j] == bottom_band(r, o)
        &&& n2 <= j < n3 ==> s[j] == left_band(r, o)
        &&& n3 <= j ==> s[j] == right_band(r, o)
    } by {
        if j < n3 {
            assert(s[j] == (t + b + l)[j]);
            if j < n2 {
                assert((t + b + l)[j] == (t + b)[j]);
                if j < n1 {
                    assert((t + b)[j] == t[j]);
                } else {
                    assert((t + b)[j] == b[j - n1]);
                }
            } else {
                assert((t + b + l)[j] == l[j - n2]);
            }
        } else {
            assert(s[j] == g[j - n3]);
        }
    }
    assert forall|j: int, k: int|
        0 <= j < s.len() && 0 <= k < s.len() && j != k implies !(#[trigger] s[j]).crosses(
        #[trigger] s[k],
    ) by {
        assert(s[j].has_area() && s[k].has_area());
    }
}

/// The list left when the element at `i` is replaced by the last one and the
/// last position is dropped.
pub open spec fn swap_removed(s: Seq<Rect>, i: int) -> Seq<Rect> {
    s.update(i, s.last()).drop_last()
}

/// Removing position `i` keeps every other element: what the others cover,
/// whether they stay apart and inside `b`.
pub proof fn lemma_swap_removed(s: Seq<Rect>, i: int, b: Rect)
    requires
        0 <= i < s.len(),
    ensures
        forall|x: int, y: int| #[trigger]
            covered(swap_removed(s, i), x, y) == exists|j: int|
                0 <= j < s.len() && j != i && s[j].covers(x, y),
        (forall|j: int, k: int|
            0 <= j < s.len() && 0 <= k < s.len() && j != k && j != i && k != i ==> !(
            #[trigger] s[j]).crosses(#[trigger] s[k])) ==> pairwise_apart(swap_removed(s, i)),
        (forall|j: int| 0 <= j < s.len() && j != i ==> (#[trigger] s[j]).has_area() && s[j].inside(b))
            ==> all_inside(swap_removed(s, i), b),
{
    let t = swap_removed(s, i);
    let last = s.len() - 1;
    assert forall|p: int| 0 <= p < t.len() implies #[trigger] t[p] == s[if p == i {
        last
    } else {
        p
    }] && (if p == i { last } else { p }) != i by {}
    assert forall|x: int, y: int| #[trigger]
        covered(t, x, y) == exists|j: int| 0 <= j < s.len() && j != i && s[j].covers(x, y) by {
        if exists|j: int| 0 <= j < s.len() && j != i && s[j].covers(x, y) {
            let j = choose|j: int| 0 <= j < s.len() && j != i && s[j].covers(x, y);
            let p = if j == last { i } else { j };
            assert(t[p] == s[j]);
        }
    }
}

/// The list after the fragment at `i` has met the occluder `o`: where they
/// cross, its bands are appended and it gives its place to the last element.
pub open spec fn cut_at(o: Rect, s: Seq<Rect>, i: int) -> Seq<Rect> {
    if s[i].crosses(o) {
        swap_removed(s + bands(s[i], o), i)
    } else {
        s
    }
}

/// The fragments `s` after the occluder `o` has met positions `k - 1` down to 0.
pub open spec fn cut_from(o: Rect, s: Seq<Rect>, k: nat) -> Seq<Rect>
    decreases k,
{
    if k == 0 || k > s.len() {
        s
    } else {
        cut_from(o, cut_at(o, s, k - 1), (k - 1) as nat)
    }
}

/// The fragments `s` after the occluder `o` has met every one of them.
pub open spec fn cut(o: Rect, s: Seq<Rect>) -> Seq<Rect> {
    cut_from(o, s, s.len())
}

/// A cell that the first `k` fragments of `s` cover, or that a later one covers
/// outside the occluder `o`.
pub open spec fn left_visible(s: Seq<Rect>, o: Rect, k: int, x: int, y: int) -> bool {
    exists|j: int| 0 <= j < s.len() && s[j].covers(x, y) && (j < k || !o.covers(x, y))
}

/// One step of the cut: the fragment at `i`, which crosses `o`, gives way to
/// its bands.
proof fn lemma_cut_step(s0: Seq<Rect>, cur: Seq<Rect>, i: int, o: Rect, b: Rect)
    requires
        0 <= i < s0.len(),
        i < cur.len(),
        cur[i] == s0[i],
        pairwise_apart(s0),
        pairwise_apart(cur),
        all_inside(cur, b),
        cur[i].crosses(o),
        o.has_area(),
        forall|x: int, y: int| #[trigger]
            covered(cur, x, y) == left_visible(s0, o, i + 1, x, y),
    ensures
        all_inside(swap_removed(cur + bands(cur[i], o), i), b),
        pairwise_apart(swap_removed(cur + bands(cur[i], o), i)),
        forall|x: int, y: int| #[trigger]
            covered(swap_removed(cur + bands(cur[i], o), i), x, y) == left_visible(
                s0,
                o,
                i,
                x,
                y,
            ),
{
    let r = cur[i];
    let n = s0.len();
    lemma_bands(r, o);
    let bs = bands(r, o);
    let mid = cur + bs;
    let t = swap_removed(mid, i);
    lemma_covered_concat(cur, bs);
    assert forall|j: int| 0 <= j < mid.len() && j != i implies (#[trigger] mid[j]).has_area()
        && mid[j].inside(b) by {
        if j >= cur.len() {
            assert(mid[j] == bs[j - cur.len()]);
        }
    }
    assert forall|j: int, q: int|
        0 <= j < mid.len() && 0 <= q < mid.len() && j != q && j != i && q != i implies !(
        #[trigger] mid[j]).crosses(#[trigger] mid[q]) by {
        if j >= cur.len() {
            assert(mid[j] == bs[j - cur.len()]);
        }
        if q >= cur.len() {
            assert(mid[q] == bs[q - cur.len()]);
        }
        assert(!cur[i].crosses(mid[j]) || j >= cur.len());
    }
    lemma_swap_removed(mid, i, b);
    assert forall|x: int, y: int| #[trigger]
        covered(t, x, y) == left_visible(s0, o, i, x, y) by {
        assert(covered(bs, x, y) == (r.covers(x, y) && !o.covers(x, y)));
        assert(covered(mid, x, y) == (covered(cur, x, y) || covered(bs, x, y)));
        assert(covered(cur, x, y) == left_visible(s0, o, i + 1, x, y));
        if r.covers(x, y) {
            assert(forall|j: int| 0 <= j < n && j != i ==> !(#[trigger] s0[j]).covers(x, y));
            assert(forall|j: int| 0 <= j < cur.len() && j != i ==> !(#[trigger] cur[j]).covers(x, y));
            if !o.covers(x, y) {
                let q = choose|q: int| 0 <= q < bs.len() && bs[q].covers(x, y);
                assert(mid[cur.len() + q] == bs[q]);
            }
            if covered(t, x, y) {
                let j = choose|j: int| 0 <= j < mid.len() && j != i && mid[j].covers(x, y);
                if j >= cur.len() {
                    assert(mid[j] == bs[j - cur.len()]);
                }
            }
        } else {
            if covered(t, x, y) {
                let j = choose|j: int| 0 <= j < mid.len() && j != i && mid[j].covers(x, y);
                if j >= cur.len() {
                    assert(mid[j] == bs[j - cur.len()]);
                } else {
                    assert(mid[j] == cur[j]);
                }
            }
            if covered(cur, x, y) {
                let j = choose|j: int| 0 <= j < cur.len() && cur[j].covers(x, y);
                assert(mid[j] == cur[j]);
            }
            assert(covered(t, x, y) == covered(cur, x, y));
        }
    }
}

/// One step that keeps the fragment at `i`, which does not cross `o`.
proof fn lemma_keep_step(s0: Seq<Rect>, i: int, o: Rect)
    requires
        0 <= i < s0.len(),
        !s0[i].crosses(o),
    ensures
        forall|x: int, y: int| #[trigger]
            left_visible(s0, o, i + 1, x, y) == left_visible(s0, o, i, x, y),
{
    assert forall|x: int, y: int| #[trigger]
        left_visible(s0, o, i + 1, x, y) == left_visible(s0, o, i, x, y) by {
        if s0[i].covers(x, y) {
            assert(!o.covers(x, y));
        }
    }
}

/// The cut, followed from position `k - 1` down to 0, keeps the fragments
/// inside `b` and apart, and leaves the cells of `s0` outside the occluder.
proof fn lemma_cut_from(o: Rect, s0: Seq<Rect>, cur: Seq<Rect>, k: nat, b: Rect)
    requires
        k <= s0.len(),
        k <= cur.len(),
        forall|j: int| 0 <= j < k ==> #[trigger] cur[j] == s0[j],
        all_inside(s0, b),
        pairwise_apart(s0),
        all_inside(cur, b),
        pairwise_apart(cur),
        o.has_area(),
        forall|x: int, y: int| #[trigger] covered(cur, x, y) == left_visible(s0, o, k as int, x, y),
    ensures
        all_inside(cut_from(o, cur, k), b),
        pairwise_apart(cut_from(o, cur, k)),
        forall|x: int, y: int| #[trigger]
            covered(cut_from(o, cur, k), x, y) == (covered(s0, x, y) && !o.covers(x, y)),
    decreases k,
{
    if k == 0 {
        assert forall|x: int, y: int| #[trigger]
            covered(cur, x, y) == (covered(s0, x, y) && !o.covers(x, y)) by {
            assert(covered(cur, x, y) == left_visible(s0, o, 0, x, y));
        }
    } else {
        let i = k - 1;
        let next = cut_at(o, cur, i);
        if cur[i].crosses(o) {
            lemma_cut_step(s0, cur, i, o, b);
        } else {
            lemma_keep_step(s0, i, o);
        }
        assert forall|j: int| 0 <= j < i implies #[trigger] next[j] == s0[j] by {
            assert(cur[j] == s0[j]);
        }
        lemma_cut_from(o, s0, next, i as nat, b);
    }
}

/// Cutting the occluder `o` out of fragments that have area and lie apart
/// inside `b` keeps them so, and leaves exactly their cells outside `o`.
pub proof fn lemma_cut(o: Rect, s: Seq<Rect>, b: Rect)
    requires
        all_inside(s, b),
        pairwise_apart(s),
        o.has_area(),
    ensures
        all_inside(cut(o, s), b),
        pairwise_apart(cut(o, s)),
        forall|x: int, y: int| #[trigger]
            covered(cut(o, s), x, y) == (covered(s, x, y) && !o.covers(x, y)),
{
    assert forall|x: int, y: int| #[trigger]
        covered(s, x, y) == left_visible(s, o, s.len() as int, x, y) by {}
    lemma_cut_from(o, s, s, s.len(), b);
}

/// Cutting anything out of no fragment leaves none.
pub proof fn lemma_cut_empty(o: Rect, s: Seq<Rect>)
    requires
        s.len() == 0,
    ensures
        cut(o, s) == s,
{
}

/// Cuts the occluder out of every fragment that it crosses.
///
/// Each crossing fragment is replaced by its bands: they are appended at the
/// end, and the fragment's place is taken by the last element. Positions are
/// visited from the last to the first, so that no band is visited again.
pub(crate) fn apply_occluder(occluder: &Rect, rects: &mut Fragments)
    ensures
        fragments_of(*final(rects)) == cut(*occluder, fragments_of(*old(rects))),
{
    let ghost s0 = fragments_of(*rects);
    let ghost o = *occluder;
    let n = rects.len();
    let mut k: usize = n;
    while k > 0
        invariant
            k <= fragments_of(*rects).len(),
            o == *occluder,
            cut_from(o, fragments_of(*rects), k as nat) == cut(o, s0),
        decreases k,
    {
        let i = k - 1;
        let ghost cur = fragments_of(*rects);
        let r = rects.get(i);
        if r.intersects(occluder) {
            if r.min.y < occluder.min.y && r.max.y > occluder.min.y {
                rects.push(Rect { min: r.min, max: point2(r.max.x, occluder.min.y) });
            }
            if r.max.y > occluder.max.y && r.min.y < occluder.max.y {
                rects.push(Rect { min: point2(r.min.x, occluder.max.y), max: r.max });
            }
            if r.min.x < occluder.min.x && r.max.x > occluder.min.x {
                let min_y = if r.min.y < occluder.min.y { occluder.min.y } else { r.min.y };
                let max_y = if r.max.y < occluder.max.y { r.max.y } else { occluder.max.y };
                rects.push(Rect { min: point2(r.min.x, min_y), max: point2(occluder.min.x, max_y) });
            }
            if r.max.x > occluder.max.x && r.min.x < occluder.max.x {
                let min_y = if r.min.y < occluder.min.y { occluder.min.y } else { r.min.y };
                let max_y = if r.max.y < occluder.max.y { r.max.y } else { occluder.max.y };
                rects.push(Rect { min: point2(occluder.max.x, min_y), max: point2(r.max.x, max_y) });
            }
            assert(fragments_of(*rects) =~= cur + bands(r, o));
            rects.swap_remove(i);
        }
        assert(fragments_of(*rects) == cut_at(o, cur, i as int));
        k = i;
    }
}

} // verus!
