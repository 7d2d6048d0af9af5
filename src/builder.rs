//! The front-to-back builder: it keeps the visible parts of each rectangle.
use crate::fragments::{apply_occluder, cut, fragments_of, lemma_cut, lemma_cut_empty, Fragments};
use crate::geom::{all_inside, covered, lemma_has_area_covers, lemma_overlaps_iff_crosses, pairwise_apart, Rect};
use vstd::prelude::*;

verus! {

/// A visible part of a rectangle after occlusion culling.
///
/// All the parts of one submitted rectangle carry its `key`.
#[derive(Clone, Copy, Debug, PartialEq, Eq, Structural)]
pub struct Item {
    pub rectangle: Rect,
    pub key: u64,
}

/// The rectangles of a list of items, in order.
pub open spec fn rects_of(items: Seq<Item>) -> Seq<Rect> {
    items.map_values(|it: Item| it.rectangle)
}

/// The rectangles `rs`, each tagged with `key`.
pub open spec fn tagged(rs: Seq<Rect>, key: u64) -> Seq<Item> {
    rs.map_values(|r: Rect| Item { rectangle: r, key })
}

/// Every rectangle of `s` covers at least one cell.
pub open spec fn all_have_area(s: Seq<Rect>) -> bool {
    forall|j: int| 0 <= j < s.len() ==> (#[trigger] s[j]).has_area()
}

/// The fragments of `rect` left after the occluders `opaque[0..j]` have cut
/// it, one after the other. A rectangle without area leaves none.
pub open spec fn visible_from(opaque: Seq<Rect>, rect: Rect, j: nat) -> Seq<Rect>
    decreases j,
{
    if j == 0 {
        if rect.has_area() {
            seq![rect]
        } else {
            Seq::empty()
        }
    } else {
        let f = visible_from(opaque, rect, (j - 1) as nat);
        if opaque[j - 1].crosses(rect) {
            cut(opaque[j - 1], f)
        } else {
            f
        }
    }
}

/// The fragments of `rect` that the occluders `opaque` leave visible.
pub open spec fn visible_fragments(opaque: Seq<Rect>, rect: Rect) -> Seq<Rect> {
    visible_from(opaque, rect, opaque.len())
}

/// Some cell of `rect` is covered by none of `opaque`.
pub open spec fn is_visible(opaque: Seq<Rect>, rect: Rect) -> bool {
    exists|x: int, y: int| rect.covers(x, y) && !covered(opaque, x, y)
}

/// The fragments left after the first `j` occluders have area, lie apart inside
/// `rect`, and cover exactly the cells of `rect` that none of those occluders
/// covers.
pub proof fn lemma_visible_from(opaque: Seq<Rect>, rect: Rect, j: nat)
    requires
        j <= opaque.len(),
        all_have_area(opaque),
    ensures
        all_inside(visible_from(opaque, rect, j), rect),
        pairwise_apart(visible_from(opaque, rect, j)),
        forall|x: int, y: int| #[trigger]
            covered(visible_from(opaque, rect, j), x, y) == (rect.covers(x, y) && !covered(
                opaque.take(j as int),
                x,
                y,
            )),
    decreases j,
{
    let f = visible_from(opaque, rect, j);
    if j == 0 {
        assert forall|x: int, y: int| #[trigger]
            covered(f, x, y) == (rect.covers(x, y) && !covered(opaque.take(0), x, y)) by {
            if rect.has_area() && rect.covers(x, y) {
                assert(f[0] == rect);
            }
        }
    } else {
        let i = j - 1;
        let o = opaque[i];
        let prev = visible_from(opaque, rect, i as nat);
        lemma_visible_from(opaque, rect, i as nat);
        if o.crosses(rect) {
            lemma_cut(o, prev, rect);
        }
        assert forall|x: int, y: int| #[trigger]
            covered(f, x, y) == (rect.covers(x, y) && !covered(opaque.take(j as int), x, y)) by {
            assert(covered(prev, x, y) == (rect.covers(x, y) && !covered(opaque.take(i), x, y)));
            assert(opaque.take(j as int)[i] == o);
            if covered(opaque.take(j as int), x, y) && !o.covers(x, y) {
                let q = choose|q: int| 0 <= q < j && opaque.take(j as int)[q].covers(x, y);
                assert(opaque.take(i)[q] == opaque[q]);
            }
            if covered(opaque.take(i), x, y) {
                let q = choose|q: int| 0 <= q < i && opaque.take(i)[q].covers(x, y);
                assert(opaque.take(j as int)[q] == opaque[q]);
            }
        }
    }
}

/// The fragments of `rect` have area, lie apart inside `rect`, and cover
/// exactly the cells of `rect` that no occluder of `opaque` covers; there are
/// some exactly when `rect` is visible.
pub proof fn lemma_visible_fragments(opaque: Seq<Rect>, rect: Rect)
    requires
        all_have_area(opaque),
    ensures
        all_inside(visible_fragments(opaque, rect), rect),
        pairwise_apart(visible_fragments(opaque, rect)),
        forall|x: int, y: int| #[trigger]
            covered(visible_fragments(opaque, rect), x, y) == (rect.covers(x, y) && !covered(
                opaque,
                x,
                y,
            )),
        (visible_fragments(opaque, rect).len() > 0) == is_visible(opaque, rect),
{
    let f = visible_fragments(opaque, rect);
    lemma_visible_from(opaque, rect, opaque.len());
    assert(opaque.take(opaque.len() as int) =~= opaque);
    if f.len() > 0 {
        lemma_has_area_covers(f[0]);
        assert(covered(f, f[0].min.x as int, f[0].min.y as int));
    }
    if is_visible(opaque, rect) {
        let (x, y) = choose|x: int, y: int| rect.covers(x, y) && !covered(opaque, x, y);
        assert(covered(f, x, y));
    }
}

/// Once no fragment is left, none comes back.
proof fn lemma_visible_from_none(opaque: Seq<Rect>, rect: Rect, j: nat, j2: nat)
    requires
        j <= j2,
        visible_from(opaque, rect, j).len() == 0,
    ensures
        visible_from(opaque, rect, j2).len() == 0,
    decreases j2 - j,
{
    if j < j2 {
        lemma_visible_from_none(opaque, rect, j, (j2 - 1) as nat);
        let f = visible_from(opaque, rect, (j2 - 1) as nat);
        lemma_cut_empty(opaque[j2 - 1], f);
    }
}

/// Appending fragments that have area, lie apart and cover no cell of `old`
/// keeps a list whose rectangles have area and lie apart.
pub proof fn lemma_append_apart(old: Seq<Rect>, f: Seq<Rect>, rect: Rect)
    requires
        all_have_area(old),
        pairwise_apart(old),
        all_inside(f, rect),
        pairwise_apart(f),
        forall|x: int, y: int| #[trigger] covered(f, x, y) ==> !covered(old, x, y),
    ensures
        all_have_area(old + f),
        pairwise_apart(old + f),
{
    let s = old + f;
    assert forall|j: int| 0 <= j < s.len() implies (#[trigger] s[j]).has_area() by {
        if j >= old.len() {
            assert(s[j] == f[j - old.len()]);
        }
    }
    assert forall|j: int, k: int|
        0 <= j < s.len() && 0 <= k < s.len() && j != k implies !(#[trigger] s[j]).crosses(
        #[trigger] s[k],
    ) by {
        if j < old.len() && k >= old.len() {
            let a = old[j];
            let c = f[k - old.len()];
            assert(s[k] == c);
            if a.crosses(c) {
                lemma_overlaps_iff_crosses(a, c);
                let (x, y) = choose|x: int, y: int| a.covers(x, y) && c.covers(x, y);
                assert(covered(f, x, y));
                assert(covered(old, x, y));
            }
        } else if j >= old.len() && k < old.len() {
            let a = old[k];
            let c = f[j - old.len()];
            assert(s[j] == c);
            if c.crosses(a) {
                lemma_overlaps_iff_crosses(a, c);
                let (x, y) = choose|x: int, y: int| a.covers(x, y) && c.covers(x, y);
                assert(covered(f, x, y));
                assert(covered(old, x, y));
            }
        } else if j >= old.len() {
            assert(s[j] == f[j - old.len()]);
            assert(s[k] == f[k - old.len()]);
        }
    }
}

/// Appends each fragment to `list`, tagged with `key`.
fn push_tagged(list: &mut Vec<Item>, fragments: &Fragments, key: u64)
    ensures
        final(list)@ == old(list)@ + tagged(fragments_of(*fragments), key),
{
    let n = fragments.len();
    let mut i: usize = 0;
    while i < n
        invariant
            i <= n == fragments_of(*fragments).len(),
            list@ == old(list)@ + tagged(fragments_of(*fragments).take(i as int), key),
        decreases n - i,
    {
        let r = fragments.get(i);
        list.push(Item { rectangle: r, key });
        i += 1;
        assert(tagged(fragments_of(*fragments).take(i as int), key) =~= tagged(
            fragments_of(*fragments).take((i - 1) as int),
            key,
        ).push(Item { rectangle: r, key }));
    }
    assert(fragments_of(*fragments).take(n as int) =~= fragments_of(*fragments));
}

/// A rectangle submitted with whether it is opaque and its key.
pub type Command = (Rect, bool, u64);

/// The opaque and alpha lists after `cmd` is added to those of `state`, front
/// to back.
pub open spec fn add_step(state: (Seq<Item>, Seq<Item>), cmd: Command) -> (Seq<Item>, Seq<Item>) {
    let f = tagged(visible_fragments(rects_of(state.0), cmd.0), cmd.2);
    if cmd.1 {
        (state.0 + f, state.1)
    } else {
        (state.0, state.1 + f)
    }
}

/// The opaque and alpha lists after `cmds` are added in order, front to back,
/// from empty lists.
pub open spec fn front_to_back(cmds: Seq<Command>) -> (Seq<Item>, Seq<Item>)
    decreases cmds.len(),
{
    if cmds.len() == 0 {
        (Seq::empty(), Seq::empty())
    } else {
        add_step(front_to_back(cmds.drop_last()), cmds.last())
    }
}

/// The opaque and alpha lists for `cmds` submitted back to front: the
/// commands are taken in reverse order, and the alpha list is reversed to
/// come out back to front.
pub open spec fn back_to_front(cmds: Seq<Command>) -> (Seq<Item>, Seq<Item>) {
    (front_to_back(cmds.reverse()).0, front_to_back(cmds.reverse()).1.reverse())
}

/// Reverses the items of `v` in place.
fn reverse_items(v: &mut Vec<Item>)
    ensures
        final(v)@ == old(v)@.reverse(),
{
    let n = v.len();
    let mut i: usize = 0;
    while i < n / 2
        invariant
            n == v@.len() == old(v)@.len(),
            i <= n / 2,
            forall|j: int| 0 <= j < i ==> #[trigger] v@[j] == old(v)@[n - 1 - j],
            forall|j: int| 0 <= j < i ==> #[trigger] v@[n - 1 - j] == old(v)@[j],
            forall|j: int| i <= j < n - i ==> #[trigger] v@[j] == old(v)@[j],
        decreases n / 2 - i,
    {
        let a = v[i];
        let b = v[n - 1 - i];
        v.set(i, b);
        v.set(n - 1 - i, a);
        i += 1;
    }
    assert forall|j: int| 0 <= j < n implies #[trigger] v@[j] == old(v)@.reverse()[j] by {
        if j >= n - i {
            assert(v@[n - 1 - (n - 1 - j)] == old(v)@[n - 1 - j]);
        }
    }
    assert(v@ =~= old(v)@.reverse());
}

/// A builder that culls rectangles submitted in front-to-back order.
///
/// Each rectangle is cut against the opaque rectangles added before it; its
/// visible parts go to the opaque list or the alpha list. It is faster than
/// [`crate::BackToFrontBuilder`].
pub struct FrontToBackBuilder {
    opaque_items: Vec<Item>,
    alpha_items: Vec<Item>,
}

impl FrontToBackBuilder {
    /// The visible opaque items, in the order they were added.
    pub closed spec fn opaque(&self) -> Seq<Item> {
        self.opaque_items@
    }

    /// The visible non-opaque items, in the order they were added.
    pub closed spec fn alpha(&self) -> Seq<Item> {
        self.alpha_items@
    }

    /// Every item has area, and no two opaque items share a cell.
    pub open spec fn wf(&self) -> bool {
        &&& all_have_area(rects_of(self.opaque()))
        &&& pairwise_apart(rects_of(self.opaque()))
        &&& all_have_area(rects_of(self.alpha()))
    }

    /// An empty builder.
    pub fn new() -> (b: Self)
        ensures
            b.wf(),
            b.opaque() == Seq::<Item>::empty(),
            b.alpha() == Seq::<Item>::empty(),
    {
        FrontToBackBuilder { opaque_items: Vec::new(), alpha_items: Vec::new() }
    }

    /// An empty builder with room reserved for `opaque` and `alpha` items.
    pub fn with_capacity(opaque: usize, alpha: usize) -> (b: Self)
        ensures
            b.wf(),
            b.opaque() == Seq::<Item>::empty(),
            b.alpha() == Seq::<Item>::empty(),
    {
        FrontToBackBuilder {
            opaque_items: Vec::with_capacity(opaque),
            alpha_items: Vec::with_capacity(alpha),
        }
    }

    /// The parts of `rect` that no opaque item covers.
    fn visible_parts(&self, rect: &Rect) -> (f: Fragments)
        requires
            self.wf(),
        ensures
            fragments_of(f) == visible_fragments(rects_of(self.opaque()), *rect),
    {
        let ghost ops = rects_of(self.opaque());
        let mut fragments = Fragments::new();
        if rect.is_empty() {
            proof {
                lemma_visible_from_none(ops, *rect, 0, ops.len());
            }
            return fragments;
        }
        fragments.push(*rect);
        assert(fragments_of(fragments) =~= visible_from(ops, *rect, 0));
        let n = self.opaque_items.len();
        let mut j: usize = 0;
        while j < n && fragments.len() > 0
            invariant
                j <= n == ops.len(),
                ops == rects_of(self.opaque()),
                self.wf(),
                fragments_of(fragments) == visible_from(ops, *rect, j as nat),
            decreases n - j,
        {
            let occluder = self.opaque_items[j].rectangle;
            assert(occluder == ops[j as int]);
            if occluder.intersects(rect) {
                apply_occluder(&occluder, &mut fragments);
            }
            j += 1;
        }
        proof {
            if j < n {
                lemma_visible_from_none(ops, *rect, j as nat, ops.len());
                assert(fragments_of(fragments) =~= visible_fragments(ops, *rect));
            }
        }
        fragments
    }

    /// Adds a rectangle: its parts that no opaque item covers are appended,
    /// tagged with `key`, to the opaque list if `is_opaque`, else to the alpha
    /// list.
    ///
    /// Returns whether some part of the rectangle is visible.
    pub fn add(&mut self, rect: &Rect, is_opaque: bool, key: u64) -> (visible: bool)
        requires
            old(self).wf(),
        ensures
            final(self).wf(),
            visible == is_visible(rects_of(old(self).opaque()), *rect),
            is_opaque ==> final(self).opaque() == old(self).opaque() + tagged(
                visible_fragments(rects_of(old(self).opaque()), *rect),
                key,
            ),
            is_opaque ==> final(self).alpha() == old(self).alpha(),
            !is_opaque ==> final(self).alpha() == old(self).alpha() + tagged(
                visible_fragments(rects_of(old(self).opaque()), *rect),
                key,
            ),
            !is_opaque ==> final(self).opaque() == old(self).opaque(),
            (final(self).opaque(), final(self).alpha()) == add_step(
                (old(self).opaque(), old(self).alpha()),
                (*rect, is_opaque, key),
            ),
    {
        let ghost ops = rects_of(self.opaque());
        let fragments = self.visible_parts(rect);
        let ghost f = fragments_of(fragments);
        proof {
            lemma_visible_fragments(ops, *rect);
        }
        if is_opaque {
            push_tagged(&mut self.opaque_items, &fragments, key);
            proof {
                assert(rects_of(self.opaque()) =~= ops + f);
                lemma_append_apart(ops, f, *rect);
            }
        } else {
            push_tagged(&mut self.alpha_items, &fragments, key);
            proof {
                let old_alpha = rects_of(old(self).alpha());
                assert(rects_of(self.alpha()) =~= old_alpha + f);
                assert forall|j: int| 0 <= j < (old_alpha + f).len() implies (#[trigger] (old_alpha
                    + f)[j]).has_area() by {
                    if j >= old_alpha.len() {
                        assert((old_alpha + f)[j] == f[j - old_alpha.len()]);
                    }
                }
            }
        }
        fragments.len() > 0
    }

    /// Whether some part of `rect` would be visible, without adding it.
    pub fn test(&self, rect: &Rect) -> (visible: bool)
        requires
            self.wf(),
        ensures
            visible == is_visible(rects_of(self.opaque()), *rect),
    {
        let fragments = self.visible_parts(rect);
        proof {
            lemma_visible_fragments(rects_of(self.opaque()), *rect);
        }
        fragments.len() > 0
    }

    /// The visible opaque items, in the order they were added.
    pub fn opaque_items(&self) -> (s: &[Item])
        ensures
            s@ == self.opaque(),
    {
        self.opaque_items.as_slice()
    }

    /// The visible non-opaque items, in the order they were added.
    pub fn alpha_items(&self) -> (s: &[Item])
        ensures
            s@ == self.alpha(),
    {
        self.alpha_items.as_slice()
    }

    /// Empties both lists, keeping their storage.
    pub fn clear(&mut self)
        ensures
            final(self).wf(),
            final(self).opaque() == Seq::<Item>::empty(),
            final(self).alpha() == Seq::<Item>::empty(),
    {
        self.opaque_items.clear();
        self.alpha_items.clear();
    }
}

/// A builder that culls rectangles submitted in back-to-front order.
///
/// Rectangles are only recorded by `add`; `build` replays them front to back
/// through a [`FrontToBackBuilder`]. Submitting front to back to that builder
/// directly is faster.
pub struct BackToFrontBuilder {
    commands: Vec<Command>,
    opaque_items: Vec<Item>,
    alpha_items: Vec<Item>,
}

impl BackToFrontBuilder {
    /// The rectangles recorded since the last build, in submission order.
    pub closed spec fn commands(&self) -> Seq<Command> {
        self.commands@
    }

    /// The visible opaque items of the last build.
    pub closed spec fn opaque(&self) -> Seq<Item> {
        self.opaque_items@
    }

    /// The visible non-opaque items of the last build, back to front.
    pub closed spec fn alpha(&self) -> Seq<Item> {
        self.alpha_items@
    }

    /// An empty builder.
    pub fn new() -> (b: Self)
        ensures
            b.commands() == Seq::<Command>::empty(),
            b.opaque() == Seq::<Item>::empty(),
            b.alpha() == Seq::<Item>::empty(),
    {
        BackToFrontBuilder { commands: Vec::new(), opaque_items: Vec::new(), alpha_items: Vec::new() }
    }

    /// Records a rectangle, in back-to-front order; the work is left to `build`.
    pub fn add(&mut self, rect: &Rect, is_opaque: bool, key: u64)
        ensures
            final(self).commands() == old(self).commands().push((*rect, is_opaque, key)),
            final(self).opaque() == old(self).opaque(),
            final(self).alpha() == old(self).alpha(),
    {
        self.commands.push((*rect, is_opaque, key));
    }

    /// Culls the rectangles recorded since the last build, replacing the
    /// results of any earlier build, and forgets them.
    pub fn build(&mut self)
        ensures
            final(self).commands() == Seq::<Command>::empty(),
            (final(self).opaque(), final(self).alpha()) == back_to_front(old(self).commands()),
    {
        let cap = self.commands.len();
        self.opaque_items.clear();
        self.opaque_items.reserve(cap);
        self.alpha_items.clear();
        self.alpha_items.reserve(cap);
        let mut builder = FrontToBackBuilder::new();
        std::mem::swap(&mut builder.opaque_items, &mut self.opaque_items);
        std::mem::swap(&mut builder.alpha_items, &mut self.alpha_items);
        let ghost rev = self.commands@.reverse();
        let mut k: usize = cap;
        assert(rev.take(0) =~= Seq::<Command>::empty());
        while k > 0
            invariant
                k <= cap == self.commands@.len() == rev.len(),
                rev == self.commands@.reverse(),
                builder.wf(),
                (builder.opaque(), builder.alpha()) == front_to_back(rev.take(cap - k)),
            decreases k,
        {
            k -= 1;
            let cmd = self.commands[k];
            builder.add(&cmd.0, cmd.1, cmd.2);
            assert(rev.take(cap - k).drop_last() =~= rev.take(cap - k - 1));
            assert(rev[cap - k - 1] == cmd);
        }
        assert(rev.take(cap as int) =~= rev);
        self.opaque_items = builder.opaque_items;
        self.alpha_items = builder.alpha_items;
        reverse_items(&mut self.alpha_items);
        self.commands.clear();
    }

    /// The visible opaque items of the last build.
    pub fn opaque_items(&self) -> (s: &[Item])
        ensures
            s@ == self.opaque(),
    {
        self.opaque_items.as_slice()
    }

    /// The visible non-opaque items of the last build, back to front.
    pub fn alpha_items(&self) -> (s: &[Item])
        ensures
            s@ == self.alpha(),
    {
        self.alpha_items.as_slice()
    }
}

} // verus!
