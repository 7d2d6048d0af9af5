//! What holds of the builders across calls.
use crate::builder::{
    add_step, all_have_area, back_to_front, front_to_back, is_visible, lemma_append_apart,
    lemma_visible_fragments, rects_of, tagged, visible_fragments, Command, FrontToBackBuilder, Item,
};
use crate::geom::{covered, lemma_overlaps_iff_crosses, pairwise_apart, Rect};
use vstd::prelude::*;

verus! {

/// No two opaque items of a well-formed front-to-back builder share a cell;
/// `new`, `with_capacity`, `add` and `clear` all leave the builder well formed.
pub proof fn law_opaque_items_do_not_overlap(b: FrontToBackBuilder)
    requires
        b.wf(),
    ensures
        forall|i: int, j: int|
            0 <= i < b.opaque().len() && 0 <= j < b.opaque().len() && i != j ==> !(
            #[trigger] b.opaque()[i]).rectangle.overlaps(#[trigger] b.opaque()[j].rectangle),
{
    let rs = rects_of(b.opaque());
    assert forall|i: int, j: int|
        0 <= i < b.opaque().len() && 0 <= j < b.opaque().len() && i != j implies !(
        #[trigger] b.opaque()[i]).rectangle.overlaps(#[trigger] b.opaque()[j].rectangle) by {
        assert(rs[i] == b.opaque()[i].rectangle && rs[j] == b.opaque()[j].rectangle);
        assert(rs[i].has_area() && rs[j].has_area());
        lemma_overlaps_iff_crosses(rs[i], rs[j]);
    }
}

/// The items that one `add` appends carry its key and cover exactly the cells
/// of the rectangle that no earlier opaque item covers: no cell is gained or
/// lost. They do not overlap each other.
pub proof fn law_visibility_conservation(opaque: Seq<Item>, rect: Rect, key: u64)
    requires
        all_have_area(rects_of(opaque)),
    ensures
        forall|i: int|
            0 <= i < tagged(visible_fragments(rects_of(opaque), rect), key).len() ==> (
            #[trigger] tagged(visible_fragments(rects_of(opaque), rect), key)[i]).key == key,
        forall|x: int, y: int| #[trigger]
            covered(rects_of(tagged(visible_fragments(rects_of(opaque), rect), key)), x, y) == (
            rect.covers(x, y) && !covered(rects_of(opaque), x, y)),
        pairwise_apart(rects_of(tagged(visible_fragments(rects_of(opaque), rect), key))),
{
    let f = visible_fragments(rects_of(opaque), rect);
    lemma_visible_fragments(rects_of(opaque), rect);
    assert(rects_of(tagged(f, key)) =~= f);
}

/// A rectangle without area leaves no fragment and is never visible.
pub proof fn law_no_area_is_never_visible(opaque: Seq<Rect>, rect: Rect)
    requires
        all_have_area(opaque),
        !rect.has_area(),
    ensures
        visible_fragments(opaque, rect).len() == 0,
        !is_visible(opaque, rect),
{
    lemma_visible_fragments(opaque, rect);
    if is_visible(opaque, rect) {
        let (x, y) = choose|x: int, y: int| rect.covers(x, y) && !covered(opaque, x, y);
        assert(rect.covers(x, y));
    }
}

/// The opaque rectangles among `cmds`, added front to back, leave an opaque
/// list whose items have area, do not cross, and cover exactly the union of
/// those rectangles, however they were cut.
pub proof fn law_opaque_coverage_is_union(cmds: Seq<Command>)
    ensures
        all_have_area(rects_of(front_to_back(cmds).0)),
        pairwise_apart(rects_of(front_to_back(cmds).0)),
        forall|x: int, y: int| #[trigger]
            covered(rects_of(front_to_back(cmds).0), x, y) == exists|i: int|
                0 <= i < cmds.len() && cmds[i].1 && (#[trigger] cmds[i].0).covers(x, y),
    decreases cmds.len(),
{
    if cmds.len() == 0 {
        assert(rects_of(front_to_back(cmds).0) =~= Seq::<Rect>::empty());
    } else {
        let prev = cmds.drop_last();
        let cmd = cmds.last();
        law_opaque_coverage_is_union(prev);
        let ops = rects_of(front_to_back(prev).0);
        let f = visible_fragments(ops, cmd.0);
        lemma_visible_fragments(ops, cmd.0);
        let now = rects_of(front_to_back(cmds).0);
        if cmd.1 {
            assert(now =~= ops + rects_of(tagged(f, cmd.2)));
            assert(rects_of(tagged(f, cmd.2)) =~= f);
            lemma_append_apart(ops, f, cmd.0);
            assert forall|x: int, y: int| #[trigger]
                covered(now, x, y) == exists|i: int|
                    0 <= i < cmds.len() && cmds[i].1 && (#[trigger] cmds[i].0).covers(x, y) by {
                assert(covered(ops, x, y) == exists|i: int|
                    0 <= i < prev.len() && prev[i].1 && (#[trigger] prev[i].0).covers(x, y));
                assert(cmds[cmds.len() - 1] == cmd);
                assert(covered(f, x, y) == (cmd.0.covers(x, y) && !covered(ops, x, y)));
                if covered(now, x, y) {
                    let j = choose|j: int| 0 <= j < now.len() && now[j].covers(x, y);
                    if j < ops.len() {
                        assert(now[j] == ops[j]);
                        let i = choose|i: int|
                            0 <= i < prev.len() && prev[i].1 && (#[trigger] prev[i].0).covers(x, y);
                        assert(cmds[i] == prev[i]);
                    } else {
                        assert(now[j] == f[j - ops.len()]);
                        assert(covered(f, x, y));
                    }
                }
                if exists|i: int| 0 <= i < cmds.len() && cmds[i].1 && (#[trigger] cmds[i].0).covers(x, y) {
                    let i = choose|i: int|
                        0 <= i < cmds.len() && cmds[i].1 && (#[trigger] cmds[i].0).covers(x, y);
                    if i < prev.len() {
                        assert(prev[i] == cmds[i]);
                        let j = choose|j: int| 0 <= j < ops.len() && ops[j].covers(x, y);
                        assert(now[j] == ops[j]);
                    } else if !covered(ops, x, y) {
                        let q = choose|q: int| 0 <= q < f.len() && f[q].covers(x, y);
                        assert(now[ops.len() + q] == f[q]);
                    } else {
                        let j = choose|j: int| 0 <= j < ops.len() && ops[j].covers(x, y);
                        assert(now[j] == ops[j]);
                    }
                }
            }
        } else {
            assert(now == ops);
            assert forall|x: int, y: int| #[trigger]
                covered(now, x, y) == exists|i: int|
                    0 <= i < cmds.len() && cmds[i].1 && (#[trigger] cmds[i].0).covers(x, y) by {
                assert(covered(ops, x, y) == exists|i: int|
                    0 <= i < prev.len() && prev[i].1 && (#[trigger] prev[i].0).covers(x, y));
                if exists|i: int| 0 <= i < cmds.len() && cmds[i].1 && (#[trigger] cmds[i].0).covers(x, y) {
                    let i = choose|i: int|
                        0 <= i < cmds.len() && cmds[i].1 && (#[trigger] cmds[i].0).covers(x, y);
                    assert(i != cmds.len() - 1);
                    assert(prev[i] == cmds[i]);
                }
                if covered(ops, x, y) {
                    let i = choose|i: int|
                        0 <= i < prev.len() && prev[i].1 && (#[trigger] prev[i].0).covers(x, y);
                    assert(cmds[i] == prev[i]);
                }
            }
        }
    }
}

/// Adding `cmds` one after the other to a front-to-back builder that starts
/// empty, as `add` does, leaves the lists `front_to_back(cmds)`.
pub proof fn law_front_to_back_run(cmds: Seq<Command>, states: Seq<(Seq<Item>, Seq<Item>)>)
    requires
        states.len() == cmds.len() + 1,
        states[0] == (Seq::<Item>::empty(), Seq::<Item>::empty()),
        forall|i: int| 0 <= i < cmds.len() ==> states[i + 1] == add_step(#[trigger] states[i], cmds[i]),
    ensures
        states.last() == front_to_back(cmds),
    decreases cmds.len(),
{
    if cmds.len() > 0 {
        let n = cmds.len() - 1;
        law_front_to_back_run(cmds.drop_last(), states.drop_last());
        assert(states[n + 1] == add_step(states[n], cmds[n]));
    }
}

/// Submitting a scene back to front and building gives the opaque list of the
/// same scene submitted in reverse order to a front-to-back builder, and the
/// exact reverse of its alpha list.
pub proof fn law_back_to_front_matches_front_to_back(
    scene: Seq<Command>,
    states: Seq<(Seq<Item>, Seq<Item>)>,
)
    requires
        states.len() == scene.len() + 1,
        states[0] == (Seq::<Item>::empty(), Seq::<Item>::empty()),
        forall|i: int|
            0 <= i < scene.len() ==> states[i + 1] == add_step(
                #[trigger] states[i],
                scene.reverse()[i],
            ),
    ensures
        back_to_front(scene).0 == states.last().0,
        back_to_front(scene).1 == states.last().1.reverse(),
{
    law_front_to_back_run(scene.reverse(), states);
}

} // verus!
