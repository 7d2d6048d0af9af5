use occlusion::diagram::key_shade;
use occlusion::{point2, BackToFrontBuilder, FrontToBackBuilder, Item, Rect};

fn rect(x0: i32, y0: i32, x1: i32, y1: i32) -> Rect {
    Rect { min: point2(x0, y0), max: point2(x1, y1) }
}

fn area(items: &[Item]) -> i64 {
    items
        .iter()
        .map(|i| (i.rectangle.max.x - i.rectangle.min.x) as i64 * (i.rectangle.max.y - i.rectangle.min.y) as i64)
        .sum()
}

fn assert_apart(items: &[Item]) {
    for (a, x) in items.iter().enumerate() {
        for (b, y) in items.iter().enumerate() {
            if a != b {
                assert!(!x.rectangle.intersects(&y.rectangle), "{:?} crosses {:?}", x, y);
            }
        }
    }
}

#[test]
fn basic() {
    let mut builder = FrontToBackBuilder::new();

    builder.add(&rect(0, 0, 100, 100), true, 0);
    builder.add(&rect(50, 50, 150, 150), false, 1);

    assert_eq!(builder.opaque_items(), &[Item { rectangle: rect(0, 0, 100, 100), key: 0 }]);
    assert_eq!(builder.alpha_items(), &[
        Item { rectangle: rect(100, 50, 150, 100), key: 1 },
        Item { rectangle: rect(50, 100, 150, 150), key: 1 },
    ]);
}

#[test]
fn fully_occluded_1() {
    let mut builder = FrontToBackBuilder::new();

    builder.add(&rect(0, 0, 100, 100), true, 0);
    builder.add(&rect(0, 0, 100, 100), false, 1);
    builder.add(&rect(10, 10, 90, 90), false, 2);

    assert!(builder.alpha_items().is_empty());
}

#[test]
fn fully_occluded_2() {
    let mut builder = FrontToBackBuilder::new();

    builder.add(&rect(0, 0, 100, 100), true, 0);
    builder.add(&rect(100, 0, 200, 100), true, 0);
    builder.add(&rect(0, 100, 100, 200), true, 0);
    builder.add(&rect(100, 100, 200, 200), true, 0);

    builder.add(&rect(0, 0, 200, 200), false, 1);
    builder.add(&rect(10, 10, 190, 190), false, 2);

    assert!(builder.alpha_items().is_empty());
}

#[test]
fn foo() {
    let mut builder = FrontToBackBuilder::new();

    builder.add(&rect(10, 60, 300, 300), true, 1);

    builder.add(&rect(100, 100, 350, 350), false, 6);

    builder.add(&rect(0, 50, 600, 500), true, 2);

    builder.add(&rect(0, 0, 200, 100), true, 3);
    builder.add(&rect(200, 0, 400, 100), true, 4);
    builder.add(&rect(400, 0, 600, 100), true, 5);

    println!("opaque: {:#?}", builder.opaque_items());
    println!("alpha: {:#?}", builder.alpha_items());

    assert_apart(builder.opaque_items());
    assert_eq!(area(builder.opaque_items()), 600 * 500);
}

#[test]
fn split_gives_four_bands_around_a_hole() {
    let mut builder = FrontToBackBuilder::new();
    builder.add(&rect(25, 25, 75, 75), true, 0);
    assert!(builder.add(&rect(0, 0, 100, 100), false, 7));
    assert_eq!(builder.alpha_items(), &[
        Item { rectangle: rect(75, 25, 100, 75), key: 7 },
        Item { rectangle: rect(0, 0, 100, 25), key: 7 },
        Item { rectangle: rect(0, 75, 100, 100), key: 7 },
        Item { rectangle: rect(0, 25, 25, 75), key: 7 },
    ]);
}

#[test]
fn touching_edges_do_not_occlude() {
    let mut builder = FrontToBackBuilder::new();
    builder.add(&rect(0, 0, 100, 100), true, 0);
    assert!(builder.add(&rect(100, 0, 200, 100), true, 1));
    assert_eq!(builder.opaque_items()[1], Item { rectangle: rect(100, 0, 200, 100), key: 1 });
}

#[test]
fn opaque_items_never_overlap() {
    let mut builder = FrontToBackBuilder::new();
    builder.add(&rect(0, 0, 50, 50), true, 0);
    builder.add(&rect(25, 25, 100, 100), true, 1);
    builder.add(&rect(-10, 40, 60, 70), true, 2);
    builder.add(&rect(0, 0, 120, 120), true, 3);
    assert_apart(builder.opaque_items());
}

#[test]
fn visible_area_is_conserved() {
    let mut builder = FrontToBackBuilder::new();
    builder.add(&rect(0, 0, 100, 100), true, 0);
    builder.add(&rect(50, 50, 150, 150), false, 1);
    assert_eq!(area(builder.alpha_items()), 100 * 100 - 50 * 50);
    assert!(builder.alpha_items().iter().all(|i| i.key == 1));
}

#[test]
fn opaque_coverage_is_the_union() {
    let mut builder = FrontToBackBuilder::new();
    builder.add(&rect(0, 0, 100, 100), true, 0);
    builder.add(&rect(50, 50, 150, 150), true, 1);
    builder.add(&rect(0, 120, 30, 200), true, 2);
    assert_eq!(area(builder.opaque_items()), 10000 + 10000 - 2500 + 30 * 80);
    assert_apart(builder.opaque_items());
}

#[test]
fn test_agrees_with_add() {
    let mut builder = FrontToBackBuilder::new();
    builder.add(&rect(0, 0, 100, 100), true, 0);
    let hidden = rect(10, 10, 90, 90);
    let shown = rect(90, 90, 110, 110);
    assert!(!builder.test(&hidden));
    assert!(builder.test(&shown));
    assert_eq!(builder.opaque_items().len(), 1);
    assert!(!builder.add(&hidden, false, 1));
    assert!(builder.add(&shown, false, 2));
}

#[test]
fn zero_area_rectangle_is_never_visible() {
    let mut builder = FrontToBackBuilder::new();
    assert!(!builder.test(&rect(5, 5, 5, 5)));
    assert!(!builder.add(&rect(5, 5, 5, 5), true, 0));
    assert!(!builder.add(&rect(0, 0, 0, 10), false, 1));
    assert!(builder.opaque_items().is_empty());
    assert!(builder.alpha_items().is_empty());
}

#[test]
fn clear_empties_both_lists() {
    let mut builder = FrontToBackBuilder::with_capacity(4, 4);
    builder.add(&rect(0, 0, 10, 10), true, 0);
    builder.add(&rect(0, 0, 20, 20), false, 1);
    builder.clear();
    assert!(builder.opaque_items().is_empty());
    assert!(builder.alpha_items().is_empty());
    assert!(builder.add(&rect(0, 0, 10, 10), false, 2));
}

#[test]
fn back_to_front_matches_reversed_front_to_back() {
    let scene = [
        (rect(0, 0, 300, 300), false, 1),
        (rect(50, 50, 150, 150), true, 2),
        (rect(100, 100, 250, 250), false, 3),
        (rect(120, 0, 200, 400), true, 4),
    ];
    let mut btf = BackToFrontBuilder::new();
    for (r, o, k) in scene.iter() {
        btf.add(r, *o, *k);
    }
    btf.build();

    let mut ftb = FrontToBackBuilder::new();
    for (r, o, k) in scene.iter().rev() {
        ftb.add(r, *o, *k);
    }
    assert_eq!(btf.opaque_items(), ftb.opaque_items());
    let reversed: Vec<Item> = ftb.alpha_items().iter().rev().cloned().collect();
    assert_eq!(btf.alpha_items(), &reversed[..]);
    assert!(!btf.alpha_items().is_empty());
}

#[test]
fn build_starts_over_each_time() {
    let mut btf = BackToFrontBuilder::new();
    btf.add(&rect(0, 0, 10, 10), true, 0);
    btf.build();
    assert_eq!(btf.opaque_items().len(), 1);
    btf.add(&rect(0, 0, 5, 5), false, 1);
    btf.build();
    assert!(btf.opaque_items().is_empty());
    assert_eq!(btf.alpha_items(), &[Item { rectangle: rect(0, 0, 5, 5), key: 1 }]);
    btf.build();
    assert!(btf.alpha_items().is_empty());
}

#[test]
fn key_shade_values() {
    assert_eq!(key_shade(0), 0);
    assert_eq!(key_shade(3), 11);
    assert_eq!(key_shade(u64::MAX), 55);
}

#[test]
fn extent_covers_all_items() {
    let mut builder = FrontToBackBuilder::new();
    assert_eq!(builder.extent(), (0, 0));
    builder.add(&rect(0, 0, 100, 40), true, 0);
    builder.add(&rect(10, 10, 60, 90), false, 1);
    assert_eq!(builder.extent(), (100, 90));
}
