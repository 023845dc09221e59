use raytracer_rs::hit_list::{HitList, HitRec};

fn rec(t: f32, obj: usize) -> HitRec {
    HitRec::new(t.to_bits(), obj)
}

fn ts(list: &HitList) -> Vec<f32> {
    (0..list.len()).map(|i| f32::from_bits(list.get(i).t_bits)).collect()
}

#[test]
fn hit_with_positive_t() {
    let mut xs = HitList::new(vec![rec(1.0, 0), rec(2.0, 0)]);

    assert_eq!(xs.hit(), Some(&rec(1.0, 0)));
}

#[test]
fn hit_with_negative_t() {
    {
        let mut xs = HitList::new(vec![rec(-1.0, 0), rec(1.0, 0)]);

        assert_eq!(xs.hit(), Some(&rec(1.0, 0)));
    }

    {
        let mut xs = HitList::new(vec![rec(-2.0, 0), rec(-1.0, 0)]);

        assert_eq!(xs.hit(), None);
    }
}

#[test]
fn hit_with_t_in_random_order() {
    let mut xs = HitList::new(vec![rec(5.0, 0), rec(7.0, 0), rec(-3.0, 0), rec(2.0, 0)]);

    assert_eq!(xs.hit(), Some(&rec(2.0, 0)));
}

#[test]
fn hit_from_inside_picks_the_forward_root() {
    // a ray from the centre of a unit sphere meets it at t = -1 and t = 1
    let mut xs = HitList::new(vec![rec(-1.0, 3), rec(1.0, 3)]);

    let h = *xs.hit().unwrap();
    assert_eq!(f32::from_bits(h.t_bits), 1.0);
    assert_eq!(h.obj, 3);
}

#[test]
fn hit_on_empty_list_is_none() {
    let mut xs = HitList::new(Vec::new());

    assert!(xs.is_empty());
    assert_eq!(xs.hit(), None);
}

#[test]
fn hit_takes_negative_zero_as_visible() {
    let mut xs = HitList::new(vec![rec(-1.0, 0), rec(-0.0, 1), rec(3.0, 2)]);

    assert_eq!(xs.hit(), Some(&rec(-0.0, 1)));
}

#[test]
fn hit_skips_nan() {
    let mut xs = HitList::new(vec![rec(f32::NAN, 0), rec(4.0, 1)]);
    assert_eq!(xs.hit(), Some(&rec(4.0, 1)));

    let mut ys = HitList::new(vec![rec(f32::NAN, 0), rec(-4.0, 1)]);
    assert_eq!(ys.hit(), None);
}

#[test]
fn hit_leaves_list_sorted() {
    let mut xs = HitList::new(vec![rec(5.0, 0), rec(-3.0, 1), rec(2.0, 2)]);

    assert!(xs.hit().is_some());
    assert_eq!(ts(&xs), vec![-3.0, 2.0, 5.0]);
}

#[test]
fn sort_orders_by_t() {
    let mut xs = HitList::new(vec![
        rec(6.0, 0),
        rec(-0.5, 1),
        rec(4.5, 2),
        rec(f32::INFINITY, 3),
        rec(-7.25, 4),
        rec(4.0, 5),
        rec(f32::NEG_INFINITY, 6),
    ]);
    xs.sort();

    assert_eq!(
        ts(&xs),
        vec![f32::NEG_INFINITY, -7.25, -0.5, 4.0, 4.5, 6.0, f32::INFINITY]
    );
    assert_eq!(xs.get(0).obj, 6);
    assert_eq!(xs.get(3).obj, 5);
}

#[test]
fn sort_keeps_equal_records() {
    let mut xs = HitList::new(vec![rec(5.0, 1), rec(5.0, 0), rec(1.0, 2)]);
    xs.sort();

    let recs = xs.into_inner();
    assert_eq!(recs.len(), 3);
    assert_eq!(recs[0], rec(1.0, 2));
    assert!(recs.contains(&rec(5.0, 0)));
    assert!(recs.contains(&rec(5.0, 1)));
}

#[test]
fn combine_sorts_hits_of_all_objects() {
    // a unit sphere and one of radius 0.5, both at the origin, seen from z = -5
    let outer = HitList::new(vec![rec(4.0, 0), rec(6.0, 0)]);
    let inner = HitList::new(vec![rec(4.5, 1), rec(5.5, 1)]);

    let xs = HitList::combine(vec![outer, inner]);

    assert_eq!(xs.len(), 4);
    assert_eq!(ts(&xs), vec![4.0, 4.5, 5.5, 6.0]);
    assert_eq!(xs.get(1).obj, 1);
    assert_eq!(xs.get(3).obj, 0);
}

#[test]
fn combine_of_misses_is_empty() {
    let xs = HitList::combine(vec![HitList::new(Vec::new()), HitList::new(Vec::new())]);
    assert!(xs.is_empty());

    let ys = HitList::combine(Vec::new());
    assert_eq!(ys.len(), 0);
}

#[test]
fn new_keeps_order_and_into_inner_returns_it() {
    let recs = vec![rec(3.0, 0), rec(1.0, 1)];
    let xs = HitList::new(recs.clone());

    assert_eq!(xs.len(), 2);
    assert!(!xs.is_empty());
    assert_eq!(*xs.get(0), rec(3.0, 0));
    assert_eq!(xs.into_inner(), recs);
}
