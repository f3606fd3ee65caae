use region_quadtree::{Classification, EventType, Notification, Point2, RegionQuadtree, AABB2};

fn triples(events: &Vec<Notification>) -> Vec<(u64, EventType, Vec<u8>)> {
    let mut out = Vec::new();
    for n in events {
        out.push((n.observer, n.event, n.origin.clone()));
    }
    out
}

#[test]
fn new_different_resolutions() {
    let qt1 = RegionQuadtree::new(3, Some(3u32)).unwrap();
    assert_eq!(8, qt1.get_aabb().get_width());

    let qt2 = RegionQuadtree::new(-1i32 as u32, Some(3u32));
    assert!(qt2.is_none());

    let qt3 = RegionQuadtree::new(31, Some(3u32));
    assert!(qt3.is_some());

    let qt4 = RegionQuadtree::new(32, Some(3u32));
    assert!(qt4.is_none());
}

#[test]
fn whole_domain_scenario() {
    let mut t = RegionQuadtree::<u32>::new(3, None).unwrap();
    assert_eq!(t.get_aabb().get_width(), 8);
    assert_eq!(t.get_aabb().get_height(), 8);
    assert!(t.set(Some(5)));
    assert_eq!(t.classify(), Classification::UniformFull(5));
    assert!(!t.set(Some(5)));
    assert!(t.set(None));
    assert_eq!(t.classify(), Classification::UniformEmpty);
}

#[test]
fn set_twice_changes_once() {
    let mut t = RegionQuadtree::new(2, Some(1u32)).unwrap();
    assert!(t.set(Some(9)));
    assert!(!t.set(Some(9)));
    assert_eq!(t.classify(), Classification::UniformFull(9));
}

#[test]
fn set_then_clear() {
    let mut t = RegionQuadtree::new(4, Some(2u32)).unwrap();
    assert!(t.set(Some(6)));
    assert!(t.set(None));
    assert_eq!(t.classify(), Classification::UniformEmpty);
    assert!(!t.set(None));
}

#[test]
fn resolution_bounds() {
    let t = RegionQuadtree::<u32>::new(0, None).unwrap();
    assert_eq!(t.get_aabb().get_width(), 1);
    assert_eq!(t.get_resolution(), 0);
    let t = RegionQuadtree::<u32>::new(31, None).unwrap();
    assert_eq!(t.get_aabb().get_width(), 2147483648);
    assert!(RegionQuadtree::<u32>::new(32, None).is_none());
    assert!(RegionQuadtree::<u32>::new(u32::MAX, None).is_none());
}

#[test]
fn size_of_resolution() {
    assert_eq!(RegionQuadtree::<u32>::calculate_size(0), Some(1));
    assert_eq!(RegionQuadtree::<u32>::calculate_size(10), Some(1024));
    assert_eq!(RegionQuadtree::<u32>::calculate_size(31), Some(2147483648));
    assert_eq!(RegionQuadtree::<u32>::calculate_size(32), None);
    assert_eq!(RegionQuadtree::<u32>::calculate_size(100), None);
}

#[test]
fn quadrants_merge_when_uniform() {
    let mut t = RegionQuadtree::<u32>::new(2, None).unwrap();
    assert_eq!(t.set_at(&vec![0], Some(1)), Some(true));
    assert_eq!(t.classify(), Classification::Subdivided);
    assert_eq!(t.classify_at(&vec![0]), Some(Classification::UniformFull(1)));
    assert_eq!(t.classify_at(&vec![1]), Some(Classification::UniformEmpty));
    assert_eq!(t.set_at(&vec![1], Some(1)), Some(true));
    assert_eq!(t.set_at(&vec![2], Some(1)), Some(true));
    assert_eq!(t.classify(), Classification::Subdivided);
    assert_eq!(t.set_at(&vec![3], Some(1)), Some(true));
    assert_eq!(t.classify(), Classification::UniformFull(1));
    assert_eq!(t.classify_at(&vec![0]), None);
}

#[test]
fn deep_write_and_merge_back() {
    let mut t = RegionQuadtree::new(3, Some(7u32)).unwrap();
    assert_eq!(t.set_at(&vec![2, 1], None), Some(true));
    assert_eq!(t.classify(), Classification::Subdivided);
    assert_eq!(t.classify_at(&vec![2]), Some(Classification::Subdivided));
    assert_eq!(t.classify_at(&vec![2, 1]), Some(Classification::UniformEmpty));
    assert_eq!(t.get_region(&vec![2, 1, 3]), Some(Classification::UniformEmpty));
    assert_eq!(t.get_region(&vec![2, 0, 1]), Some(Classification::UniformFull(7)));
    assert_eq!(t.get_region(&vec![0]), Some(Classification::UniformFull(7)));
    assert_eq!(t.get_region(&vec![]), Some(Classification::Subdivided));
    assert_eq!(t.set_at(&vec![2, 1], Some(7)), Some(true));
    assert_eq!(t.classify(), Classification::UniformFull(7));
}

#[test]
fn write_inside_equal_leaf_changes_nothing() {
    let mut t = RegionQuadtree::new(3, Some(4u32)).unwrap();
    assert_eq!(t.set_at(&vec![1, 1, 1], Some(4)), Some(false));
    assert_eq!(t.classify(), Classification::UniformFull(4));
    assert!(t.take_events().is_empty());
}

#[test]
fn invalid_paths_rejected() {
    let mut t = RegionQuadtree::new(2, Some(4u32)).unwrap();
    assert_eq!(t.set_at(&vec![4], None), None);
    assert_eq!(t.set_at(&vec![0, 0, 0], None), None);
    assert_eq!(t.get_region(&vec![0, 9]), None);
    assert_eq!(t.classify_at(&vec![0]), None);
    assert!(!t.attach_observer(&vec![1], Some(3)));
    assert!(!t.propagate_event(EventType::Changed, &vec![1]));
    assert_eq!(t.classify(), Classification::UniformFull(4));
}

#[test]
fn events_reach_nearer_observers_first() {
    let mut t = RegionQuadtree::<u32>::new(3, None).unwrap();
    assert_eq!(t.set_at(&vec![1, 2], Some(9)), Some(true));
    assert!(t.attach_observer(&vec![], Some(10)));
    assert!(t.attach_observer(&vec![1], Some(20)));
    t.take_events();
    assert_eq!(t.set_at(&vec![1, 2], Some(4)), Some(true));
    let got = triples(&t.take_events());
    assert_eq!(
        got,
        vec![(20, EventType::Changed, vec![1, 2]), (10, EventType::Changed, vec![1, 2])]
    );
    assert!(t.take_events().is_empty());
}

#[test]
fn whole_set_reports_to_root_observer() {
    let mut t = RegionQuadtree::<u32>::new(1, None).unwrap();
    assert!(t.attach_observer(&vec![], Some(5)));
    assert!(t.set(Some(1)));
    assert!(t.set(Some(2)));
    assert!(!t.set(Some(2)));
    assert!(t.set(None));
    let got = triples(&t.take_events());
    assert_eq!(
        got,
        vec![
            (5, EventType::Added, vec![]),
            (5, EventType::Changed, vec![]),
            (5, EventType::Removing, vec![]),
        ]
    );
}

#[test]
fn merge_reports_at_promoted_node() {
    let mut t = RegionQuadtree::<u32>::new(1, None).unwrap();
    assert!(t.attach_observer(&vec![], Some(5)));
    assert_eq!(t.set_at(&vec![0], Some(2)), Some(true));
    assert_eq!(t.set_at(&vec![1], Some(2)), Some(true));
    assert_eq!(t.set_at(&vec![2], Some(2)), Some(true));
    assert_eq!(t.set_at(&vec![3], Some(2)), Some(true));
    let got = triples(&t.take_events());
    assert_eq!(
        got,
        vec![
            (5, EventType::Added, vec![0]),
            (5, EventType::Added, vec![1]),
            (5, EventType::Added, vec![2]),
            (5, EventType::Added, vec![3]),
            (5, EventType::Added, vec![]),
        ]
    );
    assert_eq!(t.classify(), Classification::UniformFull(2));
}

#[test]
fn subdividing_a_full_leaf_reports_removal() {
    let mut t = RegionQuadtree::new(1, Some(3u32)).unwrap();
    assert!(t.attach_observer(&vec![], Some(5)));
    assert_eq!(t.set_at(&vec![0], None), Some(true));
    let got = triples(&t.take_events());
    assert_eq!(
        got,
        vec![(5, EventType::Removing, vec![]), (5, EventType::Removing, vec![0])]
    );
    assert_eq!(t.get_region(&vec![1]), Some(Classification::UniformFull(3)));
}

#[test]
fn setting_a_subdivided_node_collapses_it() {
    let mut t = RegionQuadtree::<u32>::new(2, None).unwrap();
    assert_eq!(t.set_at(&vec![3, 0], Some(8)), Some(true));
    assert!(t.attach_observer(&vec![], Some(1)));
    t.take_events();
    assert!(t.set(Some(8)));
    assert_eq!(t.classify(), Classification::UniformFull(8));
    let got = triples(&t.take_events());
    assert_eq!(got.len(), 8);
    assert_eq!(got[0], (1, EventType::Added, vec![0]));
    assert_eq!(got[3], (1, EventType::Added, vec![3, 1]));
    assert_eq!(got[6], (1, EventType::Added, vec![3]));
    assert_eq!(got[7], (1, EventType::Added, vec![]));
}

#[test]
fn explicit_propagation() {
    let mut t = RegionQuadtree::<u32>::new(2, None).unwrap();
    assert_eq!(t.set_at(&vec![0, 0], Some(1)), Some(true));
    assert!(t.attach_observer(&vec![0, 0], Some(3)));
    assert!(t.attach_observer(&vec![], Some(4)));
    t.take_events();
    assert!(t.propagate_event(EventType::Changed, &vec![0, 0]));
    let got = triples(&t.take_events());
    assert_eq!(
        got,
        vec![(3, EventType::Changed, vec![0, 0]), (4, EventType::Changed, vec![0, 0])]
    );
}

#[test]
fn boxes_measure_their_sides() {
    let b = AABB2::new(Point2::new(2, 3), Point2::new(10, 7));
    assert_eq!(b.get_width(), 8);
    assert_eq!(b.get_height(), 4);
}

#[test]
fn node_regions_follow_quadrant_layout() {
    let t = RegionQuadtree::<u32>::new(3, None).unwrap();
    let root = t.get_node_aabb(&vec![]).unwrap();
    assert_eq!(root, AABB2::new(Point2::new(0, 0), Point2::new(8, 8)));
    let tl = t.get_node_aabb(&vec![0]).unwrap();
    assert_eq!(tl, AABB2::new(Point2::new(0, 0), Point2::new(4, 4)));
    let tr = t.get_node_aabb(&vec![1]).unwrap();
    assert_eq!(tr, AABB2::new(Point2::new(4, 0), Point2::new(8, 4)));
    let br = t.get_node_aabb(&vec![2]).unwrap();
    assert_eq!(br, AABB2::new(Point2::new(4, 4), Point2::new(8, 8)));
    let bl = t.get_node_aabb(&vec![3]).unwrap();
    assert_eq!(bl, AABB2::new(Point2::new(0, 4), Point2::new(4, 8)));
    let deep = t.get_node_aabb(&vec![2, 3, 1]).unwrap();
    assert_eq!(deep, AABB2::new(Point2::new(5, 6), Point2::new(6, 7)));
    assert_eq!(deep.get_width(), 1);
    assert_eq!(deep.get_height(), 1);
    assert!(t.get_node_aabb(&vec![0, 0, 0, 0]).is_none());
    assert!(t.get_node_aabb(&vec![5]).is_none());
}

#[test]
fn widest_domain_regions() {
    let t = RegionQuadtree::<u32>::new(31, None).unwrap();
    let br = t.get_node_aabb(&vec![2]).unwrap();
    assert_eq!(br.lower_bound, Point2::new(1073741824, 1073741824));
    assert_eq!(br.upper_bound, Point2::new(2147483648, 2147483648));
}

#[test]
fn new_quadrants_have_no_observer() {
    let mut t = RegionQuadtree::<u32>::new(2, None).unwrap();
    assert!(t.attach_observer(&vec![], Some(1)));
    assert_eq!(t.set_at(&vec![0, 1], Some(2)), Some(true));
    let got = triples(&t.take_events());
    assert_eq!(got, vec![(1, EventType::Added, vec![0, 1])]);
}

#[test]
fn detached_observer_hears_nothing() {
    let mut t = RegionQuadtree::<u32>::new(2, None).unwrap();
    assert!(t.attach_observer(&vec![], Some(1)));
    assert!(t.attach_observer(&vec![], None));
    assert!(t.set(Some(3)));
    assert!(t.take_events().is_empty());
    assert_eq!(t.classify(), Classification::UniformFull(3));
}

#[test]
fn width_and_height_need_only_their_own_axis() {
    let b = AABB2::new(Point2::new(1, 9), Point2::new(5, 2));
    assert_eq!(b.get_width(), 4);
    let c = AABB2::new(Point2::new(7, 2), Point2::new(3, 8));
    assert_eq!(c.get_height(), 6);
}
