use imanager::vptree::VPTree;

const SCALE: f64 = 1_000_000.0;

/// Euclidean distance in millionths, rounded up (rounding up keeps the triangle inequality).
fn euclid(a: &(f32, f32), b: &(f32, f32)) -> u64 {
    let dx = (a.0 - b.0) as f64;
    let dy = (a.1 - b.1) as f64;
    ((dx * dx + dy * dy).sqrt() * SCALE).ceil() as u64
}

fn close(units: u64, expected: f64) -> bool {
    (units as f64 / SCALE - expected).abs() < 1e-5
}

fn assert_entries(actual: &[(u64, (f32, f32))], expected: &[(f64, (f32, f32))]) {
    assert_eq!(actual.len(), expected.len());
    for (a, e) in actual.iter().zip(expected.iter()) {
        assert_eq!(a.1, e.1);
        assert!(close(a.0, e.0), "distance {} for {:?}, expected {}", a.0, a.1, e.0);
    }
}

fn points() -> Vec<(f32, f32)> {
    vec![
        (2.0, 3.0),
        (0.0, 1.0),
        (4.0, 5.0),
        (45.0, 43.0),
        (21.0, 20.0),
        (39.0, 44.0),
        (96.0, 46.0),
        (95.0, 32.0),
        (14.0, 63.0),
        (19.0, 81.0),
        (66.0, 36.0),
        (26.0, 64.0),
        (10.0, 21.0),
        (92.0, 84.0),
        (31.0, 55.0),
        (59.0, 4.0),
        (43.0, 11.0),
        (87.0, 56.0),
        (76.0, 52.0),
        (10.0, 55.0),
        (64.0, 97.0),
        (6.0, 4.0),
        (10.0, 68.0),
        (9.0, 8.0),
        (60.0, 61.0),
        (22.0, 26.0),
        (79.0, 52.0),
        (29.0, 98.0),
        (88.0, 60.0),
        (29.0, 97.0),
        (42.0, 20.0),
        (5.0, 57.0),
        (81.0, 58.0),
        (22.0, 70.0),
        (44.0, 47.0),
        (16.0, 6.0),
        (2.0, 19.0),
        (26.0, 59.0),
        (45.0, 34.0),
        (10.0, 37.0),
        (8.0, 46.0),
        (38.0, 6.0),
        (98.0, 83.0),
        (18.0, 79.0),
        (3.0, 81.0),
        (77.0, 40.0),
        (82.0, 93.0),
        (1.0, 65.0),
        (51.0, 86.0),
        (34.0, 10.0),
        (91.0, 16.0),
        (28.0, 33.0),
        (5.0, 93.0),
    ]
}

fn far_list() -> Vec<(f64, (f32, f32))> {
    vec![
        (3.6055512, (87.0, 56.0)),
        (5.0, (81.0, 58.0)),
        (5.3851647, (79.0, 52.0)),
        (7.2111025, (88.0, 60.0)),
        (8.246211, (76.0, 52.0)),
        (14.422205, (96.0, 46.0)),
        (15.652476, (77.0, 40.0)),
        (24.596748, (95.0, 32.0)),
        (25.0, (60.0, 61.0)),
        (25.455845, (66.0, 36.0)),
        (31.04835, (92.0, 84.0)),
        (32.202484, (98.0, 83.0)),
        (38.63936, (91.0, 16.0)),
        (39.051247, (82.0, 93.0)),
        (40.5216, (45.0, 43.0)),
        (40.60788, (44.0, 47.0)),
        (43.829212, (45.0, 34.0)),
        (45.96738, (51.0, 86.0)),
        (46.09772, (39.0, 44.0)),
        (47.423622, (64.0, 97.0)),
        (53.009434, (31.0, 55.0)),
        (54.037025, (42.0, 20.0)),
        (55.9017, (59.0, 4.0)),
        (58.21512, (26.0, 59.0)),
        (58.855755, (26.0, 64.0)),
        (59.413803, (43.0, 11.0)),
        (59.808025, (28.0, 33.0)),
        (64.03124, (22.0, 70.0)),
        (66.48308, (38.0, 6.0)),
        (66.6033, (34.0, 10.0)),
        (68.0294, (22.0, 26.0)),
        (69.81404, (29.0, 97.0)),
        (70.38466, (19.0, 81.0)),
        (70.434364, (29.0, 98.0)),
        (70.5762, (18.0, 79.0)),
        (70.5762, (14.0, 63.0)),
        (71.5891, (21.0, 20.0)),
        (74.00676, (10.0, 55.0)),
        (75.31268, (10.0, 68.0)),
        (75.9276, (10.0, 37.0)),
        (76.41989, (8.0, 46.0)),
        (79.05694, (5.0, 57.0)),
        (81.02469, (10.0, 21.0)),
        (83.23461, (16.0, 6.0)),
        (83.725746, (1.0, 65.0)),
        (85.3815, (3.0, 81.0)),
        (87.982956, (9.0, 8.0)),
        (88.10221, (5.0, 93.0)),
        (89.157166, (2.0, 19.0)),
        (92.64988, (6.0, 4.0)),
    ]
}

fn check_reference_set(mut tree: VPTree<(f32, f32), fn(&(f32, f32), &(f32, f32)) -> u64>) {
    let actual = tree.find_nearest_neighbor(&(69.0, 71.0)).unwrap();
    assert_eq!(actual.1, (60.0, 61.0));
    assert!(close(actual.0, 13.453624));

    let expected = vec![(4.2426405, (91.0, 16.0)), (13.038404, (95.0, 32.0))];
    let actual = tree.find_k_nearest_neighbors(&(94.0, 19.0), 2);
    assert_entries(&actual, &expected);

    // the threshold is the distance of the second entry, in the tree's own units
    let threshold = euclid(&(94.0, 19.0), &(95.0, 32.0));
    let actual = tree.find_neighbors_within_radius(&(94.0, 19.0), threshold);
    assert_entries(&actual, &expected);

    let expected = vec![
        (4.472136, (5.0, 57.0)),
        (6.708204, (10.0, 55.0)),
        (7.2111025, (1.0, 65.0)),
        (7.28011, (14.0, 63.0)),
        (7.615773, (10.0, 68.0)),
        (15.033297, (8.0, 46.0)),
        (17.492855, (22.0, 70.0)),
        (19.104973, (26.0, 59.0)),
        (19.235384, (26.0, 64.0)),
        (20.396078, (3.0, 81.0)),
    ];
    let actual = tree.find_k_nearest_neighbors(&(7.0, 61.0), 10);
    assert_entries(&actual, &expected);

    let threshold = euclid(&(7.0, 61.0), &(3.0, 81.0));
    let actual = tree.find_neighbors_within_radius(&(7.0, 61.0), threshold);
    assert_entries(&actual, &expected);

    let expected = far_list();
    let actual = tree.find_k_nearest_neighbors(&(84.0, 54.0), 50);
    assert_same_up_to_ties(&actual, &expected);

    let threshold = euclid(&(84.0, 54.0), &(6.0, 4.0));
    let within = tree.find_neighbors_within_radius(&(84.0, 54.0), threshold);
    assert_eq!(within, actual);
}

/// Entries at one distance come in the order the items were given, which the
/// expected list does not follow: compare each run of equal distances as a
/// set, every other entry in order (`reference_set_ties_follow_input_order`
/// checks the tie order itself).
fn assert_same_up_to_ties(actual: &[(u64, (f32, f32))], expected: &[(f64, (f32, f32))]) {
    assert_eq!(actual.len(), expected.len());
    let mut i = 0;
    while i < actual.len() {
        let mut j = i;
        while j < actual.len() && actual[j].0 == actual[i].0 {
            j += 1;
        }
        for a in &actual[i..j] {
            let e = expected[i..j].iter().find(|e| e.1 == a.1);
            assert!(e.is_some(), "{:?} is not expected among entries {}..{}", a, i, j);
            assert!(close(a.0, e.unwrap().0));
        }
        i = j;
    }
}

fn tree_over(items: &[(f32, f32)]) -> VPTree<(f32, f32), fn(&(f32, f32), &(f32, f32)) -> u64> {
    VPTree::new(items, euclid as fn(&(f32, f32), &(f32, f32)) -> u64)
}

fn check_tiny_trees() {
    let points = points();
    let mut tree = tree_over(&points[0..3]);
    let actual = tree.find_nearest_neighbor(&(69.0, 71.0)).unwrap();
    assert_eq!(actual.1, (4.0, 5.0));
    assert!(close(actual.0, 92.63369));
    let expected = vec![(91.08238, (4.0, 5.0)), (93.38094, (2.0, 3.0))];
    assert_entries(&tree.find_k_nearest_neighbors(&(94.0, 19.0), 2), &expected);

    let mut tree = tree_over(&points[0..2]);
    let actual = tree.find_nearest_neighbor(&(69.0, 71.0)).unwrap();
    assert_eq!(actual.1, (2.0, 3.0));
    assert!(close(actual.0, 95.462036));
    let expected = vec![(93.38094, (2.0, 3.0)), (95.707886, (0.0, 1.0))];
    assert_entries(&tree.find_k_nearest_neighbors(&(94.0, 19.0), 2), &expected);

    let mut tree = tree_over(&points[0..1]);
    let actual = tree.find_nearest_neighbor(&(69.0, 71.0)).unwrap();
    assert_eq!(actual.1, (2.0, 3.0));
    assert!(close(actual.0, 95.462036));
    let expected = vec![(93.38094, (2.0, 3.0))];
    assert_entries(&tree.find_k_nearest_neighbors(&(94.0, 19.0), 2), &expected);

    let mut tree = tree_over(&points[0..0]);
    assert_eq!(tree.find_nearest_neighbor(&(69.0, 71.0)), None);
    assert_eq!(tree.find_k_nearest_neighbors(&(94.0, 19.0), 2), vec![]);
}

#[test]
fn vptree_nearest_neigbor_search() {
    check_reference_set(tree_over(&points()));
}

#[test]
fn lib_nearest_neigbor_search() {
    check_reference_set(imanager::VPTree::new(&points(), euclid as fn(&(f32, f32), &(f32, f32)) -> u64));
}

#[test]
fn vptree_utility_functions() {
    let points = vec![(2.0, 3.0), (0.0, 1.0), (4.0, 5.0)];
    let mut tree = tree_over(&points);
    assert_eq!(tree.len(), 3);
    tree.insert((9.0, 8.0));
    assert_eq!(tree.len(), 4);
    tree.extend(vec![(19.0, 81.0), (66.0, 36.0)]);
    assert_eq!(tree.len(), 6);
}

#[test]
fn lib_utility_functions() {
    let points = vec![(2.0, 3.0), (0.0, 1.0), (4.0, 5.0)];
    let mut tree = imanager::VPTree::new(&points, euclid as fn(&(f32, f32), &(f32, f32)) -> u64);
    assert_eq!(tree.len(), 3);
    tree.insert((9.0, 8.0));
    assert_eq!(tree.len(), 4);
}

#[test]
fn vptree_tiny_tree() {
    check_tiny_trees();
}

#[test]
fn lib_tiny_tree() {
    check_tiny_trees();
}

#[test]
fn reference_set_after_inserts() {
    let points = points();
    let mut tree = tree_over(&points[0..10]);
    for p in &points[10..20] {
        tree.insert(*p);
    }
    tree.extend(points[20..].to_vec());
    assert_eq!(tree.len(), points.len());
    check_reference_set(tree);
}

#[test]
fn reference_set_from_empty() {
    let mut tree = VPTree::empty(euclid as fn(&(f32, f32), &(f32, f32)) -> u64);
    assert_eq!(tree.len(), 0);
    assert_eq!(tree.find_nearest_neighbor(&(1.0, 1.0)), None);
    tree.extend(points());
    check_reference_set(tree);
}

#[test]
fn reference_set_ties_follow_input_order() {
    // (14, 63) is given before (18, 79); both lie 70.5762 from (84, 54)
    let mut tree = tree_over(&points());
    let found = tree.find_k_nearest_neighbors(&(84.0, 54.0), 50);
    let a = found.iter().position(|e| e.1 == (14.0, 63.0)).unwrap();
    let b = found.iter().position(|e| e.1 == (18.0, 79.0)).unwrap();
    assert_eq!(found[a].0, found[b].0);
    assert_eq!(b, a + 1);
}
