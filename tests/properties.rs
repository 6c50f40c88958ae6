use imanager::VPTree;

type Point = (i64, i64);

/// Manhattan distance: a metric on integer points.
fn manhattan(a: &Point, b: &Point) -> u64 {
    a.0.abs_diff(b.0) + a.1.abs_diff(b.1)
}

type Metric = fn(&Point, &Point) -> u64;

fn tree_over(items: &[Point]) -> VPTree<Point, Metric> {
    VPTree::new(items, manhattan as Metric)
}

/// A reproducible scatter of points, duplicates included.
fn scatter(count: usize, seed: u64) -> Vec<Point> {
    let mut state = seed;
    let mut out = Vec::with_capacity(count);
    for _ in 0..count {
        state = state.wrapping_mul(6364136223846793005).wrapping_add(1442695040888963407);
        let x = ((state >> 33) % 200) as i64 - 100;
        state = state.wrapping_mul(6364136223846793005).wrapping_add(1442695040888963407);
        let y = ((state >> 33) % 200) as i64 - 100;
        out.push((x, y));
    }
    out
}

fn brute_sorted(items: &[Point], needle: &Point) -> Vec<(u64, Point)> {
    let mut all: Vec<(u64, Point)> = items.iter().map(|p| (manhattan(needle, p), *p)).collect();
    all.sort();
    all
}

fn sorted_copy(v: &[(u64, Point)]) -> Vec<(u64, Point)> {
    let mut v = v.to_vec();
    v.sort();
    v
}

#[test]
fn nearest_matches_linear_scan() {
    for (count, seed) in [(1usize, 1u64), (7, 2), (40, 3), (333, 4), (1000, 5)] {
        let items = scatter(count, seed);
        let mut tree = tree_over(&items);
        for needle in scatter(25, seed + 100) {
            let brute = brute_sorted(&items, &needle);
            let (d, p) = tree.find_nearest_neighbor(&needle).unwrap();
            assert_eq!(d, brute[0].0);
            assert_eq!(manhattan(&needle, &p), d);
            assert!(items.contains(&p));
        }
    }
}

#[test]
fn k_nearest_matches_linear_scan() {
    for (count, seed) in [(5usize, 11u64), (60, 12), (500, 13)] {
        let items = scatter(count, seed);
        let mut tree = tree_over(&items);
        for needle in scatter(10, seed + 100) {
            let brute = brute_sorted(&items, &needle);
            for k in [0usize, 1, 2, 9, count, count + 3] {
                let got = tree.find_k_nearest_neighbors(&needle, k);
                assert_eq!(got.len(), k.min(count));
                let got_d: Vec<u64> = got.iter().map(|e| e.0).collect();
                let want_d: Vec<u64> = brute.iter().take(k).map(|e| e.0).collect();
                assert_eq!(got_d, want_d);
                for e in &got {
                    assert_eq!(manhattan(&needle, &e.1), e.0);
                }
            }
        }
    }
}

#[test]
fn radius_matches_linear_scan() {
    for (count, seed) in [(3usize, 21u64), (90, 22), (700, 23)] {
        let items = scatter(count, seed);
        let mut tree = tree_over(&items);
        for needle in scatter(10, seed + 100) {
            let brute = brute_sorted(&items, &needle);
            for threshold in [0u64, 5, 30, 90, 1000] {
                let got = tree.find_neighbors_within_radius(&needle, threshold);
                for w in got.windows(2) {
                    assert!(w[0].0 <= w[1].0);
                }
                let want: Vec<(u64, Point)> = brute.iter().copied().filter(|e| e.0 <= threshold).collect();
                assert_eq!(sorted_copy(&got), want);
            }
        }
    }
}

#[test]
fn repeated_queries_agree() {
    let items = scatter(200, 31);
    let mut tree = tree_over(&items);
    let needle = (3, -4);
    assert_eq!(tree.find_nearest_neighbor(&needle), tree.find_nearest_neighbor(&needle));
    assert_eq!(tree.find_k_nearest_neighbors(&needle, 7), tree.find_k_nearest_neighbors(&needle, 7));
    assert_eq!(
        tree.find_neighbors_within_radius(&needle, 40),
        tree.find_neighbors_within_radius(&needle, 40)
    );
    let before = tree.find_k_nearest_neighbors(&needle, 12);
    tree.extend(Vec::new());
    assert_eq!(tree.find_k_nearest_neighbors(&needle, 12), before);
}

#[test]
fn size_counts_buffered_items() {
    let items = scatter(30, 41);
    let mut tree = tree_over(&items);
    assert_eq!(tree.len(), 30);
    tree.insert((1000, 1000));
    tree.extend(scatter(12, 42));
    assert_eq!(tree.len(), 43);
    tree.update();
    assert_eq!(tree.len(), 43);
}

#[test]
fn inserted_items_are_found_after_rebuild() {
    let mut tree = tree_over(&scatter(50, 51));
    tree.insert((500, 500));
    tree.extend(vec![(-500, -500), (501, 502)]);
    assert_eq!(tree.find_nearest_neighbor(&(499, 499)), Some((2, (500, 500))));
    assert_eq!(tree.find_nearest_neighbor(&(-499, -500)), Some((1, (-500, -500))));
    assert_eq!(
        tree.find_k_nearest_neighbors(&(500, 500), 2),
        vec![(0, (500, 500)), (3, (501, 502))]
    );
}

#[test]
fn empty_tree_answers_nothing() {
    let mut tree = tree_over(&[]);
    assert_eq!(tree.len(), 0);
    assert_eq!(tree.find_nearest_neighbor(&(0, 0)), None);
    assert_eq!(tree.find_k_nearest_neighbors(&(0, 0), 3), vec![]);
    assert_eq!(tree.find_neighbors_within_radius(&(0, 0), u64::MAX), vec![]);
    let mut tree: VPTree<Point, Metric> = VPTree::empty(manhattan as Metric);
    assert_eq!(tree.find_k_nearest_neighbors(&(0, 0), 0), vec![]);
}

#[test]
fn single_item_tree_answers_that_item() {
    let mut tree = tree_over(&[(3, 4)]);
    assert_eq!(tree.find_nearest_neighbor(&(0, 0)), Some((7, (3, 4))));
    for k in [1usize, 2, 50] {
        assert_eq!(tree.find_k_nearest_neighbors(&(0, 0), k), vec![(7, (3, 4))]);
    }
    assert_eq!(tree.find_k_nearest_neighbors(&(0, 0), 0), vec![]);
    assert_eq!(tree.find_neighbors_within_radius(&(0, 0), 7), vec![(7, (3, 4))]);
    assert_eq!(tree.find_neighbors_within_radius(&(0, 0), 6), vec![]);
    assert_eq!(tree.find_neighbors_within_radius(&(0, 0), u64::MAX), vec![(7, (3, 4))]);
}

#[test]
fn equal_items_are_all_kept() {
    let items = vec![(1, 1); 30];
    let mut tree = tree_over(&items);
    assert_eq!(tree.find_k_nearest_neighbors(&(0, 0), 40).len(), 30);
    assert_eq!(tree.find_neighbors_within_radius(&(0, 0), 2).len(), 30);
    assert_eq!(tree.find_neighbors_within_radius(&(0, 0), 1), vec![]);
}

#[test]
fn k_nearest_results_come_sorted() {
    let items = vec![(9, 0), (1, 0), (5, 0), (3, 0), (7, 0)];
    let mut tree = tree_over(&items);
    assert_eq!(
        tree.find_k_nearest_neighbors(&(0, 0), 10),
        vec![(1, (1, 0)), (3, (3, 0)), (5, (5, 0)), (7, (7, 0)), (9, (9, 0))]
    );
    assert_eq!(
        tree.find_k_nearest_neighbors(&(0, 0), 3),
        vec![(1, (1, 0)), (3, (3, 0)), (5, (5, 0))]
    );
}

#[test]
fn equally_built_trees_answer_alike() {
    // many ties: a coarse grid
    let items: Vec<Point> = scatter(300, 61).into_iter().map(|p| (p.0 / 20, p.1 / 20)).collect();
    let mut a = tree_over(&items);
    let mut b = tree_over(&items);
    for needle in scatter(10, 62).into_iter().map(|p| (p.0 / 20, p.1 / 20)) {
        assert_eq!(a.find_nearest_neighbor(&needle), b.find_nearest_neighbor(&needle));
        assert_eq!(a.find_k_nearest_neighbors(&needle, 15), b.find_k_nearest_neighbors(&needle, 15));
        assert_eq!(a.find_neighbors_within_radius(&needle, 3), b.find_neighbors_within_radius(&needle, 3));
    }
}

#[test]
fn ties_go_to_the_item_given_first() {
    let items = vec![(5, 5), (1, 0), (0, 1), (-1, 0), (0, -1)];
    let mut tree = tree_over(&items);
    assert_eq!(tree.find_nearest_neighbor(&(0, 0)), Some((1, (1, 0))));
    assert_eq!(
        tree.find_k_nearest_neighbors(&(0, 0), 3),
        vec![(1, (1, 0)), (1, (0, 1)), (1, (-1, 0))]
    );
    assert_eq!(
        tree.find_neighbors_within_radius(&(0, 0), 1),
        vec![(1, (1, 0)), (1, (0, 1)), (1, (-1, 0)), (1, (0, -1))]
    );
    let mut later = tree_over(&[(0, -1), (-1, 0), (5, 5)]);
    later.insert((0, 1));
    assert_eq!(later.find_nearest_neighbor(&(0, 0)), Some((1, (0, -1))));
}
