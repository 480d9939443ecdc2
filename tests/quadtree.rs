use physics::quadtree::{get_quadrant, QuadTreeNode, Quadrant, Side};

fn leaf(node: &QuadTreeNode) -> Vec<usize> {
    match node {
        QuadTreeNode::Leaf { particles } => particles.clone(),
        QuadTreeNode::Internal { .. } => panic!("expected a leaf"),
    }
}

fn children(node: &QuadTreeNode) -> [&QuadTreeNode; 4] {
    match node {
        QuadTreeNode::Internal { upper_right, upper_left, lower_left, lower_right } => {
            [upper_right, upper_left, lower_left, lower_right]
        }
        QuadTreeNode::Leaf { .. } => panic!("expected an internal node"),
    }
}

fn all_leaf_particles(node: &QuadTreeNode, out: &mut Vec<usize>) {
    match node {
        QuadTreeNode::Leaf { particles } => out.extend(particles.iter().copied()),
        QuadTreeNode::Internal { .. } => {
            for c in children(node) {
                all_leaf_particles(c, out);
            }
        }
    }
}

#[test]
fn quadrant_strict_sides() {
    assert_eq!(get_quadrant(Side::Above, Side::Above), Quadrant::UpperRight);
    assert_eq!(get_quadrant(Side::Below, Side::Above), Quadrant::UpperLeft);
    assert_eq!(get_quadrant(Side::Below, Side::Below), Quadrant::LowerLeft);
    assert_eq!(get_quadrant(Side::Above, Side::Below), Quadrant::LowerRight);
}

#[test]
fn quadrant_ties_go_to_first_matching() {
    assert_eq!(get_quadrant(Side::Equal, Side::Equal), Quadrant::UpperRight);
    assert_eq!(get_quadrant(Side::Equal, Side::Above), Quadrant::UpperRight);
    assert_eq!(get_quadrant(Side::Above, Side::Equal), Quadrant::UpperRight);
    assert_eq!(get_quadrant(Side::Below, Side::Equal), Quadrant::UpperLeft);
    assert_eq!(get_quadrant(Side::Equal, Side::Below), Quadrant::LowerLeft);
}

#[test]
fn quadrant_unordered_goes_last() {
    assert_eq!(get_quadrant(Side::Unordered, Side::Above), Quadrant::LowerRight);
    assert_eq!(get_quadrant(Side::Below, Side::Unordered), Quadrant::LowerRight);
    assert_eq!(get_quadrant(Side::Unordered, Side::Unordered), Quadrant::LowerRight);
}

#[test]
fn empty_ensemble_is_an_empty_leaf() {
    let t = QuadTreeNode::build(&vec![]);
    assert_eq!(leaf(&t), Vec::<usize>::new());
}

#[test]
fn single_particle_is_a_leaf() {
    let t = QuadTreeNode::build(&vec![vec![Quadrant::LowerLeft, Quadrant::UpperRight]]);
    assert_eq!(leaf(&t), vec![0]);
}

#[test]
fn two_particles_in_different_quadrants() {
    let paths = vec![
        vec![Quadrant::UpperRight, Quadrant::UpperRight],
        vec![Quadrant::LowerLeft, Quadrant::UpperRight],
    ];
    let t = QuadTreeNode::build(&paths);
    let c = children(&t);
    assert_eq!(leaf(c[0]), vec![0]);
    assert_eq!(leaf(c[1]), Vec::<usize>::new());
    assert_eq!(leaf(c[2]), vec![1]);
    assert_eq!(leaf(c[3]), Vec::<usize>::new());
}

#[test]
fn shared_quadrant_subdivides_again() {
    let paths = vec![
        vec![Quadrant::UpperLeft, Quadrant::LowerRight, Quadrant::UpperRight],
        vec![Quadrant::UpperLeft, Quadrant::UpperLeft, Quadrant::UpperRight],
        vec![Quadrant::LowerRight, Quadrant::LowerRight, Quadrant::UpperRight],
    ];
    let t = QuadTreeNode::build(&paths);
    let top = children(&t);
    assert_eq!(leaf(top[0]), Vec::<usize>::new());
    assert_eq!(leaf(top[2]), Vec::<usize>::new());
    assert_eq!(leaf(top[3]), vec![2]);
    let inner = children(top[1]);
    assert_eq!(leaf(inner[0]), Vec::<usize>::new());
    assert_eq!(leaf(inner[1]), vec![1]);
    assert_eq!(leaf(inner[2]), Vec::<usize>::new());
    assert_eq!(leaf(inner[3]), vec![0]);
}

#[test]
fn coincident_particles_share_the_deepest_leaf() {
    let path = vec![Quadrant::LowerRight, Quadrant::UpperLeft];
    let t = QuadTreeNode::build(&vec![path.clone(), path.clone(), path]);
    let level1 = children(&t);
    let level2 = children(level1[3]);
    assert_eq!(leaf(level2[1]), vec![0, 1, 2]);
    assert_eq!(leaf(level2[0]), Vec::<usize>::new());
}

#[test]
fn short_path_stops_subdivision() {
    let paths = vec![vec![Quadrant::UpperRight, Quadrant::LowerLeft], vec![Quadrant::UpperRight]];
    let t = QuadTreeNode::build(&paths);
    let level1 = children(&t);
    assert_eq!(leaf(level1[0]), vec![0, 1]);
}

#[test]
fn every_particle_lands_in_one_leaf() {
    let q = [Quadrant::UpperRight, Quadrant::UpperLeft, Quadrant::LowerLeft, Quadrant::LowerRight];
    let mut paths = Vec::new();
    for p in 0..40usize {
        let path: Vec<Quadrant> = (0..6).map(|d| q[(p * 7 + d * (p % 5) + p / 9) % 4]).collect();
        paths.push(path);
    }
    let t = QuadTreeNode::build(&paths);
    let mut found = Vec::new();
    all_leaf_particles(&t, &mut found);
    found.sort();
    assert_eq!(found, (0..40).collect::<Vec<usize>>());
}

fn largest_leaf(node: &QuadTreeNode) -> usize {
    match node {
        QuadTreeNode::Leaf { particles } => particles.len(),
        QuadTreeNode::Internal { .. } => children(node).iter().map(|c| largest_leaf(c)).max().unwrap(),
    }
}

#[test]
fn distinct_paths_give_single_particle_leaves() {
    let q = [Quadrant::UpperRight, Quadrant::UpperLeft, Quadrant::LowerLeft, Quadrant::LowerRight];
    // 64 particles, each with its own base-4 path of three levels
    let paths: Vec<Vec<Quadrant>> =
        (0..64usize).map(|p| vec![q[p % 4], q[(p / 4) % 4], q[p / 16]]).collect();
    let t = QuadTreeNode::build(&paths);
    assert_eq!(largest_leaf(&t), 1);
    let mut found = Vec::new();
    all_leaf_particles(&t, &mut found);
    assert_eq!(found.len(), 64);
}
