use vstd::prelude::*;

verus! {

/// Where a coordinate of a particle lies against the matching coordinate of a
/// node's center. `Unordered` is the outcome when either value is not a number.
#[derive(Clone, Copy, PartialEq, Eq, Structural, Debug)]
pub enum Side {
    Below,
    Equal,
    Above,
    Unordered,
}

/// One of the four equal parts of a tree node's region, with the y axis up.
#[derive(Clone, Copy, PartialEq, Eq, Structural, Debug)]
pub enum Quadrant {
    /// x at or past the center, y at or past the center.
    UpperRight,
    /// x at or before the center, y at or past the center.
    UpperLeft,
    /// x at or before the center, y at or before the center.
    LowerLeft,
    /// Everything else.
    LowerRight,
}

impl Side {
    /// The coordinate is greater than or equal to the center's.
    pub open spec fn at_or_above(self) -> bool {
        self is Above || self is Equal
    }

    /// The coordinate is less than or equal to the center's.
    pub open spec fn at_or_below(self) -> bool {
        self is Below || self is Equal
    }
}

/// The quadrant rule: the four tests are tried in order and the first one
/// that holds wins, so a point on a dividing line goes to the first quadrant,
/// in the order of `Quadrant`, that contains it.
pub open spec fn quadrant_of(x: Side, y: Side) -> Quadrant {
    if x.at_or_above() && y.at_or_above() {
        Quadrant::UpperRight
    } else if x.at_or_below() && y.at_or_above() {
        Quadrant::UpperLeft
    } else if x.at_or_below() && y.at_or_below() {
        Quadrant::LowerLeft
    } else {
        Quadrant::LowerRight
    }
}

/// The quadrant of a node that receives a particle, given how the particle's
/// coordinates compare with the node's center.
pub fn get_quadrant(x: Side, y: Side) -> (q: Quadrant)
    ensures
        q == quadrant_of(x, y),
{
    let x_ge = match x {
        Side::Above | Side::Equal => true,
        _ => false,
    };
    let x_le = match x {
        Side::Below | Side::Equal => true,
        _ => false,
    };
    let y_ge = match y {
        Side::Above | Side::Equal => true,
        _ => false,
    };
    let y_le = match y {
        Side::Below | Side::Equal => true,
        _ => false,
    };
    if x_ge && y_ge {
        Quadrant::UpperRight
    } else if x_le && y_ge {
        Quadrant::UpperLeft
    } else if x_le && y_le {
        Quadrant::LowerLeft
    } else {
        Quadrant::LowerRight
    }
}

/// The shape of a Barnes-Hut tree: which particles, named by their index in
/// the ensemble, sit in which leaf. A node is either a leaf holding its
/// particles directly or an internal node with exactly four children, one per
/// quadrant, and no particles of its own.
pub enum QuadTreeNode {
    Leaf { particles: Vec<usize> },
    Internal {
        upper_right: Box<QuadTreeNode>,
        upper_left: Box<QuadTreeNode>,
        lower_left: Box<QuadTreeNode>,
        lower_right: Box<QuadTreeNode>,
    },
}

/// Holds of a particle whose quadrant at `depth` is `q`. `paths[p]` lists, for
/// particle `p`, the quadrant it falls in at each depth below the root.
pub open spec fn goes_to(paths: Seq<Vec<Quadrant>>, depth: int, q: Quadrant) -> spec_fn(
    usize,
) -> bool {
    |p: usize| paths[p as int]@[depth] == q
}

/// Every member has a quadrant at `depth`.
pub open spec fn paths_reach(paths: Seq<Vec<Quadrant>>, members: Seq<usize>, depth: int) -> bool {
    forall|i: int| 0 <= i < members.len() ==> depth < paths[members[i] as int]@.len()
}

/// A node subdivides once it would hold a second particle, as long as the
/// quadrant paths of its members go on.
pub open spec fn subdivides(paths: Seq<Vec<Quadrant>>, members: Seq<usize>, depth: int) -> bool {
    members.len() >= 2 && paths_reach(paths, members, depth)
}

impl QuadTreeNode {
    /// This node, standing at `depth`, is the tree of `members` (in that
    /// order): a leaf holding them where it does not subdivide, otherwise an
    /// internal node whose children are the trees of the members that fall in
    /// each quadrant.
    pub open spec fn holds(self, members: Seq<usize>, paths: Seq<Vec<Quadrant>>, depth: int) -> bool
        decreases self,
    {
        match self {
            QuadTreeNode::Leaf { particles } => particles@ == members && !subdivides(
                paths,
                members,
                depth,
            ),
            QuadTreeNode::Internal { upper_right, upper_left, lower_left, lower_right } => {
                &&& subdivides(paths, members, depth)
                &&& upper_right.holds(
                    members.filter(goes_to(paths, depth, Quadrant::UpperRight)),
                    paths,
                    depth + 1,
                )
                &&& upper_left.holds(
                    members.filter(goes_to(paths, depth, Quadrant::UpperLeft)),
                    paths,
                    depth + 1,
                )
                &&& lower_left.holds(
                    members.filter(goes_to(paths, depth, Quadrant::LowerLeft)),
                    paths,
                    depth + 1,
                )
                &&& lower_right.holds(
                    members.filter(goes_to(paths, depth, Quadrant::LowerRight)),
                    paths,
                    depth + 1,
                )
            },
        }
    }

    /// The particles of all leaves, leaf by leaf, children in quadrant order.
    pub open spec fn leaf_particles(self) -> Seq<usize>
        decreases self,
    {
        match self {
            QuadTreeNode::Leaf { particles } => particles@,
            QuadTreeNode::Internal { upper_right, upper_left, lower_left, lower_right } => {
                upper_right.leaf_particles() + upper_left.leaf_particles()
                    + lower_left.leaf_particles() + lower_right.leaf_particles()
            },
        }
    }

    /// No leaf holds two different particles.
    pub open spec fn separates(self) -> bool
        decreases self,
    {
        match self {
            QuadTreeNode::Leaf { particles } => forall|i: int, j: int|
                0 <= i < particles@.len() && 0 <= j < particles@.len() ==> particles@[i]
                    == particles@[j],
            QuadTreeNode::Internal { upper_right, upper_left, lower_left, lower_right } => {
                &&& upper_right.separates()
                &&& upper_left.separates()
                &&& lower_left.separates()
                &&& lower_right.separates()
            },
        }
    }

    /// Builds the tree of particles `0..paths.len()`, inserted in index order.
    pub fn build(paths: &Vec<Vec<Quadrant>>) -> (t: QuadTreeNode)
        ensures
            t.holds(Seq::new(paths@.len(), |i: int| i as usize), paths@, 0),
    {
        let mut members: Vec<usize> = Vec::new();
        let mut i: usize = 0;
        while i < paths.len()
            invariant
                i <= paths@.len(),
                members@ == Seq::new(i as nat, |j: int| j as usize),
            decreases paths@.len() - i,
        {
            members.push(i);
            i += 1;
            proof {
                assert(members@ =~= Seq::new(i as nat, |j: int| j as usize));
            }
        }
        build_node(paths, members, 0)
    }
}

/// Each particle given to the tree lands in exactly one leaf: taken together,
/// the leaves hold every member as many times as the members list it, and
/// nothing else.
pub proof fn lemma_leaves_partition(
    t: QuadTreeNode,
    members: Seq<usize>,
    paths: Seq<Vec<Quadrant>>,
    depth: int,
)
    requires
        t.holds(members, paths, depth),
    ensures
        t.leaf_particles().to_multiset() =~= members.to_multiset(),
    decreases t,
{
    broadcast use vstd::seq_lib::lemma_multiset_commutative;

    match t {
        QuadTreeNode::Leaf { .. } => {},
        QuadTreeNode::Internal { upper_right, upper_left, lower_left, lower_right } => {
            lemma_leaves_partition(
                *upper_right,
                members.filter(goes_to(paths, depth, Quadrant::UpperRight)),
                paths,
                depth + 1,
            );
            lemma_leaves_partition(
                *upper_left,
                members.filter(goes_to(paths, depth, Quadrant::UpperLeft)),
                paths,
                depth + 1,
            );
            lemma_leaves_partition(
                *lower_left,
                members.filter(goes_to(paths, depth, Quadrant::LowerLeft)),
                paths,
                depth + 1,
            );
            lemma_leaves_partition(
                *lower_right,
                members.filter(goes_to(paths, depth, Quadrant::LowerRight)),
                paths,
                depth + 1,
            );
            lemma_quadrants_split(members, paths, depth);
        },
    }
}

/// The members fall in the same quadrant at every level above `depth`.
pub open spec fn share_route(paths: Seq<Vec<Quadrant>>, members: Seq<usize>, depth: int) -> bool {
    forall|a: usize, b: usize, l: int|
        members.contains(a) && members.contains(b) && 0 <= l < depth ==> paths[a as int]@[l]
            == paths[b as int]@[l]
}

/// Every member's path has at least `levels` entries, and two different
/// members fall in different quadrants somewhere within those levels.
pub open spec fn routes_differ(paths: Seq<Vec<Quadrant>>, members: Seq<usize>, levels: int) -> bool {
    &&& forall|a: usize| members.contains(a) ==> levels <= paths[a as int]@.len()
    &&& forall|a: usize, b: usize|
        members.contains(a) && members.contains(b) && a != b ==> exists|l: int|
            0 <= l < levels && paths[a as int]@[l] != paths[b as int]@[l]
}

/// The tree subdivides until particles part: where the quadrant paths of any
/// two different particles differ within the levels that all paths reach,
/// each leaf holds at most one particle.
pub proof fn lemma_leaves_separate(
    t: QuadTreeNode,
    members: Seq<usize>,
    paths: Seq<Vec<Quadrant>>,
    depth: int,
    levels: int,
)
    requires
        t.holds(members, paths, depth),
        share_route(paths, members, depth),
        routes_differ(paths, members, levels),
    ensures
        t.separates(),
    decreases t, 0int,
{
    match t {
        QuadTreeNode::Leaf { particles } => {
            if members.len() >= 2 {
                let k = choose|k: int|
                    0 <= k < members.len() && paths[members[k] as int]@.len() <= depth;
                assert(members.contains(members[k]));
                assert forall|i: int, j: int|
                    0 <= i < particles@.len() && 0 <= j < particles@.len() implies particles@[i]
                    == particles@[j] by {
                    let a = members[i];
                    let b = members[j];
                    assert(members.contains(a));
                    assert(members.contains(b));
                    if a != b {
                        let l = choose|l: int|
                            0 <= l < levels && paths[a as int]@[l] != paths[b as int]@[l];
                        assert(l < depth);
                    }
                }
            }
        },
        QuadTreeNode::Internal { upper_right, upper_left, lower_left, lower_right } => {
            lemma_child_separates(*upper_right, members, paths, depth, levels, Quadrant::UpperRight);
            lemma_child_separates(*upper_left, members, paths, depth, levels, Quadrant::UpperLeft);
            lemma_child_separates(*lower_left, members, paths, depth, levels, Quadrant::LowerLeft);
            lemma_child_separates(*lower_right, members, paths, depth, levels, Quadrant::LowerRight);
        },
    }
}

/// The step of the separation law into the child of quadrant `q`.
proof fn lemma_child_separates(
    child: QuadTreeNode,
    members: Seq<usize>,
    paths: Seq<Vec<Quadrant>>,
    depth: int,
    levels: int,
    q: Quadrant,
)
    requires
        child.holds(members.filter(goes_to(paths, depth, q)), paths, depth + 1),
        share_route(paths, members, depth),
        routes_differ(paths, members, levels),
    ensures
        child.separates(),
    decreases child, 1int,
{
    let sub = members.filter(goes_to(paths, depth, q));
    assert forall|a: usize| sub.contains(a) implies members.contains(a) && paths[a as int]@[depth]
        == q by {
        lemma_filter_keeps(members, goes_to(paths, depth, q), a);
    }
    assert(share_route(paths, sub, depth + 1));
    assert(routes_differ(paths, sub, levels));
    lemma_leaves_separate(child, sub, paths, depth + 1, levels);
}

/// What a filter keeps comes from the sequence and meets the predicate.
proof fn lemma_filter_keeps(s: Seq<usize>, f: spec_fn(usize) -> bool, a: usize)
    requires
        s.filter(f).contains(a),
    ensures
        s.contains(a),
        f(a),
{
    let i = choose|i: int| 0 <= i < s.filter(f).len() && s.filter(f)[i] == a;
    s.lemma_filter_pred(f, i);
    s.lemma_filter_contains_rev(f, a);
}

/// The four quadrant groups of a node's members make up the members.
proof fn lemma_quadrants_split(members: Seq<usize>, paths: Seq<Vec<Quadrant>>, depth: int)
    ensures
        members.to_multiset() =~= members.filter(
            goes_to(paths, depth, Quadrant::UpperRight),
        ).to_multiset().add(
            members.filter(goes_to(paths, depth, Quadrant::UpperLeft)).to_multiset(),
        ).add(members.filter(goes_to(paths, depth, Quadrant::LowerLeft)).to_multiset()).add(
            members.filter(goes_to(paths, depth, Quadrant::LowerRight)).to_multiset(),
        ),
    decreases members.len(),
{
    broadcast use vstd::seq_lib::group_to_multiset_ensures;

    reveal(Seq::filter);
    if members.len() > 0 {
        let rest = members.drop_last();
        lemma_quadrants_split(rest, paths, depth);
        assert(rest.push(members.last()) =~= members);
    }
}

/// The length of the longest quadrant path.
spec fn longest(paths: Seq<Vec<Quadrant>>) -> nat
    decreases paths.len(),
{
    if paths.len() == 0 {
        0
    } else {
        let rest = longest(paths.drop_last());
        let last = paths.last()@.len();
        if last > rest {
            last
        } else {
            rest
        }
    }
}

proof fn lemma_longest(paths: Seq<Vec<Quadrant>>, i: int)
    requires
        0 <= i < paths.len(),
    ensures
        paths[i]@.len() <= longest(paths),
    decreases paths.len(),
{
    if i < paths.len() - 1 {
        lemma_longest(paths.drop_last(), i);
    }
}

fn all_paths_reach(paths: &Vec<Vec<Quadrant>>, members: &Vec<usize>, depth: usize) -> (r: bool)
    requires
        forall|i: int| 0 <= i < members@.len() ==> members@[i] < paths@.len(),
    ensures
        r == paths_reach(paths@, members@, depth as int),
{
    let mut i: usize = 0;
    while i < members.len()
        invariant
            i <= members@.len(),
            forall|j: int| 0 <= j < members@.len() ==> members@[j] < paths@.len(),
            forall|j: int| 0 <= j < i ==> depth < paths@[members@[j] as int]@.len(),
        decreases members@.len() - i,
    {
        if paths[members[i]].len() <= depth {
            return false;
        }
        i += 1;
    }
    true
}

fn build_node(paths: &Vec<Vec<Quadrant>>, members: Vec<usize>, depth: usize) -> (t: QuadTreeNode)
    requires
        forall|i: int| 0 <= i < members@.len() ==> members@[i] < paths@.len(),
        depth <= longest(paths@),
    ensures
        t.holds(members@, paths@, depth as int),
    decreases longest(paths@) - depth,
{
    if members.len() < 2 || !all_paths_reach(paths, &members, depth) {
        return QuadTreeNode::Leaf { particles: members };
    }
    let first_len = paths[members[0]].len();
    proof {
        lemma_longest(paths@, members@[0] as int);
        assert(depth < first_len);
    }
    let ghost ps = paths@;
    let ghost d = depth as int;
    let mut ur: Vec<usize> = Vec::new();
    let mut ul: Vec<usize> = Vec::new();
    let mut ll: Vec<usize> = Vec::new();
    let mut lr: Vec<usize> = Vec::new();
    let mut i: usize = 0;
    while i < members.len()
        invariant
            i <= members@.len(),
            ps == paths@,
            d == depth,
            paths_reach(ps, members@, d),
            forall|j: int| 0 <= j < members@.len() ==> members@[j] < ps.len(),
            ur@ == members@.take(i as int).filter(goes_to(ps, d, Quadrant::UpperRight)),
            ul@ == members@.take(i as int).filter(goes_to(ps, d, Quadrant::UpperLeft)),
            ll@ == members@.take(i as int).filter(goes_to(ps, d, Quadrant::LowerLeft)),
            lr@ == members@.take(i as int).filter(goes_to(ps, d, Quadrant::LowerRight)),
            forall|j: int| 0 <= j < ur@.len() ==> ur@[j] < ps.len(),
            forall|j: int| 0 <= j < ul@.len() ==> ul@[j] < ps.len(),
            forall|j: int| 0 <= j < ll@.len() ==> ll@[j] < ps.len(),
            forall|j: int| 0 <= j < lr@.len() ==> lr@[j] < ps.len(),
        decreases members@.len() - i,
    {
        let p = members[i];
        proof {
            reveal(Seq::filter);
            assert(members@.take(i + 1).drop_last() =~= members@.take(i as int));
            assert(members@.take(i + 1).last() == p);
        }
        match paths[p][depth] {
            Quadrant::UpperRight => ur.push(p),
            Quadrant::UpperLeft => ul.push(p),
            Quadrant::LowerLeft => ll.push(p),
            Quadrant::LowerRight => lr.push(p),
        }
        i += 1;
    }
    proof {
        assert(members@.take(members@.len() as int) =~= members@);
    }
    let upper_right = build_node(paths, ur, depth + 1);
    let upper_left = build_node(paths, ul, depth + 1);
    let lower_left = build_node(paths, ll, depth + 1);
    let lower_right = build_node(paths, lr, depth + 1);
    QuadTreeNode::Internal {
        upper_right: Box::new(upper_right),
        upper_left: Box::new(upper_left),
        lower_left: Box::new(lower_left),
        lower_right: Box::new(lower_right),
    }
}

} // verus!
