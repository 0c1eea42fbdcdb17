//! The ground as a tree of boxes: something touches the ground when it lies
//! in the root box and, going down, in some chain of boxes that ends at a
//! box without children.
use vstd::prelude::*;

verus! {

pub struct CollisionTreeNode<C> {
    pub collider: C,
    pub children: Vec<usize>,
}

/// The tree is stored flat; node 0 is the root and each node lists the
/// indices of its children.
pub struct Ground<C> {
    pub collision_tree: Vec<CollisionTreeNode<C>>,
}

/// Every node of `nodes` is in the tree, the children of each are in
/// `nodes` too, and `rank` decreases from each node to each of its children.
pub open spec fn ranked_within<C>(
    tree: Seq<CollisionTreeNode<C>>,
    nodes: Set<int>,
    rank: spec_fn(int) -> nat,
) -> bool {
    &&& forall|i: int| #[trigger] nodes.contains(i) ==> 0 <= i < tree.len()
    &&& forall|i: int, k: int|
        #![trigger tree[i].children@[k]]
        nodes.contains(i) && 0 <= k < tree[i].children@.len() ==> {
            &&& nodes.contains(tree[i].children@[k] as int)
            &&& rank(tree[i].children@[k] as int) < rank(i)
        }
}

/// The part of the tree that can be reached from the root, node 0, has its
/// child indices in range and holds no node that is its own descendant.
pub open spec fn is_walkable<C>(tree: Seq<CollisionTreeNode<C>>) -> bool {
    exists|nodes: Set<int>, rank: spec_fn(int) -> nat|
        nodes.contains(0) && ranked_within(tree, nodes, rank)
}

/// Nodes closed under taking children, with a ranking of them, by which the
/// walk from the root terminates.
pub open spec fn walk_ranking<C>(tree: Seq<CollisionTreeNode<C>>) -> (Set<int>, spec_fn(int) -> nat) {
    choose|nodes: Set<int>, rank: spec_fn(int) -> nat|
        nodes.contains(0) && ranked_within(tree, nodes, rank)
}

/// `i` is a node of the walkable part of the tree that the walk covers.
pub open spec fn in_walk<C>(tree: Seq<CollisionTreeNode<C>>, i: int) -> bool {
    is_walkable(tree) && walk_ranking(tree).0.contains(i)
}

/// The chosen ranking has what `is_walkable` promises.
pub proof fn lemma_walk_ranking<C>(tree: Seq<CollisionTreeNode<C>>)
    requires
        is_walkable(tree),
    ensures
        walk_ranking(tree).0.contains(0),
        ranked_within(tree, walk_ranking(tree).0, walk_ranking(tree).1),
{
}

/// With `hits[i]` telling whether the tested thing lies in the box of node
/// `i`: it lies in the box of `root`, and `root` has no children or one of
/// its children's subtrees is hit in the same way.
pub open spec fn subtree_hit<C>(tree: Seq<CollisionTreeNode<C>>, hits: Seq<bool>, root: int) -> bool
    decreases walk_ranking(tree).1(root), tree[root].children@.len() + 1,
    when in_walk(tree, root)
{
    hits[root] && (tree[root].children@.len() == 0 || some_child_hit(
        tree,
        hits,
        root,
        tree[root].children@.len() as int,
    ))
}

/// One of the first `k` children of `root` has its subtree hit.
pub open spec fn some_child_hit<C>(
    tree: Seq<CollisionTreeNode<C>>,
    hits: Seq<bool>,
    root: int,
    k: int,
) -> bool
    decreases walk_ranking(tree).1(root), k,
    when in_walk(tree, root) && 0 <= k <= tree[root].children@.len()
{
    if k <= 0 {
        false
    } else {
        some_child_hit(tree, hits, root, k - 1) || subtree_hit(
            tree,
            hits,
            tree[root].children@[k - 1] as int,
        )
    }
}

/// A child whose subtree is hit counts among the first `k` children hit,
/// for every `k` past its position.
pub proof fn lemma_hit_child_counts<C>(
    tree: Seq<CollisionTreeNode<C>>,
    hits: Seq<bool>,
    root: int,
    j: int,
    k: int,
)
    requires
        in_walk(tree, root),
        0 <= j < k <= tree[root].children@.len(),
        subtree_hit(tree, hits, tree[root].children@[j] as int),
    ensures
        some_child_hit(tree, hits, root, k),
    decreases k,
{
    if k > j + 1 {
        lemma_hit_child_counts(tree, hits, root, j, k - 1);
    }
}

/// The tested thing lies in at least the boxes in which a smaller one lies.
pub open spec fn hits_within(smaller: Seq<bool>, larger: Seq<bool>) -> bool {
    &&& smaller.len() == larger.len()
    &&& forall|i: int| 0 <= i < smaller.len() && #[trigger] smaller[i] ==> larger[i]
}

/// Whatever touches the ground still touches it when it lies in more boxes.
pub proof fn lemma_subtree_hit_monotone<C>(
    tree: Seq<CollisionTreeNode<C>>,
    smaller: Seq<bool>,
    larger: Seq<bool>,
    root: int,
)
    requires
        in_walk(tree, root),
        smaller.len() == tree.len(),
        hits_within(smaller, larger),
    ensures
        subtree_hit(tree, smaller, root) ==> subtree_hit(tree, larger, root),
    decreases walk_ranking(tree).1(root), tree[root].children@.len() + 1,
{
    lemma_walk_ranking(tree);
    lemma_some_child_hit_monotone(
        tree,
        smaller,
        larger,
        root,
        tree[root].children@.len() as int,
    );
}

/// The children's part of `lemma_subtree_hit_monotone`, for the first `k`
/// children of `root`.
pub proof fn lemma_some_child_hit_monotone<C>(
    tree: Seq<CollisionTreeNode<C>>,
    smaller: Seq<bool>,
    larger: Seq<bool>,
    root: int,
    k: int,
)
    requires
        in_walk(tree, root),
        0 <= k <= tree[root].children@.len(),
        smaller.len() == tree.len(),
        hits_within(smaller, larger),
    ensures
        some_child_hit(tree, smaller, root, k) ==> some_child_hit(tree, larger, root, k),
    decreases walk_ranking(tree).1(root), k,
{
    if k > 0 {
        lemma_walk_ranking(tree);
        let (nodes, rank) = walk_ranking(tree);
        let child = tree[root].children@[k - 1] as int;
        assert(nodes.contains(child) && rank(child) < rank(root));
        lemma_some_child_hit_monotone(tree, smaller, larger, root, k - 1);
        lemma_subtree_hit_monotone(tree, smaller, larger, child);
    }
}

/// The number of `false` entries of `s`.
spec fn count_false(s: Seq<bool>) -> nat
    decreases s.len(),
{
    if s.len() == 0 {
        0
    } else {
        count_false(s.drop_last()) + if s.last() {
            0nat
        } else {
            1nat
        }
    }
}

/// Setting a `false` entry leaves one `false` entry fewer.
proof fn lemma_count_false_set(s: Seq<bool>, i: int)
    requires
        0 <= i < s.len(),
        !s[i],
    ensures
        count_false(s.update(i, true)) + 1 == count_false(s),
    decreases s.len(),
{
    if i == s.len() - 1 {
        assert(s.update(i, true).drop_last() =~= s.drop_last());
    } else {
        lemma_count_false_set(s.drop_last(), i);
        assert(s.update(i, true).drop_last() =~= s.drop_last().update(i, true));
    }
}

/// `n` times `false`.
fn all_false(n: usize) -> (v: Vec<bool>)
    ensures
        v@.len() == n,
        forall|i: int| 0 <= i < n ==> !v@[i],
        count_false(v@) == n,
{
    let mut v: Vec<bool> = Vec::new();
    let mut t: usize = 0;
    while t < n
        invariant
            t <= n,
            v@.len() == t,
            forall|i: int| 0 <= i < t ==> !v@[i],
            count_false(v@) == t,
        decreases n - t,
    {
        assert(v@.push(false).drop_last() =~= v@);
        v.push(false);
        t = t + 1;
    }
    v
}

/// Each node that `from` marks lists only children in range that `to`
/// marks.
spec fn children_marked<C>(tree: Seq<CollisionTreeNode<C>>, from: Seq<bool>, to: Seq<bool>) -> bool {
    forall|u: int, j: int|
        #![trigger tree[u].children@[j]]
        0 <= u < tree.len() && from[u] && 0 <= j < tree[u].children@.len() ==> {
            &&& tree[u].children@[j] < tree.len()
            &&& to[tree[u].children@[j] as int]
        }
}

/// The marked nodes are nodes of the walk.
spec fn marks_in_walk<C>(tree: Seq<CollisionTreeNode<C>>, marks: Seq<bool>) -> bool {
    forall|u: int| 0 <= u < marks.len() && #[trigger] marks[u] ==> walk_ranking(tree).0.contains(u)
}

/// Node `u` is reachable, not numbered yet, and all its children are.
spec fn ready<C>(tree: Seq<CollisionTreeNode<C>>, seen: Seq<bool>, ranked: Seq<bool>, u: int) -> bool {
    &&& seen[u]
    &&& !ranked[u]
    &&& forall|j: int|
        0 <= j < tree[u].children@.len() ==> #[trigger] ranked[tree[u].children@[j] as int]
}

/// In a walkable tree, while some reachable node is not numbered, one of
/// them has all its children numbered: going down from `u` through children
/// that are not numbered, the ranking of the walk falls at each step.
proof fn lemma_some_node_ready<C>(
    tree: Seq<CollisionTreeNode<C>>,
    seen: Seq<bool>,
    ranked: Seq<bool>,
    u: int,
    m: nat,
)
    requires
        is_walkable(tree),
        seen.len() == tree.len(),
        ranked.len() == tree.len(),
        children_marked(tree, seen, seen),
        marks_in_walk(tree, seen),
        0 <= u < tree.len(),
        seen[u],
        !ranked[u],
        walk_ranking(tree).1(u) <= m,
    ensures
        exists|v: int| 0 <= v < tree.len() && ready(tree, seen, ranked, v),
    decreases m,
{
    lemma_walk_ranking(tree);
    if ready(tree, seen, ranked, u) {
        assert(0 <= u < tree.len() && ready(tree, seen, ranked, u));
    } else {
        let j = choose|j: int|
            0 <= j < tree[u].children@.len() && !ranked[tree[u].children@[j] as int];
        let c = tree[u].children@[j] as int;
        assert(walk_ranking(tree).0.contains(u));
        assert(walk_ranking(tree).1(c) < walk_ranking(tree).1(u));
        lemma_some_node_ready(tree, seen, ranked, c, (m - 1) as nat);
    }
}

impl<C> Ground<C> {
    /// Tests that the part of the tree reachable from the root can be walked:
    /// its child indices are in range and it holds no node that is its own
    /// descendant.
    ///
    /// The reachable nodes are found first; then they are numbered so that
    /// each comes after all of its children. When reachable nodes are left
    /// that cannot be numbered, some node is its own descendant.
    pub fn is_walkable_tree(&self) -> (r: bool)
        ensures
            r == is_walkable(self.collision_tree@),
    {
        let ghost tree = self.collision_tree@;
        let n = self.collision_tree.len();
        proof {
            if is_walkable(tree) {
                lemma_walk_ranking(tree);
                assert(walk_ranking(tree).0.contains(0));
            }
        }
        if n == 0 {
            return false;
        }
        // The reachable nodes: `seen` marks the nodes found so far, `done`
        // those whose children are marked too.
        let mut seen = all_false(n);
        seen.set(0, true);
        let mut done = all_false(n);
        loop
            invariant
                n == tree.len(),
                tree == self.collision_tree@,
                seen@.len() == n,
                done@.len() == n,
                seen@[0],
                forall|u: int| 0 <= u < n && #[trigger] done@[u] ==> seen@[u],
                children_marked(tree, done@, seen@),
                is_walkable(tree) ==> marks_in_walk(tree, seen@),
            ensures
                forall|u: int| 0 <= u < n && #[trigger] seen@[u] ==> done@[u],
            decreases count_false(done@),
        {
            let mut i: usize = 0;
            while i < n && !(seen[i] && !done[i])
                invariant
                    i <= n,
                    seen@.len() == n,
                    done@.len() == n,
                    forall|j: int| 0 <= j < i ==> !(#[trigger] seen@[j] && !done@[j]),
                decreases n - i,
            {
                i = i + 1;
            }
            if i == n {
                break;
            }
            let children = &self.collision_tree[i].children;
            let ghost done_before = done@;
            let mut k: usize = 0;
            while k < children.len()
                invariant
                    n == tree.len(),
                    tree == self.collision_tree@,
                    *children == tree[i as int].children,
                    i < n,
                    seen@.len() == n,
                    done@ == done_before,
                    done@.len() == n,
                    seen@[0],
                    seen@[i as int],
                    !done@[i as int],
                    forall|u: int| 0 <= u < n && #[trigger] done@[u] ==> seen@[u],
                    children_marked(tree, done@, seen@),
                    is_walkable(tree) ==> marks_in_walk(tree, seen@),
                    k <= children@.len(),
                    forall|j: int|
                        0 <= j < k ==> #[trigger] children@[j] < n && seen@[children@[j] as int],
                decreases children@.len() - k,
            {
                let c = children[k];
                proof {
                    if is_walkable(tree) {
                        lemma_walk_ranking(tree);
                        assert(walk_ranking(tree).0.contains(i as int));
                        assert(tree[i as int].children@[k as int] == c);
                    }
                }
                if c >= n {
                    return false;
                }
                let ghost before = seen@;
                seen.set(c, true);
                proof {
                    assert forall|u: int, j: int|
                        #![trigger tree[u].children@[j]]
                        0 <= u < tree.len() && done@[u] && 0 <= j < tree[u].children@.len() implies {
                        &&& tree[u].children@[j] < tree.len()
                        &&& seen@[tree[u].children@[j] as int]
                    } by {
                        assert(before[tree[u].children@[j] as int]);
                    }
                    if is_walkable(tree) {
                        assert forall|u: int| 0 <= u < seen@.len() && #[trigger] seen@[u] implies walk_ranking(
                            tree,
                        ).0.contains(u) by {
                            if u != c {
                                assert(before[u]);
                            }
                        }
                    }
                    assert forall|j: int| 0 <= j < k + 1 implies #[trigger] children@[j] < n
                        && seen@[children@[j] as int] by {
                        if j < k {
                            assert(before[children@[j] as int]);
                        }
                    }
                }
                k = k + 1;
            }
            proof {
                lemma_count_false_set(done@, i as int);
            }
            done.set(i, true);
            proof {
                assert forall|u: int, j: int|
                    #![trigger tree[u].children@[j]]
                    0 <= u < tree.len() && done@[u] && 0 <= j < tree[u].children@.len() implies {
                    &&& tree[u].children@[j] < tree.len()
                    &&& seen@[tree[u].children@[j] as int]
                } by {
                    if u != i {
                        assert(done_before[u]);
                    } else {
                        assert(children@[j] == tree[u].children@[j]);
                    }
                }
            }
        }
        proof {
            assert forall|u: int, j: int|
                #![trigger tree[u].children@[j]]
                0 <= u < tree.len() && seen@[u] && 0 <= j < tree[u].children@.len() implies {
                &&& tree[u].children@[j] < tree.len()
                &&& seen@[tree[u].children@[j] as int]
            } by {
                assert(done@[u]);
            }
        }
        // Number the reachable nodes, each after all of its children.
        let mut ranked = all_false(n);
        let mut rank: Vec<usize> = Vec::new();
        let mut t: usize = 0;
        while t < n
            invariant
                t <= n,
                rank@.len() == t,
            decreases n - t,
        {
            rank.push(0);
            t = t + 1;
        }
        let mut next: usize = 0;
        loop
            invariant
                n == tree.len(),
                tree == self.collision_tree@,
                seen@.len() == n,
                ranked@.len() == n,
                rank@.len() == n,
                children_marked(tree, seen@, seen@),
                is_walkable(tree) ==> marks_in_walk(tree, seen@),
                forall|u: int| 0 <= u < n && #[trigger] ranked@[u] ==> seen@[u] && rank@[u] < next,
                children_marked(tree, ranked@, ranked@),
                forall|u: int, j: int|
                    #![trigger tree[u].children@[j]]
                    0 <= u < n && ranked@[u] && 0 <= j < tree[u].children@.len() ==> rank@[tree[u].children@[j] as int]
                        < rank@[u],
                next + count_false(ranked@) == n,
            ensures
                forall|u: int| 0 <= u < n && #[trigger] seen@[u] ==> ranked@[u],
            decreases count_false(ranked@),
        {
            // The first node that is ready to be numbered, if any (else `n`),
            // and whether a reachable node is left to number.
            let mut pick: usize = n;
            let mut pending = false;
            let mut i: usize = 0;
            while i < n
                invariant
                    n == tree.len(),
                    tree == self.collision_tree@,
                    seen@.len() == n,
                    ranked@.len() == n,
                    children_marked(tree, seen@, seen@),
                    i <= n,
                    pick <= n,
                    pick == n ==> forall|j: int| 0 <= j < i ==> !ready(tree, seen@, ranked@, j),
                    pick < n ==> ready(tree, seen@, ranked@, pick as int),
                    pending == exists|j: int| 0 <= j < i && #[trigger] seen@[j] && !ranked@[j],
                decreases n - i,
            {
                if seen[i] && !ranked[i] {
                    pending = true;
                    let children = &self.collision_tree[i].children;
                    let mut all = true;
                    let mut k: usize = 0;
                    while k < children.len()
                        invariant
                            n == tree.len(),
                            tree == self.collision_tree@,
                            *children == tree[i as int].children,
                            i < n,
                            seen@.len() == n,
                            ranked@.len() == n,
                            seen@[i as int],
                            children_marked(tree, seen@, seen@),
                            k <= children@.len(),
                            all == forall|j: int|
                                0 <= j < k ==> #[trigger] ranked@[children@[j] as int],
                        decreases children@.len() - k,
                    {
                        assert(tree[i as int].children@[k as int] == children@[k as int]);
                        if !ranked[children[k]] {
                            all = false;
                        }
                        k = k + 1;
                    }
                    if all && pick == n {
                        pick = i;
                    }
                }
                i = i + 1;
            }
            if pick == n {
                if pending {
                    proof {
                        if is_walkable(tree) {
                            let j = choose|j: int| 0 <= j < n && #[trigger] seen@[j] && !ranked@[j];
                            lemma_some_node_ready(
                                tree,
                                seen@,
                                ranked@,
                                j,
                                walk_ranking(tree).1(j),
                            );
                        }
                    }
                    return false;
                }
                break;
            }
            proof {
                lemma_count_false_set(ranked@, pick as int);
            }
            let ghost ranked_before = ranked@;
            let ghost rank_before = rank@;
            rank.set(pick, next);
            ranked.set(pick, true);
            proof {
                assert forall|u: int, j: int|
                    #![trigger tree[u].children@[j]]
                    0 <= u < n && ranked@[u] && 0 <= j < tree[u].children@.len() implies {
                    &&& tree[u].children@[j] < tree.len()
                    &&& ranked@[tree[u].children@[j] as int]
                    &&& rank@[tree[u].children@[j] as int] < rank@[u]
                } by {
                    let c = tree[u].children@[j] as int;
                    if u == pick {
                        assert(ranked_before[c]);
                        assert(c != pick);
                    } else {
                        assert(ranked_before[u]);
                        assert(ranked_before[c]);
                        assert(c != pick);
                    }
                }
            }
            next = next + 1;
        }
        proof {
            let nodes = Set::new(|u: int| 0 <= u < n && seen@[u]);
            let ranking = |u: int| rank@[u] as nat;
            assert(nodes.contains(0));
            assert forall|u: int, j: int|
                #![trigger tree[u].children@[j]]
                nodes.contains(u) && 0 <= j < tree[u].children@.len() implies {
                &&& nodes.contains(tree[u].children@[j] as int)
                &&& ranking(tree[u].children@[j] as int) < ranking(u)
            } by {
                assert(ranked@[u]);
            }
            assert(ranked_within(tree, nodes, ranking));
        }
        true
    }

    /// Whether the tested thing touches the ground, where `hits[i]` tells
    /// whether it lies in the box of node `i`.
    pub fn colliding(&self, hits: &Vec<bool>) -> (r: bool)
        requires
            hits@.len() == self.collision_tree@.len(),
            is_walkable(self.collision_tree@),
        ensures
            r == subtree_hit(self.collision_tree@, hits@, 0),
            r ==> hits@[0],
    {
        proof {
            lemma_walk_ranking(self.collision_tree@);
        }
        self.colliding_from(hits, 0)
    }

    fn colliding_from(&self, hits: &Vec<bool>, root: usize) -> (r: bool)
        requires
            in_walk(self.collision_tree@, root as int),
            hits@.len() == self.collision_tree@.len(),
        ensures
            r == subtree_hit(self.collision_tree@, hits@, root as int),
        decreases walk_ranking(self.collision_tree@).1(root as int),
    {
        let ghost tree = self.collision_tree@;
        proof {
            lemma_walk_ranking(tree);
        }
        if !hits[root] {
            return false;
        }
        let node = &self.collision_tree[root];
        let n = node.children.len();
        if n == 0 {
            return true;
        }
        let mut k: usize = 0;
        while k < n
            invariant
                tree == self.collision_tree@,
                *node == tree[root as int],
                n == tree[root as int].children@.len(),
                k <= n,
                root < tree.len(),
                hits@.len() == tree.len(),
                hits@[root as int],
                in_walk(tree, root as int),
                ranked_within(tree, walk_ranking(tree).0, walk_ranking(tree).1),
                !some_child_hit(tree, hits@, root as int, k as int),
            decreases n - k,
        {
            let child = node.children[k];
            proof {
                let (nodes, rank) = walk_ranking(tree);
                assert(tree[root as int].children@[k as int] == child);
                assert(nodes.contains(child as int) && rank(child as int) < rank(root as int));
            }
            if self.colliding_from(hits, child) {
                proof {
                    lemma_hit_child_counts(tree, hits@, root as int, k as int, n as int);
                }
                return true;
            }
            k = k + 1;
        }
        false
    }
}

} // verus!
