//! Laying out a model's node tree as flat tables: a table of nodes whose
//! children are named by index, a table of meshes, and a count of the
//! vertex/index buffer pairs that the meshes' primitives refer to.
use vstd::prelude::*;
use crate::render::Primitive;

verus! {

/// A node as read from a model file: the material of each primitive of its
/// mesh, if it has one, and its children.
pub struct NodeSource {
    pub mesh: Option<Vec<usize>>,
    pub children: Vec<NodeSource>,
}

/// A node of the flat table: the index of its mesh, if any, and the indices
/// of its children.
pub struct LayoutNode {
    pub mesh: Option<usize>,
    pub children: Vec<usize>,
}

/// The flat tables of a model. Each primitive has a buffer pair of its own;
/// `buffer_count` is how many pairs there are. `root_nodes` holds the index
/// of each scene's top-level nodes.
pub struct ModelLayout {
    pub meshes: Vec<Vec<Primitive>>,
    pub nodes: Vec<LayoutNode>,
    pub root_nodes: Vec<usize>,
    pub buffer_count: usize,
}

impl ModelLayout {
    /// Empty tables.
    pub fn new() -> (layout: Self)
        ensures
            layout.meshes@.len() == 0,
            layout.nodes@.len() == 0,
            layout.root_nodes@.len() == 0,
            layout.buffer_count == 0,
    {
        ModelLayout { meshes: Vec::new(), nodes: Vec::new(), root_nodes: Vec::new(), buffer_count: 0 }
    }
}

/// How many meshes and primitives a node's own mesh brings (the first
/// number is unused).
pub open spec fn own_size(n: NodeSource) -> (nat, nat, nat) {
    match n.mesh {
        Some(materials) => (1nat, 1nat, materials@.len()),
        None => (0nat, 0nat, 0nat),
    }
}

/// How many nodes, meshes and primitives a node's subtree brings.
pub open spec fn subtree_size(n: NodeSource) -> (nat, nat, nat)
    decreases n,
{
    let own = own_size(n);
    let below = forest_size(n.children@);
    (1 + below.0, own.1 + below.1, own.2 + below.2)
}

/// How many nodes, meshes and primitives the subtrees of `trees` bring.
pub open spec fn forest_size(trees: Seq<NodeSource>) -> (nat, nat, nat)
    decreases trees,
{
    if trees.len() == 0 {
        (0, 0, 0)
    } else {
        let front = forest_size(trees.drop_last());
        let last = subtree_size(trees.last());
        (front.0 + last.0, front.1 + last.1, front.2 + last.2)
    }
}

/// The nodes from `from` on name only children after themselves and inside
/// the table.
pub open spec fn children_follow(nodes: Seq<LayoutNode>, from: int) -> bool {
    forall|t: int, j: int|
        #![trigger nodes[t].children@[j]]
        from <= t < nodes.len() && 0 <= j < nodes[t].children@.len() ==> t
            < nodes[t].children@[j] < nodes.len()
}

/// The meshes from `from` on refer only to buffer pairs in `lo..hi`.
pub open spec fn buffers_within(meshes: Seq<Vec<Primitive>>, from: int, lo: int, hi: int) -> bool {
    forall|m: int, k: int|
        #![trigger meshes[m]@[k]]
        from <= m < meshes.len() && 0 <= k < meshes[m]@.len() ==> {
            &&& lo <= meshes[m]@[k].vertex_buffer_ref < hi
            &&& meshes[m]@[k].index_buffer_ref == meshes[m]@[k].vertex_buffer_ref
        }
}

/// The primitives of a mesh whose materials are `materials`, taking buffer
/// pairs in order from `buffer_at`.
pub open spec fn primitives_from(buffer_at: int, materials: Seq<usize>) -> Seq<Primitive> {
    Seq::new(
        materials.len(),
        |k: int|
            Primitive {
                vertex_buffer_ref: (buffer_at + k) as usize,
                index_buffer_ref: (buffer_at + k) as usize,
                material_ref: materials[k],
            },
    )
}

/// The subtree of `src` is laid out in the tables with its root at node
/// `at`, its meshes numbered from `mesh_at` and its buffer pairs from
/// `buffer_at`, all in depth-first order: the root's mesh and primitives
/// first, then each child's subtree in turn, child `k` at the node after the
/// root and the subtrees of the children before it.
pub open spec fn laid_out(
    nodes: Seq<LayoutNode>,
    meshes: Seq<Vec<Primitive>>,
    at: int,
    mesh_at: int,
    buffer_at: int,
    src: NodeSource,
) -> bool
    decreases src,
{
    &&& 0 <= at < nodes.len()
    &&& nodes[at].mesh == match src.mesh {
        Some(_) => Some(mesh_at as usize),
        None => None::<usize>,
    }
    &&& match src.mesh {
        Some(materials) => {
            &&& 0 <= mesh_at < meshes.len()
            &&& meshes[mesh_at]@ == primitives_from(buffer_at, materials@)
        },
        None => true,
    }
    &&& nodes[at].children@.len() == src.children@.len()
    &&& forall|k: int|
        0 <= k < src.children@.len() ==> #[trigger] nodes[at].children@[k] == at + 1
            + forest_size(src.children@.take(k)).0
    &&& laid_out_forest(
        nodes,
        meshes,
        at + 1,
        mesh_at + own_size(src).1,
        buffer_at + own_size(src).2,
        src.children@,
    )
}

/// The subtrees of `trees` are laid out one after another from node
/// `first`, mesh `mesh_at` and buffer pair `buffer_at`.
pub open spec fn laid_out_forest(
    nodes: Seq<LayoutNode>,
    meshes: Seq<Vec<Primitive>>,
    first: int,
    mesh_at: int,
    buffer_at: int,
    trees: Seq<NodeSource>,
) -> bool
    decreases trees,
{
    if trees.len() == 0 {
        true
    } else {
        let front = forest_size(trees.drop_last());
        &&& laid_out_forest(nodes, meshes, first, mesh_at, buffer_at, trees.drop_last())
        &&& laid_out(
            nodes,
            meshes,
            first + front.0,
            mesh_at + front.1,
            buffer_at + front.2,
            trees.last(),
        )
    }
}

/// A laid-out subtree stays laid out when only nodes and meshes outside
/// its own ranges change.
pub proof fn lemma_laid_out_frame(
    n1: Seq<LayoutNode>,
    m1: Seq<Vec<Primitive>>,
    n2: Seq<LayoutNode>,
    m2: Seq<Vec<Primitive>>,
    at: int,
    mesh_at: int,
    buffer_at: int,
    src: NodeSource,
)
    requires
        laid_out(n1, m1, at, mesh_at, buffer_at, src),
        0 <= mesh_at,
        at + subtree_size(src).0 <= n2.len(),
        forall|t: int| at <= t < at + subtree_size(src).0 ==> n2[t] == n1[t],
        mesh_at + subtree_size(src).1 <= m2.len(),
        mesh_at + subtree_size(src).1 <= m1.len(),
        forall|m: int| mesh_at <= m < mesh_at + subtree_size(src).1 ==> m2[m] == m1[m],
    ensures
        laid_out(n2, m2, at, mesh_at, buffer_at, src),
    decreases src,
{
    assert(n2[at] == n1[at]);
    if src.mesh is Some {
        assert(m2[mesh_at] == m1[mesh_at]);
    }
    lemma_laid_out_forest_frame(
        n1,
        m1,
        n2,
        m2,
        at + 1,
        mesh_at + own_size(src).1,
        buffer_at + own_size(src).2,
        src.children@,
    );
}

/// The forest part of `lemma_laid_out_frame`.
pub proof fn lemma_laid_out_forest_frame(
    n1: Seq<LayoutNode>,
    m1: Seq<Vec<Primitive>>,
    n2: Seq<LayoutNode>,
    m2: Seq<Vec<Primitive>>,
    first: int,
    mesh_at: int,
    buffer_at: int,
    trees: Seq<NodeSource>,
)
    requires
        laid_out_forest(n1, m1, first, mesh_at, buffer_at, trees),
        0 <= mesh_at,
        first + forest_size(trees).0 <= n2.len(),
        forall|t: int| first <= t < first + forest_size(trees).0 ==> n2[t] == n1[t],
        mesh_at + forest_size(trees).1 <= m2.len(),
        mesh_at + forest_size(trees).1 <= m1.len(),
        forall|m: int| mesh_at <= m < mesh_at + forest_size(trees).1 ==> m2[m] == m1[m],
    ensures
        laid_out_forest(n2, m2, first, mesh_at, buffer_at, trees),
    decreases trees,
{
    if trees.len() > 0 {
        let front = forest_size(trees.drop_last());
        lemma_laid_out_forest_frame(n1, m1, n2, m2, first, mesh_at, buffer_at, trees.drop_last());
        lemma_laid_out_frame(
            n1,
            m1,
            n2,
            m2,
            first + front.0,
            mesh_at + front.1,
            buffer_at + front.2,
            trees.last(),
        );
    }
}

/// Appends the subtree of `src` to the tables and returns the index of its
/// root node. The subtree's nodes follow in depth-first order, each before
/// its children; the root's mesh, when it has one, comes first among the
/// new meshes, its primitives taking the next buffer pairs in order.
pub fn append_node(layout: &mut ModelLayout, src: &NodeSource) -> (i: usize)
    requires
        old(layout).nodes@.len() + subtree_size(*src).0 <= usize::MAX,
        old(layout).buffer_count + subtree_size(*src).2 <= usize::MAX,
    ensures
        i == old(layout).nodes@.len(),
        final(layout).root_nodes@ == old(layout).root_nodes@,
        final(layout).nodes@.len() == old(layout).nodes@.len() + subtree_size(*src).0,
        final(layout).meshes@.len() == old(layout).meshes@.len() + subtree_size(*src).1,
        final(layout).buffer_count == old(layout).buffer_count + subtree_size(*src).2,
        forall|t: int|
            0 <= t < old(layout).nodes@.len() ==> final(layout).nodes@[t] == old(layout).nodes@[t],
        forall|m: int|
            0 <= m < old(layout).meshes@.len() ==> final(layout).meshes@[m] == old(
                layout,
            ).meshes@[m],
        final(layout).nodes@[i as int].mesh == match src.mesh {
            Some(_) => Some(old(layout).meshes@.len() as usize),
            None => None::<usize>,
        },
        match src.mesh {
            Some(materials) => {
                &&& final(layout).meshes@[old(layout).meshes@.len() as int]@.len()
                    == materials@.len()
                &&& forall|k: int|
                    #![trigger final(layout).meshes@[old(layout).meshes@.len() as int]@[k]]
                    0 <= k < materials@.len() ==> final(layout).meshes@[old(layout).meshes@.len() as int]@[k] == (Primitive {
                        vertex_buffer_ref: (old(layout).buffer_count + k) as usize,
                        index_buffer_ref: (old(layout).buffer_count + k) as usize,
                        material_ref: materials@[k],
                    })
            },
            None => true,
        },
        final(layout).nodes@[i as int].children@.len() == src.children@.len(),
        forall|k: int|
            0 <= k < src.children@.len() ==> #[trigger] final(layout).nodes@[i as int].children@[k]
                == i + 1 + forest_size(src.children@.take(k)).0,
        children_follow(final(layout).nodes@, i as int),
        buffers_within(
            final(layout).meshes@,
            old(layout).meshes@.len() as int,
            old(layout).buffer_count as int,
            final(layout).buffer_count as int,
        ),
        laid_out(
            final(layout).nodes@,
            final(layout).meshes@,
            i as int,
            old(layout).meshes@.len() as int,
            old(layout).buffer_count as int,
            *src,
        ),
    decreases src,
{
    let ghost start = *layout;
    let mesh = match &src.mesh {
        Some(materials) => {
            let mut primitives: Vec<Primitive> = Vec::new();
            let base = layout.buffer_count;
            let mut k: usize = 0;
            while k < materials.len()
                invariant
                    base == start.buffer_count,
                    base + materials@.len() <= usize::MAX,
                    k <= materials@.len(),
                    primitives@.len() == k,
                    forall|q: int|
                        0 <= q < k ==> #[trigger] primitives@[q] == (Primitive {
                            vertex_buffer_ref: (base + q) as usize,
                            index_buffer_ref: (base + q) as usize,
                            material_ref: materials@[q],
                        }),
                decreases materials@.len() - k,
            {
                primitives.push(
                    Primitive {
                        vertex_buffer_ref: base + k,
                        index_buffer_ref: base + k,
                        material_ref: materials[k],
                    },
                );
                k = k + 1;
            }
            layout.buffer_count = base + materials.len();
            layout.meshes.push(primitives);
            Some(layout.meshes.len() - 1)
        },
        None => None,
    };
    let ghost after_mesh = layout.meshes@;
    let self_index = layout.nodes.len();
    layout.nodes.push(LayoutNode { mesh, children: Vec::new() });
    let ghost own = own_size(*src);
    let mut k: usize = 0;
    while k < src.children.len()
        invariant
            self_index == start.nodes@.len(),
            layout.root_nodes@ == start.root_nodes@,
            k <= src.children@.len(),
            layout.nodes@.len() == self_index + 1 + forest_size(src.children@.take(k as int)).0,
            layout.meshes@.len() == start.meshes@.len() + own.1 + forest_size(
                src.children@.take(k as int),
            ).1,
            layout.buffer_count == start.buffer_count + own.2 + forest_size(
                src.children@.take(k as int),
            ).2,
            subtree_size(*src).0 == 1 + forest_size(src.children@).0,
            subtree_size(*src).1 == own.1 + forest_size(src.children@).1,
            subtree_size(*src).2 == own.2 + forest_size(src.children@).2,
            start.nodes@.len() + subtree_size(*src).0 <= usize::MAX,
            start.buffer_count + subtree_size(*src).2 <= usize::MAX,
            forall|t: int| 0 <= t < self_index ==> layout.nodes@[t] == start.nodes@[t],
            forall|m: int| 0 <= m < start.meshes@.len() ==> layout.meshes@[m] == start.meshes@[m],
            after_mesh.len() == start.meshes@.len() + own.1,
            forall|m: int| 0 <= m < after_mesh.len() ==> layout.meshes@[m] == after_mesh[m],
            match src.mesh {
                Some(materials) => {
                    &&& after_mesh[start.meshes@.len() as int]@.len() == materials@.len()
                    &&& forall|q: int|
                        #![trigger after_mesh[start.meshes@.len() as int]@[q]]
                        0 <= q < materials@.len() ==> after_mesh[start.meshes@.len() as int]@[q]
                            == (Primitive {
                            vertex_buffer_ref: (start.buffer_count + q) as usize,
                            index_buffer_ref: (start.buffer_count + q) as usize,
                            material_ref: materials@[q],
                        })
                },
                None => true,
            },
            layout.nodes@[self_index as int].mesh == mesh,
            layout.nodes@[self_index as int].children@.len() == k,
            forall|j: int|
                0 <= j < k ==> #[trigger] layout.nodes@[self_index as int].children@[j]
                    == self_index + 1 + forest_size(src.children@.take(j)).0,
            children_follow(layout.nodes@, self_index as int),
            buffers_within(
                layout.meshes@,
                start.meshes@.len() as int,
                start.buffer_count as int,
                layout.buffer_count as int,
            ),
            laid_out_forest(
                layout.nodes@,
                layout.meshes@,
                self_index + 1,
                (start.meshes@.len() + own.1) as int,
                (start.buffer_count + own.2) as int,
                src.children@.take(k as int),
            ),
        decreases src.children@.len() - k,
    {
        proof {
            lemma_forest_size_take(src.children@, k as int);
            lemma_forest_size_bound(src.children@, k + 1);
        }
        let ghost before_call = *layout;
        let address = append_node(layout, &src.children[k]);
        let ghost mid = layout.nodes@;
        let mut list: Vec<usize> = Vec::new();
        std::mem::swap(&mut list, &mut layout.nodes[self_index].children);
        list.push(address);
        let node_mesh = layout.nodes[self_index].mesh;
        layout.nodes.set(self_index, LayoutNode { mesh: node_mesh, children: list });
        proof {
            assert forall|t: int, j: int|
                #![trigger layout.nodes@[t].children@[j]]
                self_index <= t < layout.nodes@.len() && 0 <= j < layout.nodes@[t].children@.len()
                    implies t < layout.nodes@[t].children@[j] < layout.nodes@.len() by {
                if t == self_index {
                    if j < k {
                        assert(layout.nodes@[t].children@[j] == mid[t].children@[j]);
                    }
                } else {
                    assert(layout.nodes@[t] == mid[t]);
                }
            }
            let prefix = src.children@.take(k as int);
            let fp = forest_size(prefix);
            lemma_forest_size_bound(src.children@, k as int);
            lemma_laid_out_forest_frame(
                before_call.nodes@,
                before_call.meshes@,
                layout.nodes@,
                layout.meshes@,
                self_index + 1,
                (start.meshes@.len() + own.1) as int,
                (start.buffer_count + own.2) as int,
                prefix,
            );
            let child = src.children@[k as int];
            lemma_laid_out_frame(
                mid,
                layout.meshes@,
                layout.nodes@,
                layout.meshes@,
                address as int,
                before_call.meshes@.len() as int,
                before_call.buffer_count as int,
                child,
            );
            assert(src.children@.take(k + 1).drop_last() =~= prefix);
            assert(src.children@.take(k + 1).last() == child);
        }
        k = k + 1;
    }
    proof {
        assert(src.children@.take(src.children@.len() as int) =~= src.children@);
        if src.mesh is Some {
            let materials = src.mesh->0;
            assert(layout.meshes@[start.meshes@.len() as int]@ =~= primitives_from(
                start.buffer_count as int,
                materials@,
            ));
        }
    }
    self_index
}

/// Appends the top-level nodes `roots` of a scene to the tables, each with
/// its subtree, one after another, and records the index of each in
/// `root_nodes`.
pub fn append_scene(layout: &mut ModelLayout, roots: &Vec<NodeSource>)
    requires
        old(layout).nodes@.len() + forest_size(roots@).0 <= usize::MAX,
        old(layout).buffer_count + forest_size(roots@).2 <= usize::MAX,
    ensures
        final(layout).root_nodes@ == old(layout).root_nodes@ + Seq::new(
            roots@.len(),
            |k: int| (old(layout).nodes@.len() + forest_size(roots@.take(k)).0) as usize,
        ),
        final(layout).nodes@.len() == old(layout).nodes@.len() + forest_size(roots@).0,
        final(layout).meshes@.len() == old(layout).meshes@.len() + forest_size(roots@).1,
        final(layout).buffer_count == old(layout).buffer_count + forest_size(roots@).2,
        forall|t: int|
            0 <= t < old(layout).nodes@.len() ==> final(layout).nodes@[t] == old(layout).nodes@[t],
        forall|m: int|
            0 <= m < old(layout).meshes@.len() ==> final(layout).meshes@[m] == old(
                layout,
            ).meshes@[m],
        laid_out_forest(
            final(layout).nodes@,
            final(layout).meshes@,
            old(layout).nodes@.len() as int,
            old(layout).meshes@.len() as int,
            old(layout).buffer_count as int,
            roots@,
        ),
{
    let ghost start = *layout;
    let mut k: usize = 0;
    while k < roots.len()
        invariant
            k <= roots@.len(),
            layout.root_nodes@ == start.root_nodes@ + Seq::new(
                k as nat,
                |j: int| (start.nodes@.len() + forest_size(roots@.take(j)).0) as usize,
            ),
            layout.nodes@.len() == start.nodes@.len() + forest_size(roots@.take(k as int)).0,
            layout.meshes@.len() == start.meshes@.len() + forest_size(roots@.take(k as int)).1,
            layout.buffer_count == start.buffer_count + forest_size(roots@.take(k as int)).2,
            start.nodes@.len() + forest_size(roots@).0 <= usize::MAX,
            start.buffer_count + forest_size(roots@).2 <= usize::MAX,
            forall|t: int| 0 <= t < start.nodes@.len() ==> layout.nodes@[t] == start.nodes@[t],
            forall|m: int| 0 <= m < start.meshes@.len() ==> layout.meshes@[m] == start.meshes@[m],
            laid_out_forest(
                layout.nodes@,
                layout.meshes@,
                start.nodes@.len() as int,
                start.meshes@.len() as int,
                start.buffer_count as int,
                roots@.take(k as int),
            ),
        decreases roots@.len() - k,
    {
        proof {
            lemma_forest_size_take(roots@, k as int);
            lemma_forest_size_bound(roots@, k + 1);
            lemma_forest_size_bound(roots@, k as int);
        }
        let ghost before_call = *layout;
        let ghost prefix = roots@.take(k as int);
        layout.root_nodes.push(layout.nodes.len());
        let ghost pushed = *layout;
        let address = append_node(layout, &roots[k]);
        proof {
            lemma_laid_out_forest_frame(
                pushed.nodes@,
                pushed.meshes@,
                layout.nodes@,
                layout.meshes@,
                start.nodes@.len() as int,
                start.meshes@.len() as int,
                start.buffer_count as int,
                prefix,
            );
            assert(roots@.take(k + 1).drop_last() =~= prefix);
            assert(roots@.take(k + 1).last() == roots@[k as int]);
            assert(layout.root_nodes@ =~= start.root_nodes@ + Seq::new(
                (k + 1) as nat,
                |j: int| (start.nodes@.len() + forest_size(roots@.take(j)).0) as usize,
            ));
        }
        k = k + 1;
    }
    proof {
        assert(roots@.take(roots@.len() as int) =~= roots@);
    }
}

/// The first `k + 1` subtrees bring what the first `k` bring plus the
/// `k`-th.
pub proof fn lemma_forest_size_take(trees: Seq<NodeSource>, k: int)
    requires
        0 <= k < trees.len(),
    ensures
        forest_size(trees.take(k + 1)) == (
            forest_size(trees.take(k)).0 + subtree_size(trees[k]).0,
            forest_size(trees.take(k)).1 + subtree_size(trees[k]).1,
            forest_size(trees.take(k)).2 + subtree_size(trees[k]).2,
        ),
{
    assert(trees.take(k + 1).drop_last() =~= trees.take(k));
}

/// The first `k` subtrees bring no more than all of them.
pub proof fn lemma_forest_size_bound(trees: Seq<NodeSource>, k: int)
    requires
        0 <= k <= trees.len(),
    ensures
        forest_size(trees.take(k)).0 <= forest_size(trees).0,
        forest_size(trees.take(k)).1 <= forest_size(trees).1,
        forest_size(trees.take(k)).2 <= forest_size(trees).2,
    decreases trees.len(),
{
    if k == trees.len() {
        assert(trees.take(k) =~= trees);
    } else {
        lemma_forest_size_bound(trees.drop_last(), k);
        assert(trees.drop_last().take(k) =~= trees.take(k));
    }
}

} // verus!
