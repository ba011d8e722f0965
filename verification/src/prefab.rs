//! Prefabs: content-addressed entity templates, and the asset kinds that
//! carry prefabs and world documents.
//!
//! A prefab's identity is the BLAKE3 digest of its serialized bytes, so a
//! prefab read back from its own encoding keeps its id.

use vstd::prelude::*;
use crate::content::{AssetId, PrefabId, blake3_digest};

verus! {

/// Persistent form of a component override: the component's type path and
/// its serialized value.
#[derive(Clone, Debug, PartialEq, Eq)]
pub struct SerializedComponentOverride {
    /// Fully-qualified type path used for type-registry lookup.
    pub type_path: String,
    /// Serialized component value.
    pub data: Vec<u8>,
}

/// Asset references stored inside a prefab.
#[derive(Clone, Debug, PartialEq, Eq)]
pub struct PrefabAssets {
    /// Mesh assets referenced by this prefab.
    pub meshes: Vec<AssetId>,
    /// Material assets referenced by this prefab.
    pub materials: Vec<AssetId>,
    /// Script assets referenced by this prefab.
    pub scripts: Vec<AssetId>,
}

impl Default for PrefabAssets {
    fn default() -> (r: Self)
        ensures
            r.meshes@.len() == 0,
            r.materials@.len() == 0,
            r.scripts@.len() == 0,
    {
        PrefabAssets { meshes: Vec::new(), materials: Vec::new(), scripts: Vec::new() }
    }
}

/// A node in the prefab hierarchy.
#[derive(Debug, PartialEq, Eq)]
pub struct PrefabNode {
    /// Human-readable node name.
    pub name: String,
    /// Serialized component overrides for this node.
    pub components: Vec<SerializedComponentOverride>,
    /// Child nodes.
    pub children: Vec<PrefabNode>,
    /// If true, the spawned entity is kept across scene reloads.
    pub persist: bool,
}

impl PrefabNode {
    /// Creates a leaf node with the given name.
    pub fn named(name: &str) -> (r: Self)
        ensures
            r.name@ == name@,
            r.components@.len() == 0,
            r.children@.len() == 0,
            !r.persist,
    {
        PrefabNode { name: name.to_owned(), components: Vec::new(), children: Vec::new(), persist: false }
    }
}

impl Default for PrefabNode {
    fn default() -> (r: Self)
        ensures
            r.name@.len() == 0,
            r.components@.len() == 0,
            r.children@.len() == 0,
            !r.persist,
    {
        PrefabNode { name: String::new(), components: Vec::new(), children: Vec::new(), persist: false }
    }
}

/// A content-addressed hierarchical prefab.
#[derive(Debug)]
pub struct Prefab {
    /// Human-readable prefab name.
    pub name: String,
    /// Root node of the hierarchy.
    pub root: PrefabNode,
    /// Asset references used by the prefab.
    pub assets: PrefabAssets,
    /// BLAKE3 digest of the prefab's serialized bytes.
    pub prefab_id: PrefabId,
}

impl Prefab {
    /// Assembles a prefab from its parts and the bytes they serialize to;
    /// the id is the digest of those bytes.
    pub fn from_encoding(name: String, root: PrefabNode, assets: PrefabAssets, encoded: &[u8]) -> (r: Self)
        ensures
            r.name == name,
            r.root == root,
            r.assets == assets,
            (r.prefab_id.0).0@ == blake3_digest(encoded@),
    {
        Prefab { name, root, assets, prefab_id: PrefabId::compute(encoded) }
    }
}

/// The `.hyge-prefab` asset kind.
#[derive(Clone, Copy, Debug, Default)]
pub struct PrefabAsset;

impl PrefabAsset {
    /// File extensions of the kind.
    pub fn extensions() -> (r: Vec<&'static str>)
        ensures
            r@.len() == 1,
            r@[0]@ == "hyge-prefab"@,
    {
        vec!["hyge-prefab"]
    }
}

/// The `.hyge-world` asset kind.
#[derive(Clone, Copy, Debug, Default)]
pub struct WorldAsset;

impl WorldAsset {
    /// File extensions of the kind.
    pub fn extensions() -> (r: Vec<&'static str>)
        ensures
            r@.len() == 1,
            r@[0]@ == "hyge-world"@,
    {
        vec!["hyge-world"]
    }
}

/// One entity to spawn when a prefab is instantiated.
#[derive(Clone, Debug, PartialEq, Eq)]
pub struct SpawnStep {
    /// Child indices leading from the root node to the node spawned.
    pub path: Vec<usize>,
    /// The step whose entity is this entity's parent; `None` for the root,
    /// whose parent is the one the caller names, if any.
    pub parent: Option<usize>,
    /// Whether the entity is kept across scene reloads.
    pub persist: bool,
    /// The entity's name.
    pub name: String,
}

/// A spawn step as plain values.
pub struct StepView {
    /// Child indices leading from the root node.
    pub path: Seq<usize>,
    /// Index of the parent step.
    pub parent: Option<usize>,
    /// Keep across reloads.
    pub persist: bool,
    /// Name.
    pub name: Seq<char>,
}

impl View for SpawnStep {
    type V = StepView;

    open spec fn view(&self) -> StepView {
        StepView { path: self.path@, parent: self.parent, persist: self.persist, name: self.name@ }
    }
}

/// The steps of a subtree in depth-first pre-order: the node itself at
/// index `base`, then the subtrees of its children, first child first.
pub open spec fn node_steps(node: PrefabNode, path: Seq<usize>, parent: Option<usize>, base: nat) -> Seq<StepView>
    decreases node,
{
    seq![StepView { path, parent, persist: node.persist, name: node.name@ }] + forest_steps(
        node.children@,
        path,
        base as usize,
        base + 1,
    )
}

/// The steps of the subtrees of a list of sibling nodes, children of the
/// step at `parent_index`, numbered from `start`.
pub open spec fn forest_steps(nodes: Seq<PrefabNode>, path: Seq<usize>, parent_index: usize, start: nat) -> Seq<StepView>
    decreases nodes,
{
    if nodes.len() == 0 {
        Seq::empty()
    } else {
        let before = forest_steps(nodes.drop_last(), path, parent_index, start);
        before + node_steps(
            nodes.last(),
            path.push((nodes.len() - 1) as usize),
            Some(parent_index),
            start + before.len(),
        )
    }
}

/// The plain values of a list of spawn steps.
pub open spec fn step_views(steps: Seq<SpawnStep>) -> Seq<StepView> {
    steps.map_values(|st: SpawnStep| st@)
}

/// Appends the steps of the subtree at `node`, whose path is `path` and
/// whose parent step is `parent`.
fn push_node_steps(node: &PrefabNode, path: &mut Vec<usize>, parent: Option<usize>, out: &mut Vec<SpawnStep>)
    ensures
        final(path)@ == old(path)@,
        step_views(final(out)@) == step_views(old(out)@) + node_steps(*node, old(path)@, parent, old(out)@.len()),
    decreases node,
{
    let ghost start = out@;
    let base = out.len();
    let p = path.clone();
    assert(p@ =~= path@);
    out.push(SpawnStep { path: p, parent, persist: node.persist, name: node.name.clone() });
    proof {
        assert(step_views(out@) =~= step_views(start) + seq![
            StepView { path: path@, parent, persist: node.persist, name: node.name@ },
        ]);
    }
    let ghost path0 = path@;
    let mut i: usize = 0;
    while i < node.children.len()
        invariant
            i <= node.children@.len(),
            path@ == path0,
            base == start.len(),
            step_views(out@) == step_views(start) + seq![
                StepView { path: path0, parent, persist: node.persist, name: node.name@ },
            ] + forest_steps(node.children@.take(i as int), path0, base, (base + 1) as nat),
        decreases node.children@.len() - i,
    {
        let ghost before = out@;
        path.push(i);
        assert(decreases_to!(node => node.children));
        push_node_steps(&node.children[i], path, Some(base), out);
        path.pop();
        proof {
            let kids = node.children@.take(i + 1);
            assert(kids.drop_last() =~= node.children@.take(i as int));
            assert(kids.last() == node.children@[i as int]);
            assert(path0.push(i) == path0.push((kids.len() - 1) as usize));
            assert(step_views(out@) =~= step_views(start) + seq![
                StepView { path: path0, parent, persist: node.persist, name: node.name@ },
            ] + forest_steps(kids, path0, base, (base + 1) as nat));
        }
        i = i + 1;
    }
    proof {
        assert(node.children@.take(node.children@.len() as int) =~= node.children@);
        assert(step_views(out@) =~= step_views(start) + node_steps(*node, path0, parent, start.len()));
    }
}

/// In the steps of a subtree the node comes first, with the parent it was
/// given, and every later step names as parent a step of the subtree that
/// comes before it.
pub proof fn lemma_node_steps_parents(node: PrefabNode, path: Seq<usize>, parent: Option<usize>, base: nat)
    requires
        base + node_steps(node, path, parent, base).len() <= usize::MAX,
    ensures
        node_steps(node, path, parent, base).len() >= 1,
        node_steps(node, path, parent, base)[0].parent == parent,
        node_steps(node, path, parent, base)[0].path == path,
        forall|j: int|
            1 <= j < node_steps(node, path, parent, base).len() ==> (#[trigger] node_steps(
                node,
                path,
                parent,
                base,
            )[j]).parent is Some && base <= node_steps(node, path, parent, base)[j].parent->0 < base + j,
    decreases node,
{
    let s = node_steps(node, path, parent, base);
    let f = forest_steps(node.children@, path, base as usize, base + 1);
    lemma_forest_steps_parents(node.children@, path, base as usize, base + 1);
    assert forall|j: int| 1 <= j < s.len() implies (#[trigger] s[j]).parent is Some && base <= s[j].parent->0
        < base + j by {
        assert(s[j] == f[j - 1]);
    }
}

/// In the steps of a list of sibling subtrees every step names as parent
/// either the siblings' parent step or a step of the list that comes
/// before it.
pub proof fn lemma_forest_steps_parents(nodes: Seq<PrefabNode>, path: Seq<usize>, parent_index: usize, start: nat)
    requires
        parent_index < start,
        start + forest_steps(nodes, path, parent_index, start).len() <= usize::MAX,
    ensures
        forall|j: int|
            0 <= j < forest_steps(nodes, path, parent_index, start).len() ==> (#[trigger] forest_steps(
                nodes,
                path,
                parent_index,
                start,
            )[j]).parent is Some && (forest_steps(nodes, path, parent_index, start)[j].parent->0 == parent_index
                || start <= forest_steps(nodes, path, parent_index, start)[j].parent->0 < start + j),
    decreases nodes,
{
    if nodes.len() > 0 {
        let before = forest_steps(nodes.drop_last(), path, parent_index, start);
        let child_base = start + before.len();
        let last = node_steps(nodes.last(), path.push((nodes.len() - 1) as usize), Some(parent_index), child_base);
        let s = forest_steps(nodes, path, parent_index, start);
        assert(s == before + last);
        lemma_forest_steps_parents(nodes.drop_last(), path, parent_index, start);
        lemma_node_steps_parents(nodes.last(), path.push((nodes.len() - 1) as usize), Some(parent_index), child_base);
        assert forall|j: int| 0 <= j < s.len() implies (#[trigger] s[j]).parent is Some && (s[j].parent->0
            == parent_index || start <= s[j].parent->0 < start + j) by {
            if j < before.len() {
                assert(s[j] == before[j]);
            } else {
                assert(s[j] == last[j - before.len()]);
            }
        }
    }
}

impl Prefab {
    /// The entities instantiating the prefab spawns, in spawn order: the
    /// root node first, then each child's subtree in depth-first pre-order.
    /// Each step names its parent step; the root's parent is the caller's.
    pub fn spawn_plan(&self) -> (r: Vec<SpawnStep>)
        ensures
            step_views(r@) == node_steps(self.root, Seq::empty(), None, 0),
            r@.len() >= 1,
            r@[0].parent is None,
            r@[0].path@.len() == 0,
            forall|j: int| 1 <= j < r@.len() ==> (#[trigger] r@[j]).parent is Some && r@[j].parent->0 < j,
    {
        let mut out: Vec<SpawnStep> = Vec::new();
        let mut path: Vec<usize> = Vec::new();
        push_node_steps(&self.root, &mut path, None, &mut out);
        assert(step_views(Seq::<SpawnStep>::empty()) =~= Seq::<StepView>::empty());
        assert(path@ =~= Seq::<usize>::empty());
        let n = out.len();
        proof {
            let v = step_views(out@);
            assert(v.len() == n);
            lemma_node_steps_parents(self.root, Seq::empty(), None, 0);
            assert forall|j: int| 1 <= j < out@.len() implies (#[trigger] out@[j]).parent is Some && out@[j].parent->0
                < j by {
                assert(v[j] == out@[j]@);
            }
            assert(v[0] == out@[0]@);
        }
        out
    }
}

} // verus!
