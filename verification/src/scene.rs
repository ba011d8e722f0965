//! Scene-document runtime rules: the diff that drives hot reload, the
//! decision whether a reload event concerns the loaded scene, the parent
//! links between placed prefab instances, and child-list bookkeeping.

use vstd::prelude::*;
use crate::content::AssetId;

verus! {

/// Summary of the difference between two scene documents.
#[derive(Clone, Copy, Debug, PartialEq, Eq, Structural)]
pub struct SceneDocumentDiff {
    /// Number of newly added root prefab instances.
    pub added_instances: usize,
    /// Number of removed root prefab instances.
    pub removed_instances: usize,
    /// Number of changed root prefab instances (same index, different value).
    pub changed_instances: usize,
    /// Whether the environment block changed.
    pub environment_changed: bool,
    /// Whether the post-process block changed.
    pub post_process_changed: bool,
}

impl SceneDocumentDiff {
    /// The root instance list changed in some way.
    pub open spec fn spec_root_instances_changed(self) -> bool {
        self.added_instances > 0 || self.removed_instances > 0 || self.changed_instances > 0
    }

    /// Some part of the document changed: the root instances, the
    /// environment or the post-process block.
    pub open spec fn spec_is_empty(self) -> bool {
        self.spec_root_instances_changed() || self.environment_changed || self.post_process_changed
    }

    /// Returns true when the root instance list changed in any way.
    pub fn root_instances_changed(&self) -> (r: bool)
        ensures
            r == self.spec_root_instances_changed(),
    {
        self.added_instances > 0 || self.removed_instances > 0 || self.changed_instances > 0
    }

    /// Returns true when any part of the document changed.
    pub fn is_empty(&self) -> (r: bool)
        ensures
            r == self.spec_is_empty(),
    {
        self.root_instances_changed() || self.environment_changed || self.post_process_changed
    }
}

impl Default for SceneDocumentDiff {
    fn default() -> (r: Self)
        ensures
            r.added_instances == 0,
            r.removed_instances == 0,
            r.changed_instances == 0,
            !r.environment_changed,
            !r.post_process_changed,
    {
        SceneDocumentDiff {
            added_instances: 0,
            removed_instances: 0,
            changed_instances: 0,
            environment_changed: false,
            post_process_changed: false,
        }
    }
}

/// Number of `false` entries in `s`.
pub open spec fn count_false(s: Seq<bool>) -> nat
    decreases s.len(),
{
    if s.len() == 0 {
        0
    } else {
        count_false(s.drop_last()) + if s.last() {
            0nat
        } else {
            1nat
        }
    }
}

/// `count_false` never exceeds the length, and is zero exactly when every
/// entry is `true`.
pub proof fn lemma_count_false(s: Seq<bool>)
    ensures
        count_false(s) <= s.len(),
        count_false(s) == 0 <==> (forall|i: int| 0 <= i < s.len() ==> #[trigger] s[i]),
    decreases s.len(),
{
    if s.len() > 0 {
        lemma_count_false(s.drop_last());
        if forall|i: int| 0 <= i < s.len() ==> #[trigger] s[i] {
            assert forall|i: int| 0 <= i < s.drop_last().len() implies #[trigger] s.drop_last()[i] by {
                assert(s[i]);
            }
        }
        if count_false(s) == 0 {
            assert forall|i: int| 0 <= i < s.len() implies #[trigger] s[i] by {
                if i < s.len() - 1 {
                    assert(s.drop_last()[i] == s[i]);
                }
            }
        }
    }
}

/// Builds the diff of two documents from the comparisons made on them: the
/// two root-instance counts, for each index both documents have whether
/// the instances there are equal, and whether the environment and the
/// post-process blocks differ.
pub fn diff_from_comparisons(
    old_len: usize,
    new_len: usize,
    same_instance: &Vec<bool>,
    environment_changed: bool,
    post_process_changed: bool,
) -> (r: SceneDocumentDiff)
    requires
        same_instance@.len() == if old_len <= new_len {
            old_len
        } else {
            new_len
        },
    ensures
        r.added_instances == if new_len >= old_len {
            new_len - old_len
        } else {
            0
        },
        r.removed_instances == if old_len >= new_len {
            old_len - new_len
        } else {
            0
        },
        r.changed_instances == count_false(same_instance@),
        r.environment_changed == environment_changed,
        r.post_process_changed == post_process_changed,
        r.added_instances == 0 || r.removed_instances == 0,
        new_len + r.removed_instances == old_len + r.added_instances,
        !r.spec_is_empty() <==> (old_len == new_len && !environment_changed && !post_process_changed
            && forall|i: int| 0 <= i < same_instance@.len() ==> #[trigger] same_instance@[i]),
{
    let mut changed: usize = 0;
    let mut i: usize = 0;
    while i < same_instance.len()
        invariant
            i <= same_instance@.len(),
            changed == count_false(same_instance@.take(i as int)),
            changed <= i,
        decreases same_instance@.len() - i,
    {
        proof {
            assert(same_instance@.take(i + 1).drop_last() =~= same_instance@.take(i as int));
        }
        if !same_instance[i] {
            changed = changed + 1;
        }
        i = i + 1;
    }
    proof {
        assert(same_instance@.take(same_instance@.len() as int) =~= same_instance@);
        lemma_count_false(same_instance@);
    }
    SceneDocumentDiff {
        added_instances: new_len.saturating_sub(old_len),
        removed_instances: old_len.saturating_sub(new_len),
        changed_instances: changed,
        environment_changed,
        post_process_changed,
    }
}

/// The diff reported when a scene is reloaded with no previous document:
/// every root instance of the new document counts as added.
pub fn initial_load_diff(new_len: usize) -> (r: SceneDocumentDiff)
    ensures
        r.added_instances == new_len,
        r.removed_instances == 0,
        r.changed_instances == 0,
        !r.environment_changed,
        !r.post_process_changed,
{
    SceneDocumentDiff {
        added_instances: new_len,
        removed_instances: 0,
        changed_instances: 0,
        environment_changed: false,
        post_process_changed: false,
    }
}

/// What a hot reload does once the new document is read and diffed.
#[derive(Clone, Copy, Debug, PartialEq, Eq, Structural)]
pub enum ReloadStep {
    /// Nothing changed: keep the live scene and only record the new content
    /// id and the (empty) diff.
    RecordOnly,
    /// Something changed: unload the live scene and load the new document.
    ReplaceScene,
}

/// Chooses the hot-reload step for a diff: the scene is replaced exactly
/// when some part of the document changed ([`SceneDocumentDiff::is_empty`]).
pub fn reload_step(diff: &SceneDocumentDiff) -> (r: ReloadStep)
    ensures
        r == (if diff.spec_is_empty() {
            ReloadStep::ReplaceScene
        } else {
            ReloadStep::RecordOnly
        }),
{
    if diff.is_empty() {
        ReloadStep::ReplaceScene
    } else {
        ReloadStep::RecordOnly
    }
}

/// One drained reload event: whether its path is the loaded scene's source
/// path, and the content id it carries.
#[derive(Clone, Copy, Debug, PartialEq, Eq)]
pub struct ReloadEvent {
    /// The event's path equals the loaded scene's source path.
    pub path_matches: bool,
    /// The content id the event carries.
    pub id: AssetId,
}

/// The event concerns the loaded scene: same path, or the id of the loaded
/// scene content.
pub open spec fn event_concerns_scene(e: ReloadEvent, current: Option<AssetId>) -> bool {
    e.path_matches || (current is Some && (current->0).0@ == e.id.0@)
}

/// Whether any drained event concerns the loaded scene, so that the scene
/// is re-read from disk.
pub fn should_reload(events: &Vec<ReloadEvent>, current: Option<AssetId>) -> (r: bool)
    ensures
        r <==> exists|i: int| 0 <= i < events@.len() && event_concerns_scene(#[trigger] events@[i], current),
{
    let mut i: usize = 0;
    while i < events.len()
        invariant
            i <= events@.len(),
            forall|j: int| 0 <= j < i ==> !event_concerns_scene(#[trigger] events@[j], current),
        decreases events@.len() - i,
    {
        let e = events[i];
        if e.path_matches {
            assert(event_concerns_scene(events@[i as int], current));
            return true;
        }
        match current {
            Some(id) => {
                if id.same(&e.id) {
                    assert(event_concerns_scene(events@[i as int], current));
                    return true;
                }
            },
            None => {},
        }
        i = i + 1;
    }
    false
}

/// Why a placed instance's parent index could not be wired.
#[derive(Clone, Copy, Debug, PartialEq, Eq, Structural)]
pub enum ParentLinkError {
    /// The parent index is not the index of any placed instance.
    OutOfRange {
        /// The instance whose parent is bad.
        index: usize,
        /// The parent index it names.
        parent_index: usize,
        /// How many instances there are.
        count: usize,
    },
    /// The instance names itself as its parent.
    SelfParent {
        /// The instance.
        index: usize,
    },
}

/// The parent links of a list of placed instances: the `(parent, child)`
/// pairs wired in index order, and the error that stopped the wiring, if
/// any. Links wired before the error stay wired.
#[derive(Clone, Debug, PartialEq, Eq)]
pub struct ParentLinks {
    /// `(parent index, child index)` pairs, in the order they are wired.
    pub links: Vec<(usize, usize)>,
    /// The first bad parent reference, if any.
    pub error: Option<ParentLinkError>,
}

/// The parent reference of instance `i` is bad.
pub open spec fn bad_parent(parents: Seq<Option<u32>>, i: int) -> bool {
    parents[i] is Some && (parents[i]->0 >= parents.len() || parents[i]->0 == i)
}

/// The links wired for the first `n` instances, none of them bad.
pub open spec fn links_upto(parents: Seq<Option<u32>>, n: nat) -> Seq<(usize, usize)>
    decreases n,
{
    if n == 0 {
        Seq::empty()
    } else {
        let prev = links_upto(parents, (n - 1) as nat);
        match parents[n - 1] {
            Some(p) => prev.push((p as usize, (n - 1) as usize)),
            None => prev,
        }
    }
}

/// Marker of the entities a loaded scene manages (its root prefab
/// instances and environment helper entities).
#[derive(Copy, Clone, Debug, Default, PartialEq, Eq, Structural)]
pub struct SceneManagedEntity;

/// Loads scene documents; it keeps no state.
#[derive(Copy, Clone, Debug, Default)]
pub struct WorldLoader;

impl WorldLoader {
    /// Resolves the parent index of every placed instance, in index order. An
    /// index that names no instance, or the instance itself, stops the wiring
    /// with an error; the links before it are kept.
    pub fn resolve_parent_links(parents: &Vec<Option<u32>>) -> (r: ParentLinks)
        ensures
            match r.error {
                None => {
                    &&& forall|i: int| 0 <= i < parents@.len() ==> !bad_parent(parents@, i)
                    &&& r.links@ == links_upto(parents@, parents@.len())
                },
                Some(e) => {
                    let i: int = match e {
                        ParentLinkError::OutOfRange { index, .. } => index as int,
                        ParentLinkError::SelfParent { index } => index as int,
                    };
                    &&& 0 <= i < parents@.len()
                    &&& bad_parent(parents@, i)
                    &&& forall|j: int| 0 <= j < i ==> !bad_parent(parents@, j)
                    &&& r.links@ == links_upto(parents@, i as nat)
                    &&& (e matches ParentLinkError::OutOfRange { parent_index, count, .. } ==> parents@[i]->0
                        == parent_index && parent_index >= count && count == parents@.len())
                    &&& (e is SelfParent <==> parents@[i]->0 < parents@.len())
                },
            },
    {
        let mut links: Vec<(usize, usize)> = Vec::new();
        let n = parents.len();
        let mut i: usize = 0;
        while i < n
            invariant
                n == parents@.len(),
                i <= n,
                forall|j: int| 0 <= j < i ==> !bad_parent(parents@, j),
                links@ == links_upto(parents@, i as nat),
            decreases n - i,
        {
            match parents[i] {
                Some(p) => {
                    let pi = p as usize;
                    if pi >= n {
                        return ParentLinks {
                            links,
                            error: Some(ParentLinkError::OutOfRange { index: i, parent_index: pi, count: n }),
                        };
                    }
                    if pi == i {
                        return ParentLinks { links, error: Some(ParentLinkError::SelfParent { index: i }) };
                    }
                    links.push((pi, i));
                },
                None => {},
            }
            i = i + 1;
        }
        ParentLinks { links, error: None }
    }
}

/// A child list with `child` recorded: unchanged when it is already there,
/// else with `child` appended.
pub open spec fn with_child(children: Seq<u64>, child: u64) -> Seq<u64> {
    if children.contains(child) {
        children
    } else {
        children.push(child)
    }
}

/// Records `child` in a parent's child list unless it is already there.
pub fn link_child(children: &mut Vec<u64>, child: u64)
    ensures
        final(children)@ == with_child(old(children)@, child),
{
    let mut i: usize = 0;
    while i < children.len()
        invariant
            i <= children@.len(),
            children@ == old(children)@,
            forall|j: int| 0 <= j < i ==> children@[j] != child,
        decreases children@.len() - i,
    {
        if children[i] == child {
            assert(children@[i as int] == child);
            return;
        }
        i = i + 1;
    }
    assert(!children@.contains(child));
    children.push(child);
}

/// Recording a child puts it in the list, keeps every child already there
/// and never lists a child twice; recording it again changes nothing.
pub proof fn law_link_child(children: Seq<u64>, child: u64)
    ensures
        with_child(children, child).contains(child),
        forall|c: u64| children.contains(c) ==> with_child(children, child).contains(c),
        children.no_duplicates() ==> with_child(children, child).no_duplicates(),
        with_child(with_child(children, child), child) == with_child(children, child),
{
    let w = with_child(children, child);
    if !children.contains(child) {
        assert(w[children.len() as int] == child);
        assert forall|c: u64| children.contains(c) implies w.contains(c) by {
            let i = choose|i: int| 0 <= i < children.len() && children[i] == c;
            assert(w[i] == c);
        }
        if children.no_duplicates() {
            assert forall|a: int, b: int| 0 <= a < w.len() && 0 <= b < w.len() && a != b implies w[a] != w[b] by {
                if a == children.len() {
                    assert(w[b] == children[b]);
                } else if b == children.len() {
                    assert(w[a] == children[a]);
                } else {
                    assert(w[a] == children[a] && w[b] == children[b]);
                }
            }
        }
    }
}

/// A child list with each of `new` recorded in turn.
pub open spec fn with_children(children: Seq<u64>, new: Seq<u64>) -> Seq<u64>
    decreases new.len(),
{
    if new.len() == 0 {
        children
    } else {
        with_child(with_children(children, new.drop_last()), new.last())
    }
}

/// The child list of a parent after its newly re-parented children are
/// recorded: appended one by one without repeats to the list it has, or
/// taken as they are when it has none.
pub fn merge_children(existing: Option<Vec<u64>>, new: Vec<u64>) -> (r: Vec<u64>)
    ensures
        match existing {
            Some(c) => r@ == with_children(c@, new@),
            None => r@ == new@,
        },
{
    match existing {
        Some(mut children) => {
            let ghost start = children@;
            let mut i: usize = 0;
            while i < new.len()
                invariant
                    i <= new@.len(),
                    children@ == with_children(start, new@.take(i as int)),
                decreases new@.len() - i,
            {
                link_child(&mut children, new[i]);
                proof {
                    assert(new@.take(i + 1).drop_last() =~= new@.take(i as int));
                    assert(new@.take(i + 1).last() == new@[i as int]);
                }
                i = i + 1;
            }
            proof {
                assert(new@.take(new@.len() as int) =~= new@);
            }
            children
        },
        None => new,
    }
}

/// When no parent reference is bad, the wired links are exactly the pairs
/// `(parents[i], i)` for every instance `i` that names a parent, whether
/// the parent is listed before or after it, in increasing order of `i`.
pub proof fn law_parent_links_are_every_named_parent(parents: Seq<Option<u32>>)
    requires
        parents.len() <= usize::MAX,
        forall|i: int| 0 <= i < parents.len() ==> !bad_parent(parents, i),
    ensures
        ({
            let l = links_upto(parents, parents.len());
            &&& forall|k: int| 0 <= k < l.len() ==> (#[trigger] l[k]).1 < parents.len() && parents[l[k].1 as int]
                == Some(l[k].0 as u32)
            &&& forall|i: int| 0 <= i < parents.len() && #[trigger] parents[i] is Some ==> l.contains(
                (parents[i]->0 as usize, i as usize),
            )
            &&& forall|a: int, c: int| 0 <= a < c < l.len() ==> (#[trigger] l[a]).1 < (#[trigger] l[c]).1
        }),
{
    lemma_links_upto(parents, parents.len());
}

proof fn lemma_links_upto(parents: Seq<Option<u32>>, n: nat)
    requires
        n <= parents.len(),
        parents.len() <= usize::MAX,
    ensures
        ({
            let l = links_upto(parents, n);
            &&& forall|k: int| 0 <= k < l.len() ==> (#[trigger] l[k]).1 < n && parents[l[k].1 as int] == Some(
                l[k].0 as u32,
            )
            &&& forall|i: int| 0 <= i < n && #[trigger] parents[i] is Some ==> l.contains(
                (parents[i]->0 as usize, i as usize),
            )
            &&& forall|a: int, c: int| 0 <= a < c < l.len() ==> (#[trigger] l[a]).1 < (#[trigger] l[c]).1
        }),
    decreases n,
{
    if n > 0 {
        let m = (n - 1) as nat;
        lemma_links_upto(parents, m);
        let prev = links_upto(parents, m);
        let l = links_upto(parents, n);
        match parents[m as int] {
            Some(p) => {
                assert(l == prev.push((p as usize, m as usize)));
                assert forall|k: int| 0 <= k < l.len() implies (#[trigger] l[k]).1 < n && parents[l[k].1 as int]
                    == Some(l[k].0 as u32) by {
                    if k < prev.len() {
                        assert(l[k] == prev[k]);
                    }
                }
                assert forall|i: int| 0 <= i < n && #[trigger] parents[i] is Some implies l.contains(
                    (parents[i]->0 as usize, i as usize),
                ) by {
                    if i < m {
                        let k = choose|k: int| 0 <= k < prev.len() && prev[k] == (parents[i]->0 as usize, i as usize);
                        assert(l[k] == prev[k]);
                    } else {
                        assert(l[prev.len() as int] == (p as usize, m as usize));
                    }
                }
                assert forall|a: int, c: int| 0 <= a < c < l.len() implies (#[trigger] l[a]).1 < (#[trigger] l[c]).1 by {
                    if c < prev.len() {
                        assert(l[a] == prev[a] && l[c] == prev[c]);
                    } else {
                        assert(l[a] == prev[a]);
                    }
                }
            },
            None => {
                assert(l == prev);
            },
        }
    }
}

} // verus!
