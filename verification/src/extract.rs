//! Render-extraction batching: visible renderables are grouped by their
//! `(mesh, material)` pair into instanced draw commands whose instances
//! lie contiguously in the instance buffer.
//!
//! Two paths feed one frame. Entities that carry raw bindless indices are
//! grouped in `(mesh_id, material_id)` order; entities whose typed asset
//! handles resolved to slots are grouped in `(material_id, mesh_id)` order
//! so consecutive draws share pipelines. Both paths write one instance
//! buffer: the first path's groups come first, and `first_instance` runs on
//! without gaps. Within a group instances keep the order in which the
//! entities were visited.

use vstd::prelude::*;

verus! {

/// The bindless mesh id an entity draws with.
#[derive(Copy, Clone, Debug, Default, PartialEq, Eq, Hash, Structural)]
pub struct MeshHandle(pub u32);

/// The bindless material id an entity draws with.
#[derive(Copy, Clone, Debug, Default, PartialEq, Eq, Hash, Structural)]
pub struct MaterialHandle(pub u32);

/// One visible renderable: the bindless mesh and material slot it draws
/// with.
#[derive(Copy, Clone, Debug, PartialEq, Eq, Structural)]
pub struct Renderable {
    /// Bindless mesh id.
    pub mesh_id: u32,
    /// Bindless material id.
    pub material_id: u32,
}

/// One instanced draw.
#[derive(Copy, Clone, Debug, PartialEq, Eq, Structural)]
pub struct DrawBatch {
    /// Bindless mesh id.
    pub mesh_id: u32,
    /// Bindless material id.
    pub material_id: u32,
    /// First instance of the draw in the instance buffer.
    pub first_instance: u32,
    /// Number of instances.
    pub instance_count: u32,
}

/// The batches of one frame: the draws, and for each path the renderables
/// (by index into that path's input) in instance-buffer order.
#[derive(Clone, Debug, PartialEq, Eq)]
pub struct FrameBatches {
    /// Indices into the raw-index path's renderables, in buffer order.
    pub legacy_order: Vec<usize>,
    /// Indices into the resolved-handle path's renderables, in buffer
    /// order; they follow the first path's instances.
    pub static_order: Vec<usize>,
    /// All draws: the raw-index path's groups, then the other path's.
    pub draws: Vec<DrawBatch>,
}

/// Lexicographic order on grouping keys.
pub open spec fn key_lt(a: (u32, u32), b: (u32, u32)) -> bool {
    a.0 < b.0 || (a.0 == b.0 && a.1 < b.1)
}

/// Keys in strictly increasing order.
pub open spec fn strictly_sorted(ks: Seq<(u32, u32)>) -> bool {
    forall|i: int, j: int| 0 <= i < j < ks.len() ==> key_lt(#[trigger] ks[i], #[trigger] ks[j])
}

/// `ks` lists exactly the distinct keys of `items`, in increasing order.
pub open spec fn distinct_keys_of(items: Seq<(u32, u32)>, ks: Seq<(u32, u32)>) -> bool {
    &&& strictly_sorted(ks)
    &&& forall|i: int| 0 <= i < items.len() ==> ks.contains(#[trigger] items[i])
    &&& forall|j: int| 0 <= j < ks.len() ==> items.contains(#[trigger] ks[j])
}

/// Indices, in increasing order, of the first `n` items whose key is `k`.
pub open spec fn group_of(items: Seq<(u32, u32)>, k: (u32, u32), n: nat) -> Seq<usize>
    decreases n,
{
    if n == 0 {
        Seq::empty()
    } else {
        let g = group_of(items, k, (n - 1) as nat);
        if items[n - 1] == k {
            g.push((n - 1) as usize)
        } else {
            g
        }
    }
}

/// The groups of the first `n` items for the keys `ks`, one after the
/// other.
pub open spec fn groups(items: Seq<(u32, u32)>, ks: Seq<(u32, u32)>, n: nat) -> Seq<usize>
    decreases ks.len(),
{
    if ks.len() == 0 {
        Seq::empty()
    } else {
        groups(items, ks.drop_last(), n) + group_of(items, ks.last(), n)
    }
}

/// The grouping key of a renderable on the raw-index path.
pub open spec fn mesh_major(r: Renderable) -> (u32, u32) {
    (r.mesh_id, r.material_id)
}

/// The grouping key of a renderable on the resolved-handle path.
pub open spec fn material_major(r: Renderable) -> (u32, u32) {
    (r.material_id, r.mesh_id)
}

/// The keys of a list of renderables.
pub open spec fn keys_of(rs: Seq<Renderable>, material_first: bool) -> Seq<(u32, u32)> {
    rs.map_values(
        |r: Renderable|
            if material_first {
                material_major(r)
            } else {
                mesh_major(r)
            },
    )
}

/// The draw of group `j` of a path: its key, first instance `base` plus
/// the size of the groups before it, and its size.
pub open spec fn group_draw(items: Seq<(u32, u32)>, ks: Seq<(u32, u32)>, j: int, base: nat, material_first: bool) -> DrawBatch {
    let k = ks[j];
    DrawBatch {
        mesh_id: if material_first {
            k.1
        } else {
            k.0
        },
        material_id: if material_first {
            k.0
        } else {
            k.1
        },
        first_instance: (base + groups(items, ks.take(j), items.len()).len()) as u32,
        instance_count: group_of(items, k, items.len()).len() as u32,
    }
}

/// `draws` are the draws of the groups `ks` of `items`, starting at
/// instance `base`.
pub open spec fn draws_of(draws: Seq<DrawBatch>, items: Seq<(u32, u32)>, ks: Seq<(u32, u32)>, base: nat, material_first: bool) -> bool {
    &&& draws.len() == ks.len()
    &&& forall|j: int|
        0 <= j < ks.len() ==> #[trigger] draws[j] == group_draw(items, ks, j, base, material_first)
}

// ---------------------------------------------------------------------------
// Counting lemmas
// ---------------------------------------------------------------------------

/// A group holds at most the items scanned.
pub proof fn lemma_group_of_len(items: Seq<(u32, u32)>, k: (u32, u32), n: nat)
    ensures
        group_of(items, k, n).len() <= n,
        forall|i: int| 0 <= i < group_of(items, k, n).len() ==> #[trigger] group_of(items, k, n)[i] < n,
    decreases n,
{
    if n > 0 {
        lemma_group_of_len(items, k, (n - 1) as nat);
    }
}

/// Scanning one more item grows the groups of distinct keys by one exactly
/// when some key is that item's.
pub proof fn lemma_groups_step(items: Seq<(u32, u32)>, ks: Seq<(u32, u32)>, n: nat)
    requires
        ks.no_duplicates(),
        n < items.len(),
    ensures
        groups(items, ks, n + 1).len() == groups(items, ks, n).len() + (if ks.contains(items[n as int]) {
            1int
        } else {
            0int
        }),
    decreases ks.len(),
{
    if ks.len() > 0 {
        let ks1 = ks.drop_last();
        assert(ks1.no_duplicates()) by {
            assert forall|a: int, b: int| 0 <= a < ks1.len() && 0 <= b < ks1.len() && a != b implies ks1[a] != ks1[b] by {
                assert(ks1[a] == ks[a] && ks1[b] == ks[b]);
            }
        }
        lemma_groups_step(items, ks1, n);
        let x = items[n as int];
        if ks.contains(x) {
            let w = choose|w: int| 0 <= w < ks.len() && ks[w] == x;
            if w == ks.len() - 1 {
                assert(!ks1.contains(x)) by {
                    if ks1.contains(x) {
                        let v = choose|v: int| 0 <= v < ks1.len() && ks1[v] == x;
                        assert(ks[v] == x);
                    }
                }
            } else {
                assert(ks1[w] == x);
                assert(ks.last() != x);
            }
        } else {
            assert(!ks1.contains(x)) by {
                if ks1.contains(x) {
                    let v = choose|v: int| 0 <= v < ks1.len() && ks1[v] == x;
                    assert(ks[v] == x);
                }
            }
            assert(ks.last() != x) by {
                assert(ks[ks.len() - 1] == ks.last());
            }
        }
    }
}

/// The groups of distinct keys hold at most the items scanned, and
/// exactly that many when every scanned item's key is among them.
pub proof fn lemma_groups_len(items: Seq<(u32, u32)>, ks: Seq<(u32, u32)>, n: nat)
    requires
        ks.no_duplicates(),
        n <= items.len(),
    ensures
        groups(items, ks, n).len() <= n,
        (forall|i: int| 0 <= i < n ==> ks.contains(#[trigger] items[i])) ==> groups(
            items,
            ks,
            n,
        ).len() == n,
    decreases n,
{
    if n == 0 {
        lemma_groups_empty(items, ks);
    } else {
        lemma_groups_len(items, ks, (n - 1) as nat);
        lemma_groups_step(items, ks, (n - 1) as nat);
    }
}

/// Nothing scanned, nothing grouped.
pub proof fn lemma_groups_empty(items: Seq<(u32, u32)>, ks: Seq<(u32, u32)>)
    ensures
        groups(items, ks, 0).len() == 0,
    decreases ks.len(),
{
    if ks.len() > 0 {
        lemma_groups_empty(items, ks.drop_last());
    }
}

/// Strictly sorted keys are distinct.
pub proof fn lemma_sorted_distinct(ks: Seq<(u32, u32)>)
    requires
        strictly_sorted(ks),
    ensures
        ks.no_duplicates(),
{
    assert forall|a: int, b: int| 0 <= a < ks.len() && 0 <= b < ks.len() && a != b implies ks[a] != ks[b] by {
        if a < b {
            assert(key_lt(ks[a], ks[b]));
        } else {
            assert(key_lt(ks[b], ks[a]));
        }
    }
}

/// Two strictly sorted key lists with the same members are equal.
pub proof fn lemma_sorted_unique(a: Seq<(u32, u32)>, b: Seq<(u32, u32)>)
    requires
        strictly_sorted(a),
        strictly_sorted(b),
        forall|x: (u32, u32)| a.contains(x) <==> b.contains(x),
    ensures
        a == b,
    decreases a.len() + b.len(),
{
    if a.len() == 0 {
        if b.len() > 0 {
            assert(b.contains(b[0]));
        }
        assert(a =~= b);
    } else if b.len() == 0 {
        assert(a.contains(a[0]));
    } else {
        let x = a.last();
        let y = b.last();
        assert(a.contains(x));
        assert(b.contains(y));
        assert(x == y) by {
            let iy = choose|i: int| 0 <= i < a.len() && a[i] == y;
            let ix = choose|i: int| 0 <= i < b.len() && b[i] == x;
            if x != y {
                if iy < a.len() - 1 {
                    assert(key_lt(a[iy], a[a.len() - 1]));
                }
                if ix < b.len() - 1 {
                    assert(key_lt(b[ix], b[b.len() - 1]));
                }
            }
        }
        let a1 = a.drop_last();
        let b1 = b.drop_last();
        assert(strictly_sorted(a1)) by {
            assert forall|i: int, j: int| 0 <= i < j < a1.len() implies key_lt(#[trigger] a1[i], #[trigger] a1[j]) by {
                assert(a1[i] == a[i] && a1[j] == a[j]);
            }
        }
        assert(strictly_sorted(b1)) by {
            assert forall|i: int, j: int| 0 <= i < j < b1.len() implies key_lt(#[trigger] b1[i], #[trigger] b1[j]) by {
                assert(b1[i] == b[i] && b1[j] == b[j]);
            }
        }
        assert forall|z: (u32, u32)| a1.contains(z) <==> b1.contains(z) by {
            if a1.contains(z) {
                let i = choose|i: int| 0 <= i < a1.len() && a1[i] == z;
                assert(a[i] == z);
                assert(key_lt(a[i], a[a.len() - 1]));
                assert(b.contains(z));
                let k = choose|k: int| 0 <= k < b.len() && b[k] == z;
                assert(k != b.len() - 1);
                assert(b1[k] == z);
            }
            if b1.contains(z) {
                let i = choose|i: int| 0 <= i < b1.len() && b1[i] == z;
                assert(b[i] == z);
                assert(key_lt(b[i], b[b.len() - 1]));
                assert(a.contains(z));
                let k = choose|k: int| 0 <= k < a.len() && a[k] == z;
                assert(k != a.len() - 1);
                assert(a1[k] == z);
            }
        }
        lemma_sorted_unique(a1, b1);
        assert(a =~= b) by {
            assert forall|i: int| 0 <= i < a.len() implies a[i] == b[i] by {
                if i < a.len() - 1 {
                    assert(a[i] == a1[i] && b[i] == b1[i]);
                }
            }
        }
    }
}

/// The distinct keys of `items` in increasing order.
pub open spec fn sorted_keys(items: Seq<(u32, u32)>) -> Seq<(u32, u32)> {
    choose|ks: Seq<(u32, u32)>| distinct_keys_of(items, ks)
}

/// A key list that lists exactly the distinct keys of `items` in order is
/// [`sorted_keys`].
pub proof fn lemma_sorted_keys_is(items: Seq<(u32, u32)>, ks: Seq<(u32, u32)>)
    requires
        distinct_keys_of(items, ks),
    ensures
        sorted_keys(items) == ks,
{
    let c = sorted_keys(items);
    assert(distinct_keys_of(items, c));
    assert forall|x: (u32, u32)| c.contains(x) <==> ks.contains(x) by {
        if c.contains(x) {
            let j = choose|j: int| 0 <= j < c.len() && c[j] == x;
            assert(items.contains(c[j]));
            let i = choose|i: int| 0 <= i < items.len() && items[i] == x;
            assert(ks.contains(items[i]));
        }
        if ks.contains(x) {
            let j = choose|j: int| 0 <= j < ks.len() && ks[j] == x;
            assert(items.contains(ks[j]));
            let i = choose|i: int| 0 <= i < items.len() && items[i] == x;
            assert(c.contains(items[i]));
        }
    }
    lemma_sorted_unique(c, ks);
}

/// `order` lists each of `0..n` exactly once.
pub open spec fn is_permutation_of_range(order: Seq<usize>, n: nat) -> bool {
    &&& order.len() == n
    &&& order.no_duplicates()
    &&& forall|i: usize| i < n ==> order.contains(i)
}

/// Draws that tile the instances `base..end` without gap or overlap, in
/// order, none of them empty.
pub open spec fn tiles_instances(ds: Seq<DrawBatch>, base: int, end: int) -> bool {
    &&& base <= end
    &&& (ds.len() == 0 <==> base == end)
    &&& ds.len() > 0 ==> ds[0].first_instance == base
    &&& ds.len() > 0 ==> ds.last().first_instance + ds.last().instance_count == end
    &&& forall|j: int|
        0 <= j < ds.len() - 1 ==> #[trigger] ds[j + 1].first_instance == ds[j].first_instance
            + ds[j].instance_count
    &&& forall|j: int| 0 <= j < ds.len() ==> #[trigger] ds[j].instance_count > 0
}

/// Membership in a group: exactly the scanned items with that key, in
/// increasing index order.
pub proof fn lemma_group_of_members(items: Seq<(u32, u32)>, k: (u32, u32), n: nat)
    requires
        n <= items.len(),
        items.len() <= usize::MAX,
    ensures
        forall|x: usize| #[trigger]
            group_of(items, k, n).contains(x) <==> (x < n && items[x as int] == k),
        forall|a: int, b: int|
            0 <= a < b < group_of(items, k, n).len() ==> #[trigger] group_of(items, k, n)[a]
                < #[trigger] group_of(items, k, n)[b],
    decreases n,
{
    if n > 0 {
        let m = (n - 1) as nat;
        lemma_group_of_members(items, k, m);
        lemma_group_of_len(items, k, m);
        let g = group_of(items, k, m);
        let h = group_of(items, k, n);
        if items[m as int] == k {
            assert(h == g.push(m as usize));
            assert forall|x: usize| #[trigger] h.contains(x) <==> (x < n && items[x as int] == k) by {
                if h.contains(x) {
                    let w = choose|w: int| 0 <= w < h.len() && h[w] == x;
                    if w < g.len() {
                        assert(g[w] == x);
                        assert(g.contains(x));
                    }
                }
                if x < n && items[x as int] == k {
                    if x < m {
                        assert(g.contains(x));
                        let w = choose|w: int| 0 <= w < g.len() && g[w] == x;
                        assert(h[w] == x);
                    } else {
                        assert(h[g.len() as int] == x);
                    }
                }
            }
            assert forall|a: int, b: int| 0 <= a < b < h.len() implies #[trigger] h[a] < #[trigger] h[b] by {
                if b < g.len() {
                    assert(h[a] == g[a] && h[b] == g[b]);
                } else {
                    assert(h[a] == g[a]);
                    assert(g[a] < m);
                }
            }
        } else {
            assert(h == g);
            assert forall|x: usize| #[trigger] h.contains(x) <==> (x < n && items[x as int] == k) by {
                if x < n && items[x as int] == k {
                    assert(x != m);
                }
            }
        }
    }
}

/// Membership in the groups of a key list: exactly the scanned items whose
/// key is listed; distinct keys give no index twice.
pub proof fn lemma_groups_members(items: Seq<(u32, u32)>, ks: Seq<(u32, u32)>, n: nat)
    requires
        n <= items.len(),
        items.len() <= usize::MAX,
    ensures
        forall|x: usize| #[trigger]
            groups(items, ks, n).contains(x) <==> (x < n && ks.contains(items[x as int])),
        ks.no_duplicates() ==> groups(items, ks, n).no_duplicates(),
    decreases ks.len(),
{
    if ks.len() == 0 {
        assert(groups(items, ks, n) =~= Seq::<usize>::empty());
    } else {
        let ks1 = ks.drop_last();
        let k = ks.last();
        lemma_groups_members(items, ks1, n);
        lemma_group_of_members(items, k, n);
        let a = groups(items, ks1, n);
        let b = group_of(items, k, n);
        let c = groups(items, ks, n);
        assert(c == a + b);
        assert forall|x: usize| #[trigger] c.contains(x) <==> (x < n && ks.contains(items[x as int])) by {
            if c.contains(x) {
                let w = choose|w: int| 0 <= w < c.len() && c[w] == x;
                if w < a.len() {
                    assert(a[w] == x);
                    assert(a.contains(x));
                    let v = choose|v: int| 0 <= v < ks1.len() && ks1[v] == items[x as int];
                    assert(ks[v] == items[x as int]);
                } else {
                    assert(b[w - a.len()] == x);
                    assert(b.contains(x));
                    assert(ks[ks.len() - 1] == items[x as int]);
                }
            }
            if x < n && ks.contains(items[x as int]) {
                let v = choose|v: int| 0 <= v < ks.len() && ks[v] == items[x as int];
                if v < ks.len() - 1 {
                    assert(ks1[v] == items[x as int]);
                    assert(a.contains(x));
                    let w = choose|w: int| 0 <= w < a.len() && a[w] == x;
                    assert(c[w] == x);
                } else {
                    assert(b.contains(x));
                    let w = choose|w: int| 0 <= w < b.len() && b[w] == x;
                    assert(c[a.len() + w] == x);
                }
            }
        }
        if ks.no_duplicates() {
            assert(ks1.no_duplicates()) by {
                assert forall|p: int, q: int| 0 <= p < ks1.len() && 0 <= q < ks1.len() && p != q implies ks1[p] != ks1[q] by {
                    assert(ks1[p] == ks[p] && ks1[q] == ks[q]);
                }
            }
            assert forall|p: int, q: int| 0 <= p < c.len() && 0 <= q < c.len() && p != q implies c[p] != c[q] by {
                if p < a.len() && q < a.len() {
                } else if p >= a.len() && q >= a.len() {
                    if p < q {
                        assert(b[p - a.len()] < b[q - a.len()]);
                    } else {
                        assert(b[q - a.len()] < b[p - a.len()]);
                    }
                } else {
                    let (ia, ib) = if p < a.len() { (p, q - a.len()) } else { (q, p - a.len()) };
                    let xa = a[ia];
                    let xb = b[ib];
                    assert(a.contains(xa));
                    assert(b.contains(xb));
                    if xa == xb {
                        let v = choose|v: int| 0 <= v < ks1.len() && ks1[v] == items[xa as int];
                        assert(ks[v] == ks[ks.len() - 1]);
                    }
                }
            }
        }
    }
}

/// Grouping by the distinct keys of the items puts every item in exactly
/// one group.
pub proof fn lemma_grouping_is_permutation(items: Seq<(u32, u32)>, ks: Seq<(u32, u32)>)
    requires
        distinct_keys_of(items, ks),
        items.len() <= usize::MAX,
    ensures
        is_permutation_of_range(groups(items, ks, items.len()), items.len()),
{
    lemma_sorted_distinct(ks);
    lemma_groups_members(items, ks, items.len());
    lemma_groups_len(items, ks, items.len());
    assert forall|i: usize| i < items.len() implies groups(items, ks, items.len()).contains(i) by {
        assert(ks.contains(items[i as int]));
    }
}

/// The draws of one path tile the instances that path numbers, from `base`
/// to `base` plus its item count.
pub proof fn lemma_path_draws_tile(ds: Seq<DrawBatch>, items: Seq<(u32, u32)>, ks: Seq<(u32, u32)>, base: nat, material_first: bool)
    requires
        distinct_keys_of(items, ks),
        draws_of(ds, items, ks, base, material_first),
        base + items.len() <= u32::MAX,
        items.len() <= usize::MAX,
    ensures
        tiles_instances(ds, base as int, (base + items.len()) as int),
{
    let n = items.len();
    lemma_sorted_distinct(ks);
    assert forall|j: int| 0 <= j <= ks.len() implies #[trigger] groups(items, ks.take(j), n).len() <= n by {
        assert(ks.take(j).no_duplicates()) by {
            let t = ks.take(j);
            assert forall|a: int, b: int| 0 <= a < t.len() && 0 <= b < t.len() && a != b implies t[a] != t[b] by {
                assert(t[a] == ks[a] && t[b] == ks[b]);
            }
        }
        lemma_groups_len(items, ks.take(j), n);
    }
    assert forall|j: int| 0 <= j < ks.len() implies #[trigger] groups(items, ks.take(j + 1), n).len()
        == groups(items, ks.take(j), n).len() + group_of(items, ks[j], n).len() by {
        assert(ks.take(j + 1).drop_last() =~= ks.take(j));
        assert(ks.take(j + 1).last() == ks[j]);
    }
    assert forall|j: int| 0 <= j < ds.len() - 1 implies #[trigger] ds[j + 1].first_instance
        == ds[j].first_instance + ds[j].instance_count by {
        assert(ds[j] == group_draw(items, ks, j, base, material_first));
        assert(ds[j + 1] == group_draw(items, ks, j + 1, base, material_first));
        assert(groups(items, ks.take(j + 1), n).len() <= n);
        assert(groups(items, ks.take(j), n).len() <= n);
    }
    assert forall|j: int| 0 <= j < ds.len() implies #[trigger] ds[j].instance_count > 0 by {
        assert(ds[j] == group_draw(items, ks, j, base, material_first));
        lemma_group_of_members(items, ks[j], n);
        lemma_group_of_len(items, ks[j], n);
        assert(items.contains(ks[j]));
        let i = choose|i: int| 0 <= i < items.len() && items[i] == ks[j];
        assert(group_of(items, ks[j], n).contains(i as usize));
    }
    if ds.len() > 0 {
        assert(ds[0] == group_draw(items, ks, 0, base, material_first));
        assert(ks.take(0) =~= Seq::<(u32, u32)>::empty());
        lemma_groups_empty(items, ks.take(0));
        let l = ds.len() - 1;
        assert(ds[l] == group_draw(items, ks, l, base, material_first));
        assert(ks.take(l + 1) =~= ks);
        lemma_groups_len(items, ks, n);
        assert(groups(items, ks.take(l), n).len() <= n);
    } else {
        if n > 0 {
            assert(ks.contains(items[0]));
        }
    }
}

/// Two tilings that meet end to start tile the whole range.
pub proof fn lemma_tiles_concat(ds: Seq<DrawBatch>, cut: int, base: int, mid: int, end: int)
    requires
        0 <= cut <= ds.len(),
        tiles_instances(ds.take(cut), base, mid),
        tiles_instances(ds.skip(cut), mid, end),
    ensures
        tiles_instances(ds, base, end),
{
    let a = ds.take(cut);
    let b = ds.skip(cut);
    assert(ds =~= a + b);
    assert forall|j: int| 0 <= j < ds.len() - 1 implies #[trigger] ds[j + 1].first_instance
        == ds[j].first_instance + ds[j].instance_count by {
        if j + 1 < cut {
            assert(ds[j] == a[j] && ds[j + 1] == a[j + 1]);
        } else if j >= cut {
            assert(ds[j] == b[j - cut] && ds[j + 1] == b[j - cut + 1]);
        } else {
            assert(ds[j] == a.last());
            assert(ds[j + 1] == b[0]);
        }
    }
    assert forall|j: int| 0 <= j < ds.len() implies #[trigger] ds[j].instance_count > 0 by {
        if j < cut {
            assert(ds[j] == a[j]);
        } else {
            assert(ds[j] == b[j - cut]);
        }
    }
    if ds.len() > 0 {
        if cut > 0 {
            assert(ds[0] == a[0]);
        } else {
            assert(ds[0] == b[0]);
        }
        if cut < ds.len() {
            assert(ds.last() == b.last());
        } else {
            assert(ds.last() == a.last());
        }
    }
}

/// Exec lexicographic comparison.
fn lt(a: (u32, u32), b: (u32, u32)) -> (r: bool)
    ensures
        r == key_lt(a, b),
{
    a.0 < b.0 || (a.0 == b.0 && a.1 < b.1)
}

/// The distinct keys of `items`, in increasing order.
fn distinct_sorted_keys(items: &Vec<(u32, u32)>) -> (r: Vec<(u32, u32)>)
    ensures
        distinct_keys_of(items@, r@),
{
    let mut ks: Vec<(u32, u32)> = Vec::new();
    let mut i: usize = 0;
    while i < items.len()
        invariant
            i <= items@.len(),
            strictly_sorted(ks@),
            forall|a: int| 0 <= a < i ==> ks@.contains(#[trigger] items@[a]),
            forall|j: int| 0 <= j < ks@.len() ==> items@.take(i as int).contains(#[trigger] ks@[j]),
        decreases items@.len() - i,
    {
        let k = items[i];
        let mut p: usize = 0;
        while p < ks.len() && lt(ks[p], k)
            invariant
                p <= ks@.len(),
                forall|q: int| 0 <= q < p ==> key_lt(#[trigger] ks@[q], k),
            decreases ks@.len() - p,
        {
            p = p + 1;
        }
        let ghost old_ks = ks@;
        if p < ks.len() && ks[p].0 == k.0 && ks[p].1 == k.1 {
            assert(ks@[p as int] == k);
        } else {
            ks.insert(p, k);
            proof {
                assert(ks@ == old_ks.insert(p as int, k));
                assert forall|a: int, b: int| 0 <= a < b < ks@.len() implies key_lt(#[trigger] ks@[a], #[trigger] ks@[b]) by {
                    if b < p {
                        assert(ks@[a] == old_ks[a] && ks@[b] == old_ks[b]);
                    } else if b == p {
                        assert(ks@[a] == old_ks[a]);
                    } else if a == p {
                        assert(ks@[b] == old_ks[b - 1]);
                        if b - 1 > p {
                            assert(key_lt(old_ks[p as int], old_ks[b - 1]));
                        }
                        assert(!key_lt(old_ks[p as int], k));
                    } else if a < p {
                        assert(ks@[a] == old_ks[a] && ks@[b] == old_ks[b - 1]);
                    } else {
                        assert(ks@[a] == old_ks[a - 1] && ks@[b] == old_ks[b - 1]);
                    }
                }
            }
        }
        proof {
            assert(ks@.contains(k)) by {
                assert(ks@[p as int] == k);
            }
            assert forall|a: int| 0 <= a < i + 1 implies ks@.contains(#[trigger] items@[a]) by {
                if a < i {
                    let j = choose|j: int| 0 <= j < old_ks.len() && old_ks[j] == items@[a];
                    if ks@ != old_ks {
                        if j < p {
                            assert(ks@[j] == items@[a]);
                        } else {
                            assert(ks@[j + 1] == items@[a]);
                        }
                    }
                }
            }
            assert forall|j: int| 0 <= j < ks@.len() implies items@.take(i + 1).contains(#[trigger] ks@[j]) by {
                assert(items@.take(i + 1)[i as int] == k);
                if ks@[j] != k {
                    let jo: int = if ks@ == old_ks || j < p {
                        j
                    } else {
                        j - 1
                    };
                    assert(old_ks[jo] == ks@[j]);
                    assert(items@.take(i as int).contains(old_ks[jo]));
                    let w = choose|w: int| 0 <= w < i && items@.take(i as int)[w] == old_ks[jo];
                    assert(items@.take(i + 1)[w] == ks@[j]);
                }
            }
        }
        i = i + 1;
    }
    proof {
        assert(items@.take(items@.len() as int) =~= items@);
    }
    ks
}

/// Appends the indices of the items whose key is `k`, in order.
fn append_group(items: &Vec<(u32, u32)>, k: (u32, u32), out: &mut Vec<usize>)
    ensures
        final(out)@ == old(out)@ + group_of(items@, k, items@.len()),
{
    let ghost start = out@;
    let mut i: usize = 0;
    while i < items.len()
        invariant
            i <= items@.len(),
            out@ == start + group_of(items@, k, i as nat),
        decreases items@.len() - i,
    {
        if items[i].0 == k.0 && items[i].1 == k.1 {
            out.push(i);
        }
        proof {
            assert(items@[i as int] == k ==> items[i as int].0 == k.0 && items[i as int].1 == k.1);
            assert(start + group_of(items@, k, (i + 1) as nat) =~= out@);
        }
        i = i + 1;
    }
}

/// Groups one path's keys: returns the instance order and appends one
/// draw per distinct key, with instances numbered from `base`.
fn batch_path(items: &Vec<(u32, u32)>, material_first: bool, base: u32, draws: &mut Vec<DrawBatch>) -> (order: Vec<usize>)
    requires
        base + items@.len() <= u32::MAX,
    ensures
        order@ == groups(items@, sorted_keys(items@), items@.len()),
        order@.len() == items@.len(),
        distinct_keys_of(items@, sorted_keys(items@)),
        final(draws)@.len() == old(draws)@.len() + sorted_keys(items@).len(),
        final(draws)@.take(old(draws)@.len() as int) == old(draws)@,
        draws_of(
            final(draws)@.skip(old(draws)@.len() as int),
            items@,
            sorted_keys(items@),
            base as nat,
            material_first,
        ),
{
    let ks = distinct_sorted_keys(items);
    proof {
        lemma_sorted_keys_is(items@, ks@);
        lemma_sorted_distinct(ks@);
    }
    let ghost start = draws@;
    let ghost n = items@.len();
    let mut order: Vec<usize> = Vec::new();
    let mut j: usize = 0;
    while j < ks.len()
        invariant
            j <= ks@.len(),
            ks@ == sorted_keys(items@),
            ks@.no_duplicates(),
            distinct_keys_of(items@, ks@),
            n == items@.len(),
            base + n <= u32::MAX,
            order@ == groups(items@, ks@.take(j as int), n),
            draws@.len() == start.len() + j,
            draws@.take(start.len() as int) == start,
            forall|q: int|
                0 <= q < j ==> #[trigger] draws@[start.len() + q] == group_draw(
                    items@,
                    ks@,
                    q,
                    base as nat,
                    material_first,
                ),
        decreases ks@.len() - j,
    {
        let k = ks[j];
        proof {
            assert(ks@.take(j as int).no_duplicates()) by {
                let t = ks@.take(j as int);
                assert forall|a: int, b: int| 0 <= a < t.len() && 0 <= b < t.len() && a != b implies t[a] != t[b] by {
                    assert(t[a] == ks@[a] && t[b] == ks@[b]);
                }
            }
            lemma_groups_len(items@, ks@.take(j as int), n);
        }
        let first: u32 = base + order.len() as u32;
        let before = order.len();
        append_group(items, k, &mut order);
        proof {
            assert(ks@.take(j + 1).drop_last() =~= ks@.take(j as int));
            assert(ks@.take(j + 1).last() == k);
            lemma_group_of_len(items@, k, n);
            assert(ks@.take(j + 1).no_duplicates()) by {
                let t = ks@.take(j + 1);
                assert forall|a: int, b: int| 0 <= a < t.len() && 0 <= b < t.len() && a != b implies t[a] != t[b] by {
                    assert(t[a] == ks@[a] && t[b] == ks@[b]);
                }
            }
            lemma_groups_len(items@, ks@.take(j + 1), n);
        }
        let count: u32 = (order.len() - before) as u32;
        let d = if material_first {
            DrawBatch { mesh_id: k.1, material_id: k.0, first_instance: first, instance_count: count }
        } else {
            DrawBatch { mesh_id: k.0, material_id: k.1, first_instance: first, instance_count: count }
        };
        let ghost prev_draws = draws@;
        draws.push(d);
        proof {
            assert(d == group_draw(items@, ks@, j as int, base as nat, material_first));
            assert forall|q: int| 0 <= q < j + 1 implies #[trigger] draws@[start.len() + q] == group_draw(
                items@,
                ks@,
                q,
                base as nat,
                material_first,
            ) by {
                if q < j {
                    assert(draws@[start.len() + q] == prev_draws[start.len() + q]);
                }
            }
            assert(draws@.take(start.len() as int) =~= start);
        }
        j = j + 1;
    }
    proof {
        assert(ks@.take(ks@.len() as int) =~= ks@);
        lemma_groups_len(items@, ks@, n);
        let tail = draws@.skip(start.len() as int);
        assert forall|q: int| 0 <= q < ks@.len() implies #[trigger] tail[q] == group_draw(
            items@,
            ks@,
            q,
            base as nat,
            material_first,
        ) by {
            assert(tail[q] == draws@[start.len() + q]);
        }
    }
    order
}

/// Groups both paths of a frame into instanced draws. The raw-index
/// renderables are grouped by `(mesh_id, material_id)` and numbered from
/// instance 0; the resolved-handle renderables are grouped by
/// `(material_id, mesh_id)` and numbered after them.
pub fn plan_frame_batches(legacy: &Vec<Renderable>, statics: &Vec<Renderable>) -> (r: FrameBatches)
    requires
        legacy@.len() + statics@.len() <= u32::MAX,
    ensures
        ({
            let lk = keys_of(legacy@, false);
            let sk = keys_of(statics@, true);
            let nl = sorted_keys(lk).len();
            &&& r.legacy_order@ == groups(lk, sorted_keys(lk), lk.len())
            &&& r.static_order@ == groups(sk, sorted_keys(sk), sk.len())
            &&& r.draws@.len() == nl + sorted_keys(sk).len()
            &&& draws_of(r.draws@.take(nl as int), lk, sorted_keys(lk), 0, false)
            &&& draws_of(r.draws@.skip(nl as int), sk, sorted_keys(sk), legacy@.len() as nat, true)
            &&& strictly_sorted(sorted_keys(lk))
            &&& strictly_sorted(sorted_keys(sk))
        }),
        is_permutation_of_range(r.legacy_order@, legacy@.len()),
        is_permutation_of_range(r.static_order@, statics@.len()),
        tiles_instances(r.draws@, 0, (legacy@.len() + statics@.len()) as int),
{
    let mut lk: Vec<(u32, u32)> = Vec::new();
    let mut i: usize = 0;
    while i < legacy.len()
        invariant
            i <= legacy@.len(),
            lk@ == keys_of(legacy@, false).take(i as int),
        decreases legacy@.len() - i,
    {
        lk.push((legacy[i].mesh_id, legacy[i].material_id));
        assert(lk@ =~= keys_of(legacy@, false).take(i + 1));
        i = i + 1;
    }
    assert(lk@ =~= keys_of(legacy@, false));
    let mut sk: Vec<(u32, u32)> = Vec::new();
    let mut i: usize = 0;
    while i < statics.len()
        invariant
            i <= statics@.len(),
            sk@ == keys_of(statics@, true).take(i as int),
        decreases statics@.len() - i,
    {
        sk.push((statics[i].material_id, statics[i].mesh_id));
        assert(sk@ =~= keys_of(statics@, true).take(i + 1));
        i = i + 1;
    }
    assert(sk@ =~= keys_of(statics@, true));
    let mut draws: Vec<DrawBatch> = Vec::new();
    let legacy_order = batch_path(&lk, false, 0, &mut draws);
    let ghost after_legacy = draws@;
    let static_order = batch_path(&sk, true, legacy.len() as u32, &mut draws);
    proof {
        let nl = sorted_keys(lk@).len();
        assert(after_legacy.skip(0) =~= after_legacy);
        assert(draws@.take(nl as int) =~= after_legacy);
        lemma_grouping_is_permutation(lk@, sorted_keys(lk@));
        lemma_grouping_is_permutation(sk@, sorted_keys(sk@));
        lemma_path_draws_tile(draws@.take(nl as int), lk@, sorted_keys(lk@), 0, false);
        lemma_path_draws_tile(draws@.skip(nl as int), sk@, sorted_keys(sk@), legacy@.len() as nat, true);
        lemma_tiles_concat(draws@, nl as int, 0, legacy@.len() as int, (legacy@.len() + statics@.len()) as int);
    }
    FrameBatches { legacy_order, static_order, draws }
}

} // verus!
