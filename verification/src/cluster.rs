//! Clustered-forward light assignment on the CPU.
//!
//! The view frustum is cut into `tiles_x * tiles_y * depth_slices` clusters.
//! Every cluster gets a light-grid entry `(offset, count)` into a flat light
//! index list: `index_list[offset .. offset + count]` are the cluster's own
//! light indices. The list buffer holds [`LIGHT_INDEX_LIST_CAPACITY`] slots
//! and reserves `max_lights_per_cluster` of them per cluster, so only the
//! clusters whose reservation fits are filled; the others get an empty
//! entry. A filled cluster lists the first `min(light count,
//! max_lights_per_cluster)` lights, and the runs of the filled clusters lie
//! back to back. The list is never empty: with nothing to list it holds a
//! single zero.

use vstd::prelude::*;
use crate::bindless::{LightGrid, LIGHT_INDEX_LIST_CAPACITY};
use crate::extract::DrawBatch;

verus! {

/// Cluster subdivision of the view frustum.
#[derive(Copy, Clone, Debug, PartialEq, Eq, Structural)]
pub struct ClusterConfig {
    /// Number of tiles along X.
    pub tiles_x: u32,
    /// Number of tiles along Y.
    pub tiles_y: u32,
    /// Number of depth slices.
    pub depth_slices: u32,
    /// Maximum lights stored per cluster.
    pub max_lights_per_cluster: u32,
}

impl Default for ClusterConfig {
    fn default() -> (r: Self)
        ensures
            r.tiles_x == 16,
            r.tiles_y == 9,
            r.depth_slices == 16,
            r.max_lights_per_cluster == 256,
    {
        ClusterConfig { tiles_x: 16, tiles_y: 9, depth_slices: 16, max_lights_per_cluster: 256 }
    }
}

impl ClusterConfig {
    /// Number of clusters.
    pub open spec fn cluster_count(self) -> int {
        self.tiles_x * self.tiles_y * self.depth_slices
    }

    /// Number of clusters whose offset fits in the light index list.
    pub open spec fn fillable_clusters(self) -> int {
        LIGHT_INDEX_LIST_CAPACITY as int / (if self.max_lights_per_cluster == 0 {
            1int
        } else {
            self.max_lights_per_cluster as int
        })
    }

    /// Number of lights each filled cluster lists.
    pub open spec fn lights_per_cluster(self, light_count: int) -> int {
        if light_count < self.max_lights_per_cluster {
            light_count
        } else {
            self.max_lights_per_cluster as int
        }
    }

    /// Number of clusters that are filled.
    pub open spec fn filled_clusters(self) -> int {
        if self.cluster_count() < self.fillable_clusters() {
            self.cluster_count()
        } else {
            self.fillable_clusters()
        }
    }
}

/// The light-grid entry of cluster `c`.
pub open spec fn grid_entry(config: ClusterConfig, light_count: int, c: int) -> LightGrid {
    if c < config.fillable_clusters() {
        LightGrid {
            offset: (c * config.lights_per_cluster(light_count)) as u32,
            count: config.lights_per_cluster(light_count) as u32,
        }
    } else {
        LightGrid { offset: 0, count: 0 }
    }
}

/// The light indices `0..m`.
pub open spec fn first_lights(m: nat) -> Seq<u32> {
    Seq::new(m, |i: int| i as u32)
}

/// `k` copies of the light indices `0..m`, one after the other.
pub open spec fn repeated_lights(k: nat, m: nat) -> Seq<u32>
    decreases k,
{
    if k == 0 {
        Seq::empty()
    } else {
        repeated_lights((k - 1) as nat, m) + first_lights(m)
    }
}

/// The light index list: one copy of the listed lights per filled cluster,
/// or a single zero when that would be empty.
pub open spec fn index_list(config: ClusterConfig, light_count: int) -> Seq<u32> {
    let l = repeated_lights(
        config.filled_clusters() as nat,
        config.lights_per_cluster(light_count) as nat,
    );
    if l.len() == 0 {
        seq![0u32]
    } else {
        l
    }
}

/// The light grid and light index list of one frame.
#[derive(Clone, Debug, PartialEq, Eq)]
pub struct LightAssignment {
    /// One entry per cluster.
    pub grid: Vec<LightGrid>,
    /// The flat light index list.
    pub index_list: Vec<u32>,
}

proof fn lemma_repeated_len(k: nat, m: nat)
    ensures
        repeated_lights(k, m).len() == k * m,
    decreases k,
{
    if k > 0 {
        lemma_repeated_len((k - 1) as nat, m);
        assert((k - 1) * m + m == k * m) by (nonlinear_arith)
            requires
                k > 0,
        ;
    } else {
        assert(k * m == 0) by (nonlinear_arith)
            requires
                k == 0,
        ;
    }
}

/// Every filled cluster's offset fits the list buffer.
proof fn lemma_offset_fits(c: int, max: int)
    requires
        0 < max,
        0 <= c < LIGHT_INDEX_LIST_CAPACITY as int / max,
    ensures
        c * max < LIGHT_INDEX_LIST_CAPACITY as int,
{
    let cap = LIGHT_INDEX_LIST_CAPACITY as int;
    assert(c * max < cap) by (nonlinear_arith)
        requires
            0 < max,
            0 <= c < cap / max,
            cap == 65536,
    {
        assert(c + 1 <= cap / max);
        assert((c + 1) * max <= (cap / max) * max);
        assert((cap / max) * max <= cap);
    }
}

/// A filled cluster's offset `c * per` fits the list buffer.
proof fn lemma_filled_offset_fits(c: int, max: int, per: int)
    requires
        0 <= per <= max,
        0 <= c < LIGHT_INDEX_LIST_CAPACITY as int / (if max == 0 {
            1int
        } else {
            max
        }),
    ensures
        0 <= c * per < LIGHT_INDEX_LIST_CAPACITY as int,
{
    if max > 0 {
        lemma_offset_fits(c, max);
        assert(0 <= c * per <= c * max) by (nonlinear_arith)
            requires
                0 <= c,
                0 <= per <= max,
        ;
    } else {
        assert(c * per == 0) by (nonlinear_arith)
            requires
                per == 0,
        ;
    }
}

/// Each cluster's entry addresses its own run of the index list.
proof fn lemma_entry_addresses_run(config: ClusterConfig, light_count: int, c: int)
    requires
        0 <= light_count,
        0 <= c < config.cluster_count(),
    ensures
        ({
            let e = grid_entry(config, light_count, c);
            let l = index_list(config, light_count);
            &&& e.offset + e.count <= l.len()
            &&& forall|j: int| e.offset <= j < e.offset + e.count ==> #[trigger] l[j] == j - e.offset
        }),
{
    let m = config.lights_per_cluster(light_count);
    let k = config.filled_clusters();
    let max = config.max_lights_per_cluster as int;
    let e = grid_entry(config, light_count, c);
    let l = index_list(config, light_count);
    assert(config.cluster_count() >= 0) by (nonlinear_arith)
        requires
            config.tiles_x >= 0,
            config.tiles_y >= 0,
            config.depth_slices >= 0,
    ;
    lemma_repeated_len(k as nat, m as nat);
    if c < config.fillable_clusters() && m > 0 {
        lemma_filled_offset_fits(c, max, m);
        assert(c < k);
        assert(c * m + m <= k * m) by (nonlinear_arith)
            requires
                0 <= c < k,
                m > 0,
        ;
        assert(e.offset == c * m);
        assert(e.count == m);
        let rl = repeated_lights(k as nat, m as nat);
        assert(rl.len() > 0) by (nonlinear_arith)
            requires
                rl.len() == k * m,
                0 <= c < k,
                m > 0,
        ;
        assert(l == rl);
        lemma_repeated_runs(k as nat, m as nat);
        assert forall|j: int| e.offset <= j < e.offset + e.count implies #[trigger] l[j] == j - e.offset by {
            let i = j - c * m;
            assert(rl[c * m + i] == i);
        }
    } else if c < config.fillable_clusters() {
        lemma_filled_offset_fits(c, max, m);
        assert(c * m == 0) by (nonlinear_arith)
            requires
                m == 0,
        ;
    }
}

/// Assigns lights to clusters for a frame with `light_count` lights.
pub fn assign_lights(config: ClusterConfig, light_count: usize) -> (r: LightAssignment)
    requires
        config.tiles_x * config.tiles_y <= u32::MAX,
        config.cluster_count() <= u32::MAX,
    ensures
        r.grid@.len() == config.cluster_count(),
        forall|c: int| 0 <= c < r.grid@.len() ==> #[trigger] r.grid@[c] == grid_entry(config, light_count as int, c),
        r.index_list@ == index_list(config, light_count as int),
        forall|c: int|
            0 <= c < r.grid@.len() ==> (#[trigger] r.grid@[c]).offset + r.grid@[c].count <= r.index_list@.len()
                && forall|j: int|
                r.grid@[c].offset <= j < r.grid@[c].offset + r.grid@[c].count ==> #[trigger] r.index_list@[j] == j
                    - r.grid@[c].offset,
{
    let total: u32 = config.tiles_x * config.tiles_y * config.depth_slices;
    let max = config.max_lights_per_cluster;
    let divisor: u32 = if max == 0 {
        1
    } else {
        max
    };
    let fillable: u32 = LIGHT_INDEX_LIST_CAPACITY / divisor;
    let per: u32 = if (light_count as u64) < (max as u64) {
        light_count as u32
    } else {
        max
    };
    assert(per == config.lights_per_cluster(light_count as int));
    assert(fillable == config.fillable_clusters());
    let mut grid: Vec<LightGrid> = Vec::new();
    let mut list: Vec<u32> = Vec::new();
    let mut c: u32 = 0;
    while c < total
        invariant
            c <= total,
            total == config.cluster_count(),
            max == config.max_lights_per_cluster,
            fillable == config.fillable_clusters(),
            per == config.lights_per_cluster(light_count as int),
            grid@.len() == c,
            forall|j: int| 0 <= j < c ==> #[trigger] grid@[j] == grid_entry(config, light_count as int, j),
            list@ == repeated_lights(
                (if c < fillable {
                    c
                } else {
                    fillable
                }) as nat,
                per as nat,
            ),
        decreases total - c,
    {
        if c < fillable {
            proof {
                lemma_filled_offset_fits(c as int, max as int, per as int);
            }
            let offset: u32 = c * per;
            proof {
                assert(LightGrid { offset, count: per } == grid_entry(config, light_count as int, c as int));
            }
            let ghost prev_grid = grid@;
            grid.push(LightGrid::new(offset, per));
            proof {
                assert forall|j: int| 0 <= j < c + 1 implies #[trigger] grid@[j] == grid_entry(config, light_count as int, j) by {
                    if j < c {
                        assert(grid@[j] == prev_grid[j]);
                    }
                }
            }
            let ghost start = list@;
            let mut l: u32 = 0;
            while l < per
                invariant
                    l <= per,
                    list@ == start + first_lights(l as nat),
                decreases per - l,
            {
                list.push(l);
                proof {
                    assert(first_lights((l + 1) as nat) =~= first_lights(l as nat).push(l));
                }
                l = l + 1;
            }
            proof {
                assert(repeated_lights((c + 1) as nat, per as nat) == repeated_lights(c as nat, per as nat)
                    + first_lights(per as nat));
            }
        } else {
            let ghost prev_grid = grid@;
            grid.push(LightGrid::new(0, 0));
            proof {
                assert forall|j: int| 0 <= j < c + 1 implies #[trigger] grid@[j] == grid_entry(config, light_count as int, j) by {
                    if j < c {
                        assert(grid@[j] == prev_grid[j]);
                    }
                }
            }
        }
        c = c + 1;
    }
    let ghost filled: nat = (if total < fillable {
        total
    } else {
        fillable
    }) as nat;
    assert(filled == config.filled_clusters());
    if list.len() == 0 {
        list.push(0);
        assert(list@ =~= seq![0u32]);
    }
    proof {
        assert forall|c: int| 0 <= c < grid@.len() implies (#[trigger] grid@[c]).offset + grid@[c].count
            <= list@.len() && forall|j: int|
                grid@[c].offset <= j < grid@[c].offset + grid@[c].count ==> #[trigger] list@[j] == j
                    - grid@[c].offset by {
            lemma_entry_addresses_run(config, light_count as int, c);
        }
    }
    LightAssignment { grid, index_list: list }
}

/// Each filled cluster lists the same lights, so its entry's `count`
/// entries starting at `offset`, and the list holds exactly one run of
/// them per filled cluster.
pub proof fn law_index_list_runs(config: ClusterConfig, light_count: int)
    requires
        0 <= light_count,
    ensures
        ({
            let k = config.filled_clusters();
            let m = config.lights_per_cluster(light_count);
            let l = repeated_lights(k as nat, m as nat);
            &&& l.len() == k * m
            &&& forall|c: int, i: int| 0 <= c < k && 0 <= i < m ==> #[trigger] l[c * m + i] == i
        }),
{
    let k = config.filled_clusters();
    let m = config.lights_per_cluster(light_count);
    assert(k >= 0) by {
        assert(config.cluster_count() >= 0) by (nonlinear_arith)
            requires
                config.tiles_x >= 0,
                config.tiles_y >= 0,
                config.depth_slices >= 0,
        ;
    }
    lemma_repeated_len(k as nat, m as nat);
    lemma_repeated_runs(k as nat, m as nat);
}

proof fn lemma_repeated_runs(k: nat, m: nat)
    requires
        m <= u32::MAX,
    ensures
        forall|c: int, i: int| 0 <= c < k && 0 <= i < m ==> #[trigger] repeated_lights(k, m)[c * m + i] == i,
    decreases k,
{
    if k > 0 {
        lemma_repeated_runs((k - 1) as nat, m);
        lemma_repeated_len((k - 1) as nat, m);
        let prev = repeated_lights((k - 1) as nat, m);
        assert forall|c: int, i: int| 0 <= c < k && 0 <= i < m implies #[trigger] repeated_lights(k, m)[c * m + i]
            == i by {
            if c < k - 1 {
                assert(c * m + i < (k - 1) * m) by (nonlinear_arith)
                    requires
                        0 <= c < k - 1,
                        0 <= i < m,
                ;
                assert(c * m + i >= 0) by (nonlinear_arith)
                    requires
                        0 <= c,
                        0 <= i,
                        0 <= m,
                ;
                assert(repeated_lights(k, m)[c * m + i] == prev[c * m + i]);
            } else {
                assert(c * m == (k - 1) * m);
                assert(prev.len() == (k - 1) * m);
                assert(repeated_lights(k, m) == prev + first_lights(m));
                assert((prev + first_lights(m))[prev.len() + i] == first_lights(m)[i]);
                assert(repeated_lights(k, m)[c * m + i] == first_lights(m)[i]);
            }
        }
    }
}

/// A single geometry batch submitted to the clustered-forward pass.
#[derive(Copy, Clone, Debug, PartialEq, Eq, Structural)]
pub struct Batch {
    /// Bindless mesh slot id.
    pub mesh_id: u32,
    /// Bindless material slot id.
    pub material_id: u32,
    /// First instance in the global instance buffer.
    pub first_instance: u32,
    /// Number of instances.
    pub instance_count: u32,
    /// Number of indices to draw.
    pub index_count: u32,
    /// First index in the mesh's index buffer.
    pub first_index: u32,
    /// Base vertex offset added to each index.
    pub base_vertex: i32,
}

/// The batch drawn for one draw command: its mesh, material and
/// instances, three indices from index zero.
pub open spec fn batch_of(d: DrawBatch) -> Batch {
    Batch {
        mesh_id: d.mesh_id,
        material_id: d.material_id,
        first_instance: d.first_instance,
        instance_count: d.instance_count,
        index_count: 3,
        first_index: 0,
        base_vertex: 0,
    }
}

/// One batch per draw command of a frame, in order.
pub fn batches_for_draws(draws: &Vec<DrawBatch>) -> (r: Vec<Batch>)
    ensures
        r@.len() == draws@.len(),
        forall|i: int| 0 <= i < draws@.len() ==> #[trigger] r@[i] == batch_of(draws@[i]),
{
    let mut out: Vec<Batch> = Vec::new();
    let mut i: usize = 0;
    while i < draws.len()
        invariant
            i <= draws@.len(),
            out@.len() == i,
            forall|j: int| 0 <= j < i ==> #[trigger] out@[j] == batch_of(draws@[j]),
        decreases draws@.len() - i,
    {
        let d = draws[i];
        out.push(
            Batch {
                mesh_id: d.mesh_id,
                material_id: d.material_id,
                first_instance: d.first_instance,
                instance_count: d.instance_count,
                index_count: 3,
                first_index: 0,
                base_vertex: 0,
            },
        );
        i = i + 1;
    }
    out
}

/// What a frame uploads for a per-frame storage buffer (lights, draw
/// commands): the items, or a single filler entry when there are none, so
/// that the shader never reads an empty buffer.
pub fn padded_for_upload<T: Copy>(items: &Vec<T>, filler: T) -> (r: Vec<T>)
    ensures
        r@ == (if items@.len() == 0 {
            seq![filler]
        } else {
            items@
        }),
{
    let mut out: Vec<T> = Vec::new();
    if items.len() == 0 {
        out.push(filler);
        assert(out@ =~= seq![filler]);
        return out;
    }
    let mut i: usize = 0;
    while i < items.len()
        invariant
            i <= items@.len(),
            out@ == items@.take(i as int),
        decreases items@.len() - i,
    {
        out.push(items[i]);
        assert(out@ =~= items@.take(i + 1));
        i = i + 1;
    }
    assert(items@.take(items@.len() as int) =~= items@);
    out
}

} // verus!
