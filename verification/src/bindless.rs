//! Bindless descriptor heap bookkeeping.
//!
//! The GPU side of the bindless table (storage buffers, texture array,
//! samplers, bind group) lives with the renderer; this module owns the
//! CPU-side slot model it relies on: the per-kind free lists, the per-slot
//! generation counters, and the shared reference count behind every typed
//! slot handle. A slot is handed out by `register_*`, every clone of its
//! handle bumps the count, and dropping the last handle returns the slot to
//! its free list and bumps its generation.

use vstd::prelude::*;

verus! {

/// Default number of mesh slots.
pub const MESH_CAPACITY: u32 = 65_536;

/// Default number of material slots.
pub const MATERIAL_CAPACITY: u32 = 65_536;

/// Default number of instance slots.
pub const INSTANCE_CAPACITY: u32 = 1_048_576;

/// Default number of light slots.
pub const LIGHT_CAPACITY: u32 = 4_096;

/// Default number of light-grid entries (upper bound of the per-frame grid).
pub const LIGHT_GRID_CAPACITY: u32 = 65_536;

/// Default number of `u32` entries in the per-frame light index list.
pub const LIGHT_INDEX_LIST_CAPACITY: u32 = 65_536;

/// Default number of meshlet visibility entries per frame.
pub const MESHLET_VISIBILITY_CAPACITY: u32 = 1_048_576;

/// Default number of draw commands per frame.
pub const DRAW_COMMAND_CAPACITY: u32 = 65_536;

/// Default number of texture-array layers.
pub const TEXTURE_CAPACITY: u32 = 16;

/// The sentinel id of a "null" slot.
pub const NULL_SLOT: u32 = 0xFFFF_FFFF;

/// Identifies which storage array a slot belongs to.
#[derive(Copy, Clone, Debug, PartialEq, Eq, Hash, Structural)]
pub enum SlotKind {
    /// A mesh slot.
    Mesh,
    /// A material slot.
    Material,
    /// A texture-array layer.
    Texture,
    /// Sentinel value, not backed by storage.
    Null,
}

impl SlotKind {
    /// The binding id of this kind in the bindless slot layout.
    pub open spec fn layout_slot(self) -> u32 {
        match self {
            SlotKind::Mesh => 4,
            SlotKind::Material => 5,
            SlotKind::Texture => 11,
            SlotKind::Null => NULL_SLOT,
        }
    }

    /// Returns the binding id for this kind in the bindless slot layout
    /// (4 for meshes, 5 for materials, 11 for the texture array) and
    /// `NULL_SLOT` for the null kind.
    pub fn architecture_slot(self) -> (r: u32)
        ensures
            r == self.layout_slot(),
    {
        match self {
            SlotKind::Mesh => 4,
            SlotKind::Material => 5,
            SlotKind::Texture => 11,
            SlotKind::Null => NULL_SLOT,
        }
    }

    /// The display name of this kind.
    pub open spec fn label(self) -> Seq<char> {
        match self {
            SlotKind::Mesh => "mesh"@,
            SlotKind::Material => "material"@,
            SlotKind::Texture => "texture"@,
            SlotKind::Null => "null"@,
        }
    }

    /// Returns the lower-case display name of this kind.
    pub fn name(self) -> (r: &'static str)
        ensures
            r@ == self.label(),
    {
        match self {
            SlotKind::Mesh => "mesh",
            SlotKind::Material => "material",
            SlotKind::Texture => "texture",
            SlotKind::Null => "null",
        }
    }
}

/// Per-tile / per-cluster light grid entry.
#[derive(Copy, Clone, Debug, PartialEq, Eq, Structural)]
pub struct LightGrid {
    /// Offset into the light index list.
    pub offset: u32,
    /// Number of lights in this cell.
    pub count: u32,
}

impl LightGrid {
    /// Creates a new light-grid entry.
    pub fn new(offset: u32, count: u32) -> (r: Self)
        ensures
            r.offset == offset,
            r.count == count,
    {
        LightGrid { offset, count }
    }
}

/// Per-meshlet visibility record emitted by the GPU cull pass.
#[derive(Copy, Clone, Debug, PartialEq, Eq, Structural)]
pub struct MeshletVisibility {
    /// Bindless mesh id.
    pub mesh_id: u32,
    /// Meshlet index within the mesh.
    pub meshlet_id: u32,
    /// Selected LOD.
    pub lod: u32,
    /// Padding.
    pub _pad: u32,
}

/// A meshlet that survived culling, with its selected level of detail.
#[derive(Copy, Clone, Debug, PartialEq, Eq, Structural)]
pub struct VisibleMeshlet {
    /// Mesh id in the bindless table.
    pub mesh_id: u32,
    /// Meshlet id inside the mesh.
    pub meshlet_id: u32,
    /// Selected LOD level.
    pub lod: u32,
}

/// Seals [`SlotTag`] so only the three tags of this module implement it.
pub trait Sealed {}

/// Marker trait for the typed slot tags; each tag names its [`SlotKind`].
pub trait SlotTag: Sealed {
    /// The slot kind associated with this tag.
    spec fn tag_kind() -> SlotKind;

    /// Returns the slot kind associated with this tag.
    fn kind() -> (k: SlotKind)
        ensures
            k == Self::tag_kind(),
    ;
}

/// Mesh tag.
#[derive(Debug)]
pub struct MeshTag;

/// Material tag.
#[derive(Debug)]
pub struct MaterialTag;

/// Texture tag.
#[derive(Debug)]
pub struct TextureTag;

impl Sealed for MeshTag {}

impl Sealed for MaterialTag {}

impl Sealed for TextureTag {}

impl SlotTag for MeshTag {
    open spec fn tag_kind() -> SlotKind {
        SlotKind::Mesh
    }

    fn kind() -> (k: SlotKind) {
        SlotKind::Mesh
    }
}

impl SlotTag for MaterialTag {
    open spec fn tag_kind() -> SlotKind {
        SlotKind::Material
    }

    fn kind() -> (k: SlotKind) {
        SlotKind::Material
    }
}

impl SlotTag for TextureTag {
    open spec fn tag_kind() -> SlotKind {
        SlotKind::Texture
    }

    fn kind() -> (k: SlotKind) {
        SlotKind::Texture
    }
}

/// The initial free stack of a list of `capacity` slots: the top of the
/// stack (the last element) is slot 0, so slots are handed out in
/// ascending order.
pub open spec fn initial_free_stack(capacity: u32) -> Seq<u32> {
    Seq::new(capacity as nat, |i: int| (capacity - 1 - i) as u32)
}

/// LIFO free list of slot indices below a fixed capacity.
#[derive(Debug)]
pub struct FreeList {
    capacity: u32,
    free: Vec<u32>,
}

impl FreeList {
    /// The number of slots the list manages.
    pub closed spec fn spec_capacity(&self) -> u32 {
        self.capacity
    }

    /// The free slots as a stack; the last element is handed out next.
    pub closed spec fn free_stack(&self) -> Seq<u32> {
        self.free@
    }

    /// Every free slot is below the capacity.
    pub open spec fn wf(&self) -> bool {
        forall|i: int|
            0 <= i < self.free_stack().len() ==> #[trigger] self.free_stack()[i]
                < self.spec_capacity()
    }

    /// No slot occurs twice on the free stack.
    pub open spec fn distinct(&self) -> bool {
        self.free_stack().no_duplicates()
    }

    /// Creates a free list with `capacity` slots, all initially free.
    pub fn new(capacity: u32) -> (r: Self)
        ensures
            r.spec_capacity() == capacity,
            r.free_stack() == initial_free_stack(capacity),
            r.wf(),
            r.distinct(),
    {
        let mut free: Vec<u32> = Vec::with_capacity(capacity as usize);
        let mut i: u32 = capacity;
        while i > 0
            invariant
                i <= capacity,
                free@.len() == capacity - i,
                forall|j: int| 0 <= j < free@.len() ==> #[trigger] free@[j] == capacity - 1 - j,
            decreases i,
        {
            i = i - 1;
            free.push(i);
        }
        let r = FreeList { capacity, free };
        assert(r.free_stack() =~= initial_free_stack(capacity));
        proof {
            assert forall|a: int, b: int|
                0 <= a < r.free_stack().len() && 0 <= b < r.free_stack().len() && a != b implies
                r.free_stack()[a] != r.free_stack()[b] by {}
        }
        r
    }

    /// Pops the next free slot, or returns `None` when the list is
    /// exhausted.
    pub fn allocate(&mut self) -> (r: Option<u32>)
        ensures
            final(self).spec_capacity() == old(self).spec_capacity(),
            old(self).free_stack().len() == 0 ==> r is None && final(self).free_stack()
                == old(self).free_stack(),
            old(self).free_stack().len() > 0 ==> r == Some(old(self).free_stack().last())
                && final(self).free_stack() == old(self).free_stack().drop_last(),
            old(self).wf() ==> final(self).wf(),
            old(self).distinct() ==> final(self).distinct(),
    {
        let r = self.free.pop();
        proof {
            if old(self).free_stack().len() > 0 {
                assert(old(self).free_stack().drop_last() =~= self.free_stack());
            }
        }
        r
    }

    /// Pushes `slot` back onto the free list.
    pub fn release(&mut self, slot: u32)
        requires
            slot < old(self).spec_capacity(),
        ensures
            final(self).spec_capacity() == old(self).spec_capacity(),
            final(self).free_stack() == old(self).free_stack().push(slot),
            old(self).wf() ==> final(self).wf(),
            old(self).distinct() && !old(self).free_stack().contains(slot)
                ==> final(self).distinct(),
    {
        self.free.push(slot);
        proof {
            if old(self).distinct() && !old(self).free_stack().contains(slot) {
                let s = self.free_stack();
                assert forall|a: int, b: int|
                    0 <= a < s.len() && 0 <= b < s.len() && a != b implies s[a] != s[b] by {
                    if a == s.len() - 1 {
                        assert(old(self).free_stack()[b] == s[b]);
                    } else if b == s.len() - 1 {
                        assert(old(self).free_stack()[a] == s[a]);
                    }
                }
            }
        }
    }

    /// Returns the number of free slots (the length of the stack as a
    /// `u32`).
    pub fn free_count(&self) -> (r: u32)
        ensures
            r == self.free_stack().len() as u32,
    {
        self.free.len() as u32
    }

    /// Returns the total capacity.
    pub fn capacity(&self) -> (r: u32)
        ensures
            r == self.spec_capacity(),
    {
        self.capacity
    }
}


/// Why a slot registration failed.
#[derive(Copy, Clone, Debug, PartialEq, Eq, Structural)]
pub enum BindlessError {
    /// Every slot of the given kind is in use.
    Exhausted(SlotKind),
    /// The null kind has no storage to register into.
    NullKind,
    /// The device has no texture binding arrays, so no texture slot can
    /// be registered.
    TexturesUnsupported,
    /// A table for a device with texture binding arrays was asked for
    /// with no texture slot.
    ZeroTextureCapacity,
}

/// Abstract state of one slot pool: its capacity, its free stack, the
/// shared reference count of every slot and the recycle generation of
/// every slot.
pub ghost struct PoolView {
    pub capacity: u32,
    pub free: Seq<u32>,
    pub refs: Seq<u32>,
    pub generations: Seq<u32>,
}

impl PoolView {
    /// Well-formed pool: one count and one generation per slot, a distinct
    /// free stack of in-range slots, and every free slot has no holder.
    pub open spec fn wf(self) -> bool {
        &&& self.refs.len() == self.capacity
        &&& self.generations.len() == self.capacity
        &&& self.free.no_duplicates()
        &&& forall|i: int| 0 <= i < self.free.len() ==> #[trigger] self.free[i] < self.capacity
        &&& forall|i: int|
            0 <= i < self.free.len() ==> self.refs[#[trigger] self.free[i] as int] == 0
    }

    /// A slot is held when it is in range and not on the free stack.
    pub open spec fn held(self, slot: u32) -> bool {
        slot < self.capacity && !self.free.contains(slot)
    }

    /// Registration: pop the next free slot and give it one holder.
    pub open spec fn register_step(self) -> (PoolView, Option<u32>) {
        if self.free.len() == 0 {
            (self, None)
        } else {
            let s = self.free.last();
            (PoolView { free: self.free.drop_last(), refs: self.refs.update(s as int, 1), ..self }, Some(s))
        }
    }

    /// Cloning a handle: one more holder (wrapping, as an atomic add does).
    pub open spec fn retain_step(self, slot: u32) -> PoolView {
        PoolView {
            refs: self.refs.update(
                slot as int,
                vstd::wrapping::u32_specs::wrapping_add(self.refs[slot as int], 1),
            ),
            ..self
        }
    }

    /// Dropping a handle: one holder fewer (wrapping, as an atomic
    /// subtract does); when the previous count was one the slot goes back
    /// on the free stack and its generation is bumped.
    pub open spec fn drop_step(self, slot: u32) -> (PoolView, bool) {
        let prev = self.refs[slot as int];
        let refs = self.refs.update(slot as int, vstd::wrapping::u32_specs::wrapping_sub(prev, 1));
        if prev == 1 {
            (
                PoolView {
                    free: self.free.push(slot),
                    refs,
                    generations: self.generations.update(
                        slot as int,
                        vstd::wrapping::u32_specs::wrapping_add(self.generations[slot as int], 1),
                    ),
                    ..self
                },
                true,
            )
        } else {
            (PoolView { refs, ..self }, false)
        }
    }
}

/// The slots of one kind: a free list plus per-slot reference counts and
/// generation counters.
#[derive(Debug)]
pub struct SlotPool {
    list: FreeList,
    refs: Vec<u32>,
    generations: Vec<u32>,
}

impl View for SlotPool {
    type V = PoolView;

    closed spec fn view(&self) -> PoolView {
        PoolView {
            capacity: self.list.spec_capacity(),
            free: self.list.free_stack(),
            refs: self.refs@,
            generations: self.generations@,
        }
    }
}

impl SlotPool {
    /// Creates a pool of `capacity` free slots, all with count and
    /// generation zero.
    pub fn new(capacity: u32) -> (r: Self)
        ensures
            r@.capacity == capacity,
            r@.free == initial_free_stack(capacity),
            r@.refs == Seq::new(capacity as nat, |i: int| 0u32),
            r@.generations == Seq::new(capacity as nat, |i: int| 0u32),
            r@.wf(),
    {
        let list = FreeList::new(capacity);
        let mut refs: Vec<u32> = Vec::new();
        let mut generations: Vec<u32> = Vec::new();
        let mut i: u32 = 0;
        while i < capacity
            invariant
                i <= capacity,
                refs@ == Seq::new(i as nat, |j: int| 0u32),
                generations@ == Seq::new(i as nat, |j: int| 0u32),
            decreases capacity - i,
        {
            refs.push(0);
            generations.push(0);
            i = i + 1;
            assert(refs@ =~= Seq::new(i as nat, |j: int| 0u32));
            assert(generations@ =~= Seq::new(i as nat, |j: int| 0u32));
        }
        SlotPool { list, refs, generations }
    }

    /// Hands out the next free slot with a count of one, or `None` when the
    /// pool is exhausted.
    pub fn register(&mut self) -> (r: Option<u32>)
        requires
            old(self)@.wf(),
        ensures
            (final(self)@, r) == old(self)@.register_step(),
            final(self)@.wf(),
    {
        let r = self.list.allocate();
        match r {
            Some(s) => {
                self.refs.set(s as usize, 1);
                proof {
                    let v = final(self)@;
                    let o = old(self)@;
                    assert forall|i: int| 0 <= i < v.free.len() implies v.refs[#[trigger] v.free[i] as int] == 0 by {
                        assert(v.free[i] == o.free[i]);
                        assert(o.free[i] != o.free.last());
                    }
                }
                Some(s)
            },
            None => None,
        }
    }

    /// Records one more holder of `slot`.
    pub fn retain(&mut self, slot: u32)
        requires
            old(self)@.wf(),
            old(self)@.held(slot),
        ensures
            final(self)@ == old(self)@.retain_step(slot),
            final(self)@.wf(),
    {
        let prev = self.refs[slot as usize];
        self.refs.set(slot as usize, prev.wrapping_add(1));
        proof {
            let v = final(self)@;
            assert forall|i: int| 0 <= i < v.free.len() implies v.refs[#[trigger] v.free[i] as int] == 0 by {
                assert(v.free[i] != slot);
            }
        }
    }

    /// Records that one holder of `slot` is gone; returns `true` when that
    /// was the last holder and the slot went back on the free list.
    pub fn drop_ref(&mut self, slot: u32) -> (freed: bool)
        requires
            old(self)@.wf(),
            old(self)@.held(slot),
        ensures
            (final(self)@, freed) == old(self)@.drop_step(slot),
            final(self)@.wf(),
    {
        let prev = self.refs[slot as usize];
        self.refs.set(slot as usize, prev.wrapping_sub(1));
        if prev == 1 {
            self.list.release(slot);
            let g = self.generations[slot as usize];
            self.generations.set(slot as usize, g.wrapping_add(1));
            proof {
                let v = final(self)@;
                let o = old(self)@;
                assert(v.free == o.free.push(slot));
                assert forall|i: int| 0 <= i < v.free.len() implies v.refs[#[trigger] v.free[i] as int] == 0 by {
                    if i < o.free.len() {
                        assert(v.free[i] == o.free[i]);
                        assert(o.free[i] != slot);
                    }
                }
            }
            true
        } else {
            proof {
                let v = final(self)@;
                assert forall|i: int| 0 <= i < v.free.len() implies v.refs[#[trigger] v.free[i] as int] == 0 by {
                    assert(v.free[i] != slot);
                }
            }
            false
        }
    }

    /// Number of free slots.
    pub fn free_count(&self) -> (r: u32)
        ensures
            r == self@.free.len() as u32,
    {
        self.list.free_count()
    }

    /// Total number of slots.
    pub fn capacity(&self) -> (r: u32)
        ensures
            r == self@.capacity,
    {
        self.list.capacity()
    }

    /// Current count of holders of `slot`.
    pub fn refs(&self, slot: u32) -> (r: u32)
        requires
            self@.wf(),
            slot < self@.capacity,
        ensures
            r == self@.refs[slot as int],
    {
        self.refs[slot as usize]
    }

    /// How many times `slot` has been recycled (wrapping).
    pub fn generation(&self, slot: u32) -> (r: u32)
        requires
            self@.wf(),
            slot < self@.capacity,
        ensures
            r == self@.generations[slot as int],
    {
        self.generations[slot as usize]
    }
}

/// Registering a slot and then dropping its only handle puts the pool
/// back as it was, except that the slot's generation moved on by one.
pub proof fn law_register_then_drop_restores(v: PoolView)
    requires
        v.wf(),
        v.free.len() > 0,
    ensures
        ({
            let (v1, r) = v.register_step();
            let s = r->0;
            let (v2, freed) = v1.drop_step(s);
            &&& r is Some
            &&& freed
            &&& v2.free == v.free
            &&& v2.refs == v.refs
            &&& v2.generations == v.generations.update(
                s as int,
                vstd::wrapping::u32_specs::wrapping_add(v.generations[s as int], 1),
            )
        }),
{
    let (v1, r) = v.register_step();
    let s = r->0;
    let (v2, freed) = v1.drop_step(s);
    assert(v.free.contains(s)) by {
        assert(v.free[v.free.len() - 1] == s);
    }
    assert(v.refs[s as int] == 0) by {
        assert(v.free[v.free.len() - 1] == s);
    }
    assert(v2.free =~= v.free);
    assert(v2.refs =~= v.refs);
}

/// A registered slot is in range, had no holder before, and is held
/// afterwards: the pool never hands out a slot that a live handle owns.
pub proof fn law_register_hands_out_unheld_slot(v: PoolView)
    requires
        v.wf(),
    ensures
        ({
            let (v1, r) = v.register_step();
            r matches Some(s) ==> {
                &&& s < v.capacity
                &&& !v.held(s)
                &&& v1.held(s)
                &&& v1.refs[s as int] == 1
            }
        }),
{
    let (v1, r) = v.register_step();
    if v.free.len() > 0 {
        let s = v.free.last();
        assert(v.free[v.free.len() - 1] == s);
        assert(!v1.free.contains(s)) by {
            if v1.free.contains(s) {
                let k = choose|k: int| 0 <= k < v1.free.len() && v1.free[k] == s;
                assert(v.free[k] == s);
            }
        }
    }
}

/// Two registrations in a row hand out two different slots.
pub proof fn law_consecutive_registers_distinct(v: PoolView)
    requires
        v.wf(),
    ensures
        ({
            let (v1, r1) = v.register_step();
            let (v2, r2) = v1.register_step();
            r1 is Some && r2 is Some ==> r1->0 != r2->0
        }),
{
    let (v1, r1) = v.register_step();
    let (v2, r2) = v1.register_step();
    if v.free.len() > 1 {
        assert(v.free[v.free.len() - 1] != v.free[v.free.len() - 2]);
        assert(v1.free.last() == v.free[v.free.len() - 2]);
        assert(r1 == Some(v.free[v.free.len() - 1]));
        assert(r2 == Some(v.free[v.free.len() - 2]));
    }
}

/// Cloning a handle and dropping the clone leaves the pool unchanged as
/// long as the count had not wrapped to zero.
pub proof fn law_retain_then_drop_restores(v: PoolView, slot: u32)
    requires
        v.wf(),
        v.held(slot),
        v.refs[slot as int] != 0,
    ensures
        ({
            let (v2, freed) = v.retain_step(slot).drop_step(slot);
            !freed && v2 == v
        }),
{
    let v1 = v.retain_step(slot);
    let (v2, freed) = v1.drop_step(slot);
    assert(v2.refs =~= v.refs);
}

/// Every pool operation keeps the pool well formed.
pub proof fn law_steps_preserve_wf(v: PoolView, slot: u32)
    requires
        v.wf(),
        v.held(slot),
    ensures
        v.register_step().0.wf(),
        v.retain_step(slot).wf(),
        v.drop_step(slot).0.wf(),
{
    let (v1, r) = v.register_step();
    if v.free.len() > 0 {
        assert forall|i: int| 0 <= i < v1.free.len() implies v1.refs[#[trigger] v1.free[i] as int] == 0 by {
            assert(v1.free[i] == v.free[i]);
            assert(v.free[i] != v.free[v.free.len() - 1]);
        }
    }
    let v2 = v.retain_step(slot);
    assert forall|i: int| 0 <= i < v2.free.len() implies v2.refs[#[trigger] v2.free[i] as int] == 0 by {
        assert(v2.free[i] != slot);
    }
    let (v3, freed) = v.drop_step(slot);
    if freed {
        assert forall|a: int, b: int|
            0 <= a < v3.free.len() && 0 <= b < v3.free.len() && a != b implies v3.free[a] != v3.free[b] by {
            if a == v3.free.len() - 1 {
                assert(v.free[b] == v3.free[b]);
            } else if b == v3.free.len() - 1 {
                assert(v.free[a] == v3.free[a]);
            }
        }
        assert forall|i: int| 0 <= i < v3.free.len() implies v3.refs[#[trigger] v3.free[i] as int] == 0 by {
            if i < v.free.len() {
                assert(v3.free[i] == v.free[i]);
                assert(v.free[i] != slot);
            }
        }
    } else {
        assert forall|i: int| 0 <= i < v3.free.len() implies v3.refs[#[trigger] v3.free[i] as int] == 0 by {
            assert(v3.free[i] != slot);
        }
    }
}

/// The CPU-side state of the bindless table: one slot pool per storage
/// kind.
#[derive(Debug)]
pub struct SlotRegistry {
    meshes: SlotPool,
    materials: SlotPool,
    textures: SlotPool,
    texture_arrays: bool,
}

impl SlotRegistry {
    /// The pool of the given kind (`None` for the null kind).
    pub closed spec fn pool(&self, kind: SlotKind) -> Option<PoolView> {
        match kind {
            SlotKind::Mesh => Some(self.meshes@),
            SlotKind::Material => Some(self.materials@),
            SlotKind::Texture => Some(self.textures@),
            SlotKind::Null => None,
        }
    }

    /// Whether the device supports texture binding arrays.
    pub closed spec fn spec_texture_arrays(&self) -> bool {
        self.texture_arrays
    }

    /// Every pool is well formed.
    pub open spec fn wf(&self) -> bool {
        &&& self.pool(SlotKind::Mesh)->0.wf()
        &&& self.pool(SlotKind::Material)->0.wf()
        &&& self.pool(SlotKind::Texture)->0.wf()
    }

    /// Whether a live handle may refer to `slot` of `kind`: the null kind
    /// always, a storage kind when the slot is in range and not free.
    pub open spec fn valid_handle(&self, kind: SlotKind, slot: u32) -> bool {
        match self.pool(kind) {
            Some(p) => p.held(slot),
            None => true,
        }
    }

    /// Creates the three pools with the given capacities, every slot
    /// free, for a device with texture binding arrays; a texture capacity
    /// of zero is refused.
    pub fn new(mesh_capacity: u32, material_capacity: u32, texture_capacity: u32) -> (r: Result<Self, BindlessError>)
        ensures
            texture_capacity == 0 <==> r is Err,
            r is Err ==> r == Err::<Self, BindlessError>(BindlessError::ZeroTextureCapacity),
            r matches Ok(reg) ==> {
                &&& reg.wf()
                &&& reg.spec_texture_arrays()
                &&& reg.pool(SlotKind::Mesh)->0.capacity == mesh_capacity
                &&& reg.pool(SlotKind::Material)->0.capacity == material_capacity
                &&& reg.pool(SlotKind::Texture)->0.capacity == texture_capacity
                &&& reg.pool(SlotKind::Mesh)->0.free == initial_free_stack(mesh_capacity)
                &&& reg.pool(SlotKind::Material)->0.free == initial_free_stack(material_capacity)
                &&& reg.pool(SlotKind::Texture)->0.free == initial_free_stack(texture_capacity)
            },
    {
        SlotRegistry::for_device(mesh_capacity, material_capacity, texture_capacity, true)
    }

    /// Creates the three pools with the given capacities, every slot
    /// free, for a device that has texture binding arrays exactly when
    /// `texture_arrays` holds; without them no texture slot is ever
    /// registered. With texture arrays a texture capacity of zero is
    /// refused (the texture-array binding needs at least one layer).
    pub fn for_device(mesh_capacity: u32, material_capacity: u32, texture_capacity: u32, texture_arrays: bool) -> (r: Result<Self, BindlessError>)
        ensures
            (texture_arrays && texture_capacity == 0) <==> r is Err,
            r is Err ==> r == Err::<Self, BindlessError>(BindlessError::ZeroTextureCapacity),
            r matches Ok(reg) ==> {
                &&& reg.wf()
                &&& reg.spec_texture_arrays() == texture_arrays
                &&& reg.pool(SlotKind::Mesh)->0.capacity == mesh_capacity
                &&& reg.pool(SlotKind::Material)->0.capacity == material_capacity
                &&& reg.pool(SlotKind::Texture)->0.capacity == texture_capacity
                &&& reg.pool(SlotKind::Mesh)->0.free == initial_free_stack(mesh_capacity)
                &&& reg.pool(SlotKind::Material)->0.free == initial_free_stack(material_capacity)
                &&& reg.pool(SlotKind::Texture)->0.free == initial_free_stack(texture_capacity)
            },
    {
        if texture_arrays && texture_capacity == 0 {
            return Err(BindlessError::ZeroTextureCapacity);
        }
        Ok(
            SlotRegistry {
                meshes: SlotPool::new(mesh_capacity),
                materials: SlotPool::new(material_capacity),
                textures: SlotPool::new(texture_capacity),
                texture_arrays,
            },
        )
    }

    /// Whether the device supports texture binding arrays.
    pub fn supports_textures(&self) -> (r: bool)
        ensures
            r == self.spec_texture_arrays(),
    {
        self.texture_arrays
    }

    /// Registers a slot of `kind`: the next free slot of that pool with a
    /// count of one, `Exhausted(kind)` when the pool has no free slot,
    /// `NullKind` for the null kind, and `TexturesUnsupported` for a
    /// texture on a device without texture binding arrays. The other pools
    /// (and, on an error other than exhaustion, every pool) are untouched.
    pub fn register(&mut self, kind: SlotKind) -> (r: Result<u32, BindlessError>)
        requires
            old(self).wf(),
        ensures
            final(self).wf(),
            final(self).spec_texture_arrays() == old(self).spec_texture_arrays(),
            kind == SlotKind::Null ==> r == Err::<u32, BindlessError>(BindlessError::NullKind)
                && final(self).pool(SlotKind::Mesh) == old(self).pool(SlotKind::Mesh)
                && final(self).pool(SlotKind::Material) == old(self).pool(SlotKind::Material)
                && final(self).pool(SlotKind::Texture) == old(self).pool(SlotKind::Texture),
            kind == SlotKind::Texture && !old(self).spec_texture_arrays() ==> r == Err::<u32, BindlessError>(
                BindlessError::TexturesUnsupported,
            ) && final(self).pool(SlotKind::Mesh) == old(self).pool(SlotKind::Mesh)
                && final(self).pool(SlotKind::Material) == old(self).pool(SlotKind::Material)
                && final(self).pool(SlotKind::Texture) == old(self).pool(SlotKind::Texture),
            kind != SlotKind::Null && !(kind == SlotKind::Texture && !old(self).spec_texture_arrays()) ==> {
                let (p, o) = old(self).pool(kind)->0.register_step();
                &&& final(self).pool(kind) == Some(p)
                &&& r == match o {
                    Some(s) => Ok::<u32, BindlessError>(s),
                    None => Err(BindlessError::Exhausted(kind)),
                }
                &&& forall|k: SlotKind| k != kind ==> final(self).pool(k) == old(self).pool(k)
            },
    {
        let o = match kind {
            SlotKind::Mesh => self.meshes.register(),
            SlotKind::Material => self.materials.register(),
            SlotKind::Texture => {
                if !self.texture_arrays {
                    return Err(BindlessError::TexturesUnsupported);
                }
                self.textures.register()
            },
            SlotKind::Null => {
                return Err(BindlessError::NullKind);
            },
        };
        match o {
            Some(s) => Ok(s),
            None => Err(BindlessError::Exhausted(kind)),
        }
    }

    /// Registers a mesh slot.
    pub fn register_mesh(&mut self) -> (r: Result<u32, BindlessError>)
        requires
            old(self).wf(),
        ensures
            final(self).wf(),
            final(self).spec_texture_arrays() == old(self).spec_texture_arrays(),
            ({
                let (p, o) = old(self).pool(SlotKind::Mesh)->0.register_step();
                &&& final(self).pool(SlotKind::Mesh) == Some(p)
                &&& r == match o {
                    Some(s) => Ok::<u32, BindlessError>(s),
                    None => Err(BindlessError::Exhausted(SlotKind::Mesh)),
                }
            }),
            final(self).pool(SlotKind::Material) == old(self).pool(SlotKind::Material),
            final(self).pool(SlotKind::Texture) == old(self).pool(SlotKind::Texture),
    {
        self.register(SlotKind::Mesh)
    }

    /// Registers a material slot.
    pub fn register_material(&mut self) -> (r: Result<u32, BindlessError>)
        requires
            old(self).wf(),
        ensures
            final(self).wf(),
            final(self).spec_texture_arrays() == old(self).spec_texture_arrays(),
            ({
                let (p, o) = old(self).pool(SlotKind::Material)->0.register_step();
                &&& final(self).pool(SlotKind::Material) == Some(p)
                &&& r == match o {
                    Some(s) => Ok::<u32, BindlessError>(s),
                    None => Err(BindlessError::Exhausted(SlotKind::Material)),
                }
            }),
            final(self).pool(SlotKind::Mesh) == old(self).pool(SlotKind::Mesh),
            final(self).pool(SlotKind::Texture) == old(self).pool(SlotKind::Texture),
    {
        self.register(SlotKind::Material)
    }

    /// Registers a texture-array layer; `TexturesUnsupported` on a device
    /// without texture binding arrays.
    pub fn register_texture(&mut self) -> (r: Result<u32, BindlessError>)
        requires
            old(self).wf(),
        ensures
            final(self).wf(),
            final(self).spec_texture_arrays() == old(self).spec_texture_arrays(),
            !old(self).spec_texture_arrays() ==> r == Err::<u32, BindlessError>(BindlessError::TexturesUnsupported)
                && final(self).pool(SlotKind::Texture) == old(self).pool(SlotKind::Texture),
            old(self).spec_texture_arrays() ==> ({
                let (p, o) = old(self).pool(SlotKind::Texture)->0.register_step();
                &&& final(self).pool(SlotKind::Texture) == Some(p)
                &&& r == match o {
                    Some(s) => Ok::<u32, BindlessError>(s),
                    None => Err(BindlessError::Exhausted(SlotKind::Texture)),
                }
            }),
            final(self).pool(SlotKind::Mesh) == old(self).pool(SlotKind::Mesh),
            final(self).pool(SlotKind::Material) == old(self).pool(SlotKind::Material),
    {
        self.register(SlotKind::Texture)
    }

    /// Records a clone of a handle to `slot` of `kind` (a no-op for the
    /// null kind, which has no shared count in the table).
    pub fn retain(&mut self, kind: SlotKind, slot: u32)
        requires
            old(self).wf(),
            old(self).valid_handle(kind, slot),
        ensures
            final(self).wf(),
            final(self).spec_texture_arrays() == old(self).spec_texture_arrays(),
            kind != SlotKind::Null ==> final(self).pool(kind) == Some(
                old(self).pool(kind)->0.retain_step(slot),
            ),
            forall|k: SlotKind| k != kind ==> final(self).pool(k) == old(self).pool(k),
            kind == SlotKind::Null ==> final(self).pool(SlotKind::Mesh) == old(self).pool(SlotKind::Mesh)
                && final(self).pool(SlotKind::Material) == old(self).pool(SlotKind::Material)
                && final(self).pool(SlotKind::Texture) == old(self).pool(SlotKind::Texture),
    {
        match kind {
            SlotKind::Mesh => self.meshes.retain(slot),
            SlotKind::Material => self.materials.retain(slot),
            SlotKind::Texture => self.textures.retain(slot),
            SlotKind::Null => {},
        }
    }

    /// Records that a handle to `slot` of `kind` was dropped. Returns
    /// `true` when it was the last one and the slot went back to its free
    /// list with its generation bumped; the null kind is never freed.
    pub fn drop_ref(&mut self, kind: SlotKind, slot: u32) -> (freed: bool)
        requires
            old(self).wf(),
            old(self).valid_handle(kind, slot),
        ensures
            final(self).wf(),
            final(self).spec_texture_arrays() == old(self).spec_texture_arrays(),
            kind == SlotKind::Null ==> !freed
                && final(self).pool(SlotKind::Mesh) == old(self).pool(SlotKind::Mesh)
                && final(self).pool(SlotKind::Material) == old(self).pool(SlotKind::Material)
                && final(self).pool(SlotKind::Texture) == old(self).pool(SlotKind::Texture),
            kind != SlotKind::Null ==> {
                let (p, f) = old(self).pool(kind)->0.drop_step(slot);
                final(self).pool(kind) == Some(p) && freed == f
            },
            forall|k: SlotKind| k != kind ==> final(self).pool(k) == old(self).pool(k),
    {
        match kind {
            SlotKind::Mesh => self.meshes.drop_ref(slot),
            SlotKind::Material => self.materials.drop_ref(slot),
            SlotKind::Texture => self.textures.drop_ref(slot),
            SlotKind::Null => false,
        }
    }

    /// Number of free mesh slots.
    pub fn free_mesh_slots(&self) -> (r: u32)
        ensures
            r == self.pool(SlotKind::Mesh)->0.free.len() as u32,
    {
        self.meshes.free_count()
    }

    /// Number of free material slots.
    pub fn free_material_slots(&self) -> (r: u32)
        ensures
            r == self.pool(SlotKind::Material)->0.free.len() as u32,
    {
        self.materials.free_count()
    }

    /// Number of free texture slots.
    pub fn free_texture_slots(&self) -> (r: u32)
        ensures
            r == self.pool(SlotKind::Texture)->0.free.len() as u32,
    {
        self.textures.free_count()
    }

    /// Current count of holders of `slot` of `kind`.
    pub fn refs(&self, kind: SlotKind, slot: u32) -> (r: u32)
        requires
            self.wf(),
            kind != SlotKind::Null,
            slot < self.pool(kind)->0.capacity,
        ensures
            r == self.pool(kind)->0.refs[slot as int],
    {
        match kind {
            SlotKind::Mesh => self.meshes.refs(slot),
            SlotKind::Material => self.materials.refs(slot),
            _ => self.textures.refs(slot),
        }
    }

    /// How many times `slot` of `kind` has been recycled (wrapping).
    pub fn generation(&self, kind: SlotKind, slot: u32) -> (r: u32)
        requires
            self.wf(),
            kind != SlotKind::Null,
            slot < self.pool(kind)->0.capacity,
        ensures
            r == self.pool(kind)->0.generations[slot as int],
    {
        match kind {
            SlotKind::Mesh => self.meshes.generation(slot),
            SlotKind::Material => self.materials.generation(slot),
            _ => self.textures.generation(slot),
        }
    }
}

} // verus!
