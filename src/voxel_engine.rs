use std::collections::HashMap;
use std::sync::Arc;
use vstd::prelude::*;
use crate::chunk::{local_in_chunk, local_index, in_chunk, ChunkData};
use crate::chunks_refs::{slot_offset, ChunksRefs};
use crate::lod::Lod;
use crate::math::{fits, key_of, IVec3};
use crate::scanner::{neighbourhood_resident, observable, Scanner};
use crate::sort::{sort_by_distance, sorted_by_dist};
use crate::math::dist2;
use crate::utils::{edge_step, get_edging_chunk};
use crate::voxel::BlockType;

verus! {

/// Concurrent chunk generation tasks at most.
pub const MAX_DATA_TASKS: usize = 64;

/// Concurrent meshing tasks at most.
pub const MAX_MESH_TASKS: usize = 32;

/// Which mesher builds chunk meshes.
#[derive(PartialEq, Eq, Structural, Copy, Clone, Debug, Hash)]
pub enum MeshingMethod {
    VertexCulled,
    BinaryGreedyMeshing,
}

/// One block to overwrite: a local position in its chunk and the new block type.
#[derive(PartialEq, Eq, Structural, Copy, Clone, Debug)]
pub struct ChunkModification(pub IVec3, pub BlockType);

/// All voxel world data and the bookkeeping of its background work. Chunks are
/// keyed by `IVec3::key` of their chunk position.
pub struct VoxelEngine {
    pub world_data: HashMap<i128, Arc<ChunkData>>,
    pub load_data_queue: Vec<IVec3>,
    pub load_mesh_queue: Vec<IVec3>,
    pub unload_data_queue: Vec<IVec3>,
    pub unload_mesh_queue: Vec<IVec3>,
    /// Chunk positions whose data is being generated.
    pub data_tasks: Vec<IVec3>,
    /// Chunk positions whose mesh is being built.
    pub mesh_tasks: Vec<IVec3>,
    /// The render entity of each meshed chunk.
    pub chunk_entities: HashMap<i128, u64>,
    pub lod: Lod,
    pub meshing_method: MeshingMethod,
    pub chunk_modifications: Vec<(IVec3, Vec<ChunkModification>)>,
}

impl VoxelEngine {
    /// Whether the data of chunk `p` is resident.
    pub open spec fn resident(&self, p: IVec3) -> bool {
        self.world_data@.contains_key(key_of(p))
    }

    /// An empty world that meshes with binary greedy meshing at full detail.
    pub fn new() -> (r: VoxelEngine)
        ensures
            r.world_data@ == Map::<i128, Arc<ChunkData>>::empty(),
            r.load_data_queue@ == Seq::<IVec3>::empty(),
            r.load_mesh_queue@ == Seq::<IVec3>::empty(),
            r.unload_data_queue@ == Seq::<IVec3>::empty(),
            r.unload_mesh_queue@ == Seq::<IVec3>::empty(),
            r.data_tasks@ == Seq::<IVec3>::empty(),
            r.mesh_tasks@ == Seq::<IVec3>::empty(),
            r.chunk_entities@ == Map::<i128, u64>::empty(),
            r.wf(),
            r.lod == Lod::L32,
            r.meshing_method == MeshingMethod::BinaryGreedyMeshing,
            r.chunk_modifications@ == Seq::<(IVec3, Vec<ChunkModification>)>::empty(),
    {
        VoxelEngine {
            world_data: HashMap::new(),
            load_data_queue: Vec::new(),
            load_mesh_queue: Vec::new(),
            unload_data_queue: Vec::new(),
            unload_mesh_queue: Vec::new(),
            data_tasks: Vec::new(),
            mesh_tasks: Vec::new(),
            chunk_entities: HashMap::new(),
            lod: Lod::L32,
            meshing_method: MeshingMethod::BinaryGreedyMeshing,
            chunk_modifications: Vec::new(),
        }
    }
}

/// Whether `v` holds `p`; a linear scan.
pub fn contains_pos(v: &Vec<IVec3>, p: IVec3) -> (r: bool)
    ensures
        r == v@.contains(p),
{
    let mut i: usize = 0;
    while i < v.len()
        invariant
            i <= v.len(),
            forall|j: int| 0 <= j < i ==> v@[j] != p,
        decreases v.len() - i,
    {
        if v[i] == p {
            return true;
        }
        i = i + 1;
    }
    false
}

/// Removes the first occurrence of `p` from `v`, if any.
pub fn remove_first(v: &mut Vec<IVec3>, p: IVec3)
    ensures
        !old(v)@.contains(p) ==> final(v)@ == old(v)@,
        old(v)@.contains(p) ==> exists|i: int|
            0 <= i < old(v).len() && old(v)@[i] == p && final(v)@ == old(v)@.remove(i),
{
    let mut i: usize = 0;
    while i < v.len()
        invariant
            v@ == old(v)@,
            i <= v.len(),
            forall|j: int| 0 <= j < i ==> v@[j] != p,
        decreases v.len() - i,
    {
        if v[i] == p {
            v.remove(i);
            return;
        }
        i = i + 1;
    }
}


impl VoxelEngine {
    /// Every resident chunk is well formed, and each position has at most one
    /// generation task.
    pub open spec fn wf(&self) -> bool {
        &&& forall|k: i128| #[trigger] self.world_data@.contains_key(k) ==> self.world_data@[k].wf()
        &&& self.data_tasks@.no_duplicates()
    }
}

/// Splits `v` after its first `n` entries: `v` keeps them, the rest is returned.
fn split_front(v: &mut Vec<IVec3>, n: usize) -> (rest: Vec<IVec3>)
    requires
        n <= old(v).len(),
    ensures
        final(v)@ == old(v)@.subrange(0, n as int),
        rest@ == old(v)@.subrange(n as int, old(v).len() as int),
{
    v.split_off(n)
}

/// Sorts the data queue nearest to `scan_pos` first and starts as many generation
/// tasks as `MAX_DATA_TASKS` leaves room for: the started positions are returned,
/// recorded as running and taken off the queue.
pub fn start_data_tasks(voxel_engine: &mut VoxelEngine, scan_pos: IVec3) -> (started: Vec<IVec3>)
    requires
        old(voxel_engine).wf(),
    ensures
        final(voxel_engine).wf(),
        exists|s: Seq<IVec3>| {
            let n = take_count(MAX_DATA_TASKS as int, old(voxel_engine).data_tasks.len() as int, s.len() as int);
            &&& s.len() == old(voxel_engine).load_data_queue.len()
            &&& s.to_multiset() == old(voxel_engine).load_data_queue@.to_multiset()
            &&& #[trigger] sorted_by_dist(s, scan_pos)
            &&& final(voxel_engine).load_data_queue@ == s.subrange(n, s.len() as int)
            &&& forall|p: IVec3| #[trigger] started@.contains(p) <==> (s.subrange(0, n).contains(p)
                && !old(voxel_engine).data_tasks@.contains(p))
        },
        started@.no_duplicates(),
        final(voxel_engine).data_tasks@ == old(voxel_engine).data_tasks@ + started@,
        final(voxel_engine).world_data == old(voxel_engine).world_data,
        final(voxel_engine).load_mesh_queue == old(voxel_engine).load_mesh_queue,
{
    let queue = voxel_engine.load_data_queue.split_off(0);
    assert(queue@ =~= old(voxel_engine).load_data_queue@);
    let mut sorted = sort_by_distance(queue, scan_pos);
    let running = voxel_engine.data_tasks.len();
    let room = if running < MAX_DATA_TASKS { MAX_DATA_TASKS - running } else { 0 };
    let tasks_left = if room < sorted.len() { room } else { sorted.len() };
    let ghost all = sorted@;
    let rest = split_front(&mut sorted, tasks_left);
    proof {
        assert(all =~= sorted@ + rest@);
    }
    let mut started: Vec<IVec3> = Vec::new();
    let mut i: usize = 0;
    let ghost tasks0 = voxel_engine.data_tasks@;
    while i < sorted.len()
        invariant
            i <= sorted.len(),
            tasks0.no_duplicates(),
            voxel_engine.data_tasks@ == tasks0 + started@,
            started@.no_duplicates(),
            forall|p: IVec3| #[trigger] started@.contains(p) ==> !tasks0.contains(p),
            forall|p: IVec3| #[trigger] started@.contains(p) <==> (sorted@.subrange(0, i as int).contains(p) && !tasks0.contains(p)),
            voxel_engine.world_data == old(voxel_engine).world_data,
            voxel_engine.load_mesh_queue == old(voxel_engine).load_mesh_queue,
            forall|k: i128| #[trigger] voxel_engine.world_data@.contains_key(k) ==> voxel_engine.world_data@[k].wf(),
        decreases sorted.len() - i,
    {
        let p = sorted[i];
        let ghost st0 = started@;
        proof {
            crate::scanner::lemma_concat_contains(tasks0, started@, p);
            assert(sorted@.subrange(0, i + 1) =~= sorted@.subrange(0, i as int).push(p));
        }
        if !contains_pos(&voxel_engine.data_tasks, p) {
            proof {
                crate::scanner::lemma_push_new(tasks0, started@, p);
            }
            voxel_engine.data_tasks.push(p);
            started.push(p);
        }
        proof {
            assert forall|q: IVec3| #[trigger] started@.contains(q) <==> (sorted@.subrange(0, i + 1).contains(q) && !tasks0.contains(q)) by {
                crate::scanner::lemma_push_contains(sorted@.subrange(0, i as int), p, q);
                crate::scanner::lemma_push_contains(st0, p, q);
            }
        }
        i = i + 1;
    }
    assert(sorted@.subrange(0, sorted.len() as int) =~= sorted@);
    voxel_engine.load_data_queue = rest;
    proof {
        assert(all.subrange(0, tasks_left as int) =~= sorted@);
        assert(all.subrange(tasks_left as int, all.len() as int) =~= rest@);
        assert(sorted_by_dist(all, scan_pos));
        crate::scanner::lemma_concat_no_duplicates(tasks0, started@);
    }
    started
}

/// The positions of started meshing tasks.
pub open spec fn started_positions(s: Seq<(IVec3, ChunksRefs)>) -> Seq<IVec3> {
    s.map_values(|t: (IVec3, ChunksRefs)| t.0)
}

/// How many queued positions a step takes: as many as `max` leaves room for besides
/// `running` tasks, and no more than are queued.
pub open spec fn take_count(max: int, running: int, queued: int) -> int {
    let room = if running < max { max - running } else { 0 };
    if room < queued { room } else { queued }
}

/// Sorts the mesh queue nearest to `scan_pos` first and takes as many positions as
/// `MAX_MESH_TASKS` leaves room for. Each taken position whose 27 chunks are resident
/// is started, in order: recorded as running and returned with its neighbourhood.
/// The taken positions with a missing chunk go back on the queue after the untaken
/// ones, to be retried.
pub fn start_mesh_tasks(voxel_engine: &mut VoxelEngine, scan_pos: IVec3) -> (started: Vec<(IVec3, ChunksRefs)>)
    requires
        old(voxel_engine).wf(),
    ensures
        final(voxel_engine).wf(),
        forall|i: int| 0 <= i < started.len() ==> (#[trigger] started@[i]).1.wf(),
        forall|i: int| 0 <= i < started.len() ==> {
            let (p, refs) = #[trigger] started@[i];
            forall|j: int| 0 <= j < 27 ==> #[trigger] refs.chunks@[j] == old(voxel_engine).world_data@[key_of(
                crate::chunks_refs::offset_pos(p, slot_offset(j)),
            )]
        },
        exists|s: Seq<IVec3>| {
            let n = take_count(MAX_MESH_TASKS as int, old(voxel_engine).mesh_tasks.len() as int, s.len() as int);
            let ready = |p: IVec3| neighbourhood_resident(*old(voxel_engine), p);
            let missing = |p: IVec3| !neighbourhood_resident(*old(voxel_engine), p);
            &&& s.len() == old(voxel_engine).load_mesh_queue.len()
            &&& s.to_multiset() == old(voxel_engine).load_mesh_queue@.to_multiset()
            &&& #[trigger] sorted_by_dist(s, scan_pos)
            &&& started_positions(started@) == s.subrange(0, n).filter(ready)
            &&& final(voxel_engine).load_mesh_queue@ == s.subrange(n, s.len() as int) + s.subrange(0, n).filter(missing)
        },
        final(voxel_engine).mesh_tasks@ == old(voxel_engine).mesh_tasks@ + started_positions(started@),
        final(voxel_engine).world_data == old(voxel_engine).world_data,
{
    let ghost e0 = *voxel_engine;
    let ghost ready = |p: IVec3| neighbourhood_resident(e0, p);
    let ghost missing = |p: IVec3| !neighbourhood_resident(e0, p);
    let queue = voxel_engine.load_mesh_queue.split_off(0);
    assert(queue@ =~= old(voxel_engine).load_mesh_queue@);
    let mut sorted = sort_by_distance(queue, scan_pos);
    let running = voxel_engine.mesh_tasks.len();
    let room = if running < MAX_MESH_TASKS { MAX_MESH_TASKS - running } else { 0 };
    let tasks_left = if room < sorted.len() { room } else { sorted.len() };
    let ghost all = sorted@;
    let mut rest = split_front(&mut sorted, tasks_left);
    let ghost rest0 = rest@;
    let mut started: Vec<(IVec3, ChunksRefs)> = Vec::new();
    let mut retry: Vec<IVec3> = Vec::new();
    let ghost tasks0 = voxel_engine.mesh_tasks@;
    let mut i: usize = 0;
    while i < sorted.len()
        invariant
            i <= sorted.len(),
            sorted@ == all.subrange(0, tasks_left as int),
            voxel_engine.wf(),
            voxel_engine.world_data == e0.world_data,
            e0.wf(),
            voxel_engine.mesh_tasks@ == tasks0 + started_positions(started@),
            ready == (|p: IVec3| neighbourhood_resident(e0, p)),
            missing == (|p: IVec3| !neighbourhood_resident(e0, p)),
            started_positions(started@) == sorted@.subrange(0, i as int).filter(ready),
            retry@ == sorted@.subrange(0, i as int).filter(missing),
            forall|k: int| 0 <= k < started.len() ==> (#[trigger] started@[k]).1.wf(),
            forall|k: int| 0 <= k < started.len() ==> {
                let (p, refs) = #[trigger] started@[k];
                forall|j: int| 0 <= j < 27 ==> #[trigger] refs.chunks@[j] == e0.world_data@[key_of(
                    crate::chunks_refs::offset_pos(p, slot_offset(j)),
                )]
            },
        decreases sorted.len() - i,
    {
        let world_pos = sorted[i];
        let ghost sub1 = sorted@.subrange(0, i + 1);
        proof {
            assert(sub1.drop_last() =~= sorted@.subrange(0, i as int));
            assert(sub1.last() == world_pos);
            reveal_with_fuel(Seq::filter, 1);
        }
        let ghost st0 = started@;
        let ready_now = crate::scanner::neighbourhood_ready(voxel_engine, world_pos);
        assert(ready_now == neighbourhood_resident(e0, world_pos));
        if ready_now {
            proof {
                lemma_ready_fits(e0, world_pos);
            }
            match ChunksRefs::try_new(&voxel_engine.world_data, world_pos) {
                Some(chunks_refs) => {
                    proof {
                        assert forall|j: int| 0 <= j < 27 implies (#[trigger] chunks_refs.chunks@[j]).wf() by {
                            assert(voxel_engine.world_data@.contains_key(key_of(crate::chunks_refs::offset_pos(world_pos, slot_offset(j)))));
                        }
                    }
                    voxel_engine.mesh_tasks.push(world_pos);
                    started.push((world_pos, chunks_refs));
                    proof {
                        assert(started_positions(started@) =~= started_positions(st0).push(world_pos));
                        assert(voxel_engine.mesh_tasks@ =~= tasks0 + started_positions(started@));
                    }
                },
                None => {
                    proof {
                        lemma_ready_gathers(e0, world_pos);
                    }
                },
            }
        } else {
            retry.push(world_pos);
        }
        proof {
            reveal_with_fuel(Seq::filter, 1);
            let pre = sorted@.subrange(0, i as int);
            assert(ready(world_pos) == ready_now);
            assert(missing(world_pos) == !ready_now);
            assert(sub1.filter(ready) == (if ready_now { pre.filter(ready).push(world_pos) } else { pre.filter(ready) }));
            assert(sub1.filter(missing) == (if ready_now { pre.filter(missing) } else { pre.filter(missing).push(world_pos) }));
        }
        i = i + 1;
    }
    assert(sorted@.subrange(0, sorted.len() as int) =~= sorted@);
    let ghost r0 = retry@;
    rest.append(&mut retry);
    voxel_engine.load_mesh_queue = rest;
    proof {
        assert(all =~= sorted@ + rest0);
        assert(all.subrange(0, tasks_left as int) =~= sorted@);
        assert(all.subrange(tasks_left as int, all.len() as int) =~= rest0);
        assert(voxel_engine.load_mesh_queue@ =~= all.subrange(tasks_left as int, all.len() as int) + all.subrange(0, tasks_left as int).filter(missing));
        assert(sorted_by_dist(all, scan_pos));
    }
    started
}

/// A position whose neighbourhood is resident has all its neighbours inside `i32`.
proof fn lemma_ready_fits(e: VoxelEngine, p: IVec3)
    requires
        neighbourhood_resident(e, p),
    ensures
        fits(p.x - 1, p.y - 1, p.z - 1),
        fits(p.x + 1, p.y + 1, p.z + 1),
{
    let a = slot_offset(0);
    let b = slot_offset(26);
    assert(a == (IVec3 { x: -1i32, y: -1i32, z: -1i32 }));
    assert(b == (IVec3 { x: 1, y: 1, z: 1 }));
}

/// A resident neighbourhood can always be gathered.
proof fn lemma_ready_gathers(e: VoxelEngine, p: IVec3)
    requires
        neighbourhood_resident(e, p),
        fits(p.x - 1, p.y - 1, p.z - 1),
        fits(p.x + 1, p.y + 1, p.z + 1),
    ensures
        forall|i: int| 0 <= i < 27 ==> e.world_data@.contains_key(key_of(#[trigger] crate::chunks_refs::offset_pos(p, slot_offset(i)))),
{
    assert forall|i: int| 0 <= i < 27 implies e.world_data@.contains_key(key_of(#[trigger] crate::chunks_refs::offset_pos(p, slot_offset(i)))) by {
        let o = slot_offset(i);
        assert(e.resident(IVec3 { x: (p.x + o.x) as i32, y: (p.y + o.y) as i32, z: (p.z + o.z) as i32 }));
    }
}

/// The block type at index `i` after applying `mods` in order to a chunk whose block
/// there was `b`: the last modification of that index wins.
pub open spec fn modified_block(b: BlockType, mods: Seq<ChunkModification>, i: int) -> BlockType
    decreases mods.len(),
{
    if mods.len() == 0 {
        b
    } else if local_index(mods.last().0) == i {
        mods.last().1
    } else {
        modified_block(b, mods.drop_last(), i)
    }
}

/// Whether a batch of modifications for chunk `pos` can be applied.
pub open spec fn valid_batch(pos: IVec3, mods: Seq<ChunkModification>) -> bool {
    &&& fits(pos.x - 1, pos.y - 1, pos.z - 1)
    &&& fits(pos.x + 1, pos.y + 1, pos.z + 1)
    &&& forall|j: int| 0 <= j < mods.len() ==> local_in_chunk((#[trigger] mods[j]).0)
}

/// Whether a batch of modifications for chunk `pos` can be applied.
pub fn batch_is_valid(pos: IVec3, mods: &Vec<ChunkModification>) -> (r: bool)
    ensures
        r == valid_batch(pos, mods@),
{
    if pos.x == i32::MIN || pos.y == i32::MIN || pos.z == i32::MIN || pos.x == i32::MAX || pos.y
        == i32::MAX || pos.z == i32::MAX {
        return false;
    }
    let mut j: usize = 0;
    while j < mods.len()
        invariant
            j <= mods.len(),
            forall|k: int| 0 <= k < j ==> local_in_chunk((#[trigger] mods@[k]).0),
        decreases mods.len() - j,
    {
        let l = mods[j].0;
        if !(0 <= l.x && l.x < 32 && 0 <= l.y && l.y < 32 && 0 <= l.z && l.z < 32) {
            return false;
        }
        j = j + 1;
    }
    true
}

/// Whether chunk offset `d` is a neighbour across the border of some modified block.
pub open spec fn border_neighbour(d: IVec3, mods: Seq<ChunkModification>) -> bool {
    exists|j: int| 0 <= j < mods.len() && on_border((#[trigger] mods[j]).0) && sub_step(d, mods[j].0)
}

/// Whether chunk offset `d` is one of the up to 7 neighbours across the border that
/// local position `l` lies on: each axis of `d` is 0 or the step of `l` on that axis,
/// and `d` is not zero.
pub open spec fn sub_step(d: IVec3, l: IVec3) -> bool {
    &&& (d.x == 0 || d.x == edge_step(l.x))
    &&& (d.y == 0 || d.y == edge_step(l.y))
    &&& (d.z == 0 || d.z == edge_step(l.z))
    &&& d != (IVec3 { x: 0, y: 0, z: 0 })
}

/// The neighbour offset that mask `mm` picks out of the step `d`: bit 0 keeps x,
/// bit 1 keeps y, bit 2 keeps z.
pub open spec fn mask_step(d: IVec3, mm: int) -> IVec3 {
    IVec3 {
        x: if mm % 2 == 1 { d.x } else { 0i32 },
        y: if (mm / 2) % 2 == 1 { d.y } else { 0i32 },
        z: if mm / 4 == 1 { d.z } else { 0i32 },
    }
}

/// The neighbours across the border of `l` are the non-zero offsets that the seven
/// masks pick out of its step.
proof fn lemma_sub_step_masks(q: IVec3, l: IVec3)
    ensures
        sub_step(q, l) <==> exists|mm: int|
            1 <= mm < 8 && q == #[trigger] mask_step(
                IVec3 { x: edge_step(l.x), y: edge_step(l.y), z: edge_step(l.z) },
                mm,
            ) && q != (IVec3 { x: 0, y: 0, z: 0 }),
{
    let d = IVec3 { x: edge_step(l.x), y: edge_step(l.y), z: edge_step(l.z) };
    if sub_step(q, l) {
        let mm = (if q.x != 0 { 1int } else { 0int }) + (if q.y != 0 { 2int } else { 0int }) + (if q.z != 0 { 4int } else { 0int });
        assert(mm % 2 == (if q.x != 0 { 1int } else { 0int }));
        assert((mm / 2) % 2 == (if q.y != 0 { 1int } else { 0int }));
        assert(mm / 4 == (if q.z != 0 { 1int } else { 0int }));
        assert(q == mask_step(d, mm));
    }
}

/// Whether a local position lies on the border of its chunk.
pub open spec fn on_border(l: IVec3) -> bool {
    edge_step(l.x) != 0 || edge_step(l.y) != 0 || edge_step(l.z) != 0
}

/// Applies one batch of modifications to a copy of the chunk and returns it, with the
/// chunk offsets that need meshing again besides the chunk itself.
fn apply_batch(chunk: &ChunkData, mods: &Vec<ChunkModification>) -> (r: (ChunkData, Vec<IVec3>))
    requires
        chunk.wf(),
        forall|j: int| 0 <= j < mods.len() ==> local_in_chunk((#[trigger] mods@[j]).0),
    ensures
        r.0.wf(),
        mods.len() > 0 ==> r.0.voxels.len() == crate::chunk::CHUNK_SIZE3,
        forall|i: int| in_chunk(i) ==> (#[trigger] r.0.block_at(i)).block_type == modified_block(
            chunk.block_at(i).block_type,
            mods@,
            i,
        ),
        forall|d: IVec3| #[trigger] r.1@.contains(d) <==> exists|j: int|
            0 <= j < mods.len() && on_border((#[trigger] mods@[j]).0) && sub_step(d, mods@[j].0),
{
    let mut new_chunk = chunk.snapshot();
    let mut adj: Vec<IVec3> = Vec::new();
    let mut j: usize = 0;
    while j < mods.len()
        invariant
            j <= mods.len(),
            chunk.wf(),
            new_chunk.wf(),
            j > 0 ==> new_chunk.voxels.len() == crate::chunk::CHUNK_SIZE3,
            forall|k: int| 0 <= k < mods.len() ==> local_in_chunk((#[trigger] mods@[k]).0),
            forall|i: int| in_chunk(i) ==> (#[trigger] new_chunk.block_at(i)).block_type == modified_block(
                chunk.block_at(i).block_type,
                mods@.subrange(0, j as int),
                i,
            ),
            forall|d: IVec3| #[trigger] adj@.contains(d) <==> exists|k: int|
                0 <= k < j && on_border((#[trigger] mods@[k]).0) && sub_step(d, mods@[k].0),
        decreases mods.len() - j,
    {
        let m = mods[j];
        let ghost before = new_chunk;
        let ghost adj0 = adj@;
        new_chunk.set_block(m.0, m.1);
        proof {
            let s1 = mods@.subrange(0, j + 1);
            assert(s1.drop_last() =~= mods@.subrange(0, j as int));
            assert(s1.last() == m);
        }
        match get_edging_chunk(m.0) {
            Some(d) => {
                let mut mask: i32 = 1;
                while mask < 8
                    invariant
                        1 <= mask <= 8,
                        d == (IVec3 { x: edge_step(m.0.x), y: edge_step(m.0.y), z: edge_step(m.0.z) }),
                        forall|q: IVec3| #[trigger] adj@.contains(q) <==> (adj0.contains(q) || exists|mm: int|
                            1 <= mm < mask && q == #[trigger] mask_step(d, mm) && q != (IVec3 { x: 0, y: 0, z: 0 })),
                    decreases 8 - mask,
                {
                    let e = IVec3::new(
                        if mask % 2 == 1 { d.x } else { 0 },
                        if (mask / 2) % 2 == 1 { d.y } else { 0 },
                        if mask / 4 == 1 { d.z } else { 0 },
                    );
                    assert(e == mask_step(d, mask as int));
                    let ghost a1 = adj@;
                    if e != IVec3::new(0, 0, 0) && !contains_pos(&adj, e) {
                        adj.push(e);
                    }
                    proof {
                        assert forall|q: IVec3| #[trigger] adj@.contains(q) <==> (adj0.contains(q) || exists|mm: int|
                            1 <= mm < mask + 1 && q == #[trigger] mask_step(d, mm) && q != (IVec3 { x: 0, y: 0, z: 0 })) by {
                            crate::scanner::lemma_push_contains(a1, e, q);
                            if exists|mm: int| 1 <= mm < mask + 1 && q == #[trigger] mask_step(d, mm) && q != (IVec3 { x: 0, y: 0, z: 0 }) {
                                let mm = choose|mm: int| 1 <= mm < mask + 1 && q == #[trigger] mask_step(d, mm) && q != (IVec3 { x: 0, y: 0, z: 0 });
                                if mm < mask {
                                    assert(a1.contains(q));
                                }
                            }
                        }
                    }
                    mask = mask + 1;
                }
            },
            None => {},
        }
        proof {
            assert forall|q: IVec3| #[trigger] adj@.contains(q) <==> exists|k: int|
                0 <= k < j + 1 && on_border((#[trigger] mods@[k]).0) && sub_step(q, mods@[k].0) by {
                lemma_sub_step_masks(q, m.0);
                if exists|k: int| 0 <= k < j + 1 && on_border((#[trigger] mods@[k]).0) && sub_step(q, mods@[k].0) {
                    let k = choose|k: int| 0 <= k < j + 1 && on_border((#[trigger] mods@[k]).0) && sub_step(q, mods@[k].0);
                    if k < j {
                        assert(adj0.contains(q));
                    }
                }
                if adj@.contains(q) && !adj0.contains(q) {
                    assert(mods@[j as int] == m);
                }
            }
        }
        j = j + 1;
    }
    proof {
        assert(mods@.subrange(0, mods.len() as int) =~= mods@);
    }
    (new_chunk, adj)
}


/// Whether world `w1` and mesh queue `q1` are `w0` and `q0` after applying one batch
/// of modifications to chunk `pos`: a batch for a chunk that is not resident changes
/// nothing; otherwise the chunk's cells are those of `modified_block`, it is dense when
/// the batch is not empty, and the chunks whose padding reads a modified border block
/// and then `pos` itself are appended to the queue.
pub open spec fn batch_applied(
    w0: Map<i128, Arc<ChunkData>>,
    q0: Seq<IVec3>,
    pos: IVec3,
    mods: Seq<ChunkModification>,
    w1: Map<i128, Arc<ChunkData>>,
    q1: Seq<IVec3>,
) -> bool {
    if !w0.contains_key(key_of(pos)) {
        w1 == w0 && q1 == q0
    } else {
        let c = w1[key_of(pos)];
        let c0 = w0[key_of(pos)];
        let n0 = q0.len();
        &&& w1 == w0.insert(key_of(pos), c)
        &&& mods.len() > 0 ==> c.voxels.len() == crate::chunk::CHUNK_SIZE3
        &&& forall|i: int| in_chunk(i) ==> (#[trigger] c.block_at(i)).block_type == modified_block(c0.block_at(i).block_type, mods, i)
        &&& q1.len() > n0
        &&& q1.subrange(0, n0 as int) == q0
        &&& q1.last() == pos
        &&& forall|p: IVec3| #[trigger] q1.subrange(n0 as int, q1.len() - 1).contains(p) <==> exists|d: IVec3|
            #[trigger] border_neighbour(d, mods) && p == crate::chunks_refs::offset_pos(pos, d)
    }
}

/// Applies one batch of modifications to resident chunk `pos`: the chunk is copied
/// before it is written, so that meshing tasks keep their snapshot. Then the chunks
/// whose padding reads a modified border block, and `pos` itself, are queued for
/// meshing. A batch for a chunk that is not resident is dropped.
pub fn apply_modifications(voxel_engine: &mut VoxelEngine, pos: IVec3, mods: &Vec<ChunkModification>)
    requires
        old(voxel_engine).wf(),
        valid_batch(pos, mods@),
    ensures
        final(voxel_engine).wf(),
        !old(voxel_engine).resident(pos) ==> *final(voxel_engine) == *old(voxel_engine),
        batch_applied(
            old(voxel_engine).world_data@,
            old(voxel_engine).load_mesh_queue@,
            pos,
            mods@,
            final(voxel_engine).world_data@,
            final(voxel_engine).load_mesh_queue@,
        ),
        final(voxel_engine).chunk_modifications == old(voxel_engine).chunk_modifications,
{
    let key = pos.key();
    let (new_chunk, adj) = match voxel_engine.world_data.get(&key) {
        Some(c) => apply_batch(&**c, mods),
        None => {
            return;
        },
    };
    voxel_engine.world_data.insert(key, Arc::new(new_chunk));
    let ghost w1 = voxel_engine.world_data@;
    let ghost q0 = voxel_engine.load_mesh_queue@;
    proof {
        assert forall|k: int| 0 <= k < adj.len() implies -1 <= (#[trigger] adj@[k]).x <= 1 && -1 <= adj@[k].y <= 1 && -1 <= adj@[k].z <= 1 by {
            assert(adj@.contains(adj@[k]));
        }
    }
    let mut i: usize = 0;
    while i < adj.len()
        invariant
            i <= adj.len(),
            valid_batch(pos, mods@),
            forall|d: IVec3| #[trigger] adj@.contains(d) <==> border_neighbour(d, mods@),
            forall|k: int| 0 <= k < adj.len() ==> -1 <= (#[trigger] adj@[k]).x <= 1 && -1 <= adj@[k].y <= 1 && -1 <= adj@[k].z <= 1,
            voxel_engine.load_mesh_queue@.len() == q0.len() + i,
            voxel_engine.load_mesh_queue@.subrange(0, q0.len() as int) == q0,
            voxel_engine.world_data@ == w1,
            voxel_engine.chunk_modifications == old(voxel_engine).chunk_modifications,
            voxel_engine.data_tasks == old(voxel_engine).data_tasks,
            forall|k: int| 0 <= k < i ==> #[trigger] voxel_engine.load_mesh_queue@[q0.len() + k] == (IVec3 {
                x: (pos.x + adj@[k].x) as i32,
                y: (pos.y + adj@[k].y) as i32,
                z: (pos.z + adj@[k].z) as i32,
            }),
        decreases adj.len() - i,
    {
        let d = adj[i];
        voxel_engine.load_mesh_queue.push(pos.add(d));
        assert(voxel_engine.load_mesh_queue@.subrange(0, q0.len() as int) =~= q0);
        i = i + 1;
    }
    voxel_engine.load_mesh_queue.push(pos);
    proof {
        let q = voxel_engine.load_mesh_queue@;
        assert(q.subrange(0, q0.len() as int) =~= q0);
        let mid = q.subrange(q0.len() as int, q.len() - 1);
        assert forall|p: IVec3| #[trigger] mid.contains(p) <==> exists|d: IVec3|
            #[trigger] border_neighbour(d, mods@) && p == crate::chunks_refs::offset_pos(pos, d) by {
            if mid.contains(p) {
                let k = choose|k: int| 0 <= k < mid.len() && mid[k] == p;
                assert(mid[k] == q[q0.len() + k]);
                assert(adj@.contains(adj@[k]));
                assert(border_neighbour(adj@[k], mods@));
            }
            if exists|d: IVec3| #[trigger] border_neighbour(d, mods@) && p == crate::chunks_refs::offset_pos(pos, d) {
                let d = choose|d: IVec3| #[trigger] border_neighbour(d, mods@) && p == crate::chunks_refs::offset_pos(pos, d);
                assert(adj@.contains(d));
                let k = choose|k: int| 0 <= k < adj.len() && adj@[k] == d;
                assert(mid[k] == q[q0.len() + k]);
            }
        }
        assert forall|k: i128| #[trigger] voxel_engine.world_data@.contains_key(k) implies voxel_engine.world_data@[k].wf() by {
            if k != key {
                assert(old(voxel_engine).world_data@.contains_key(k));
            }
        }
    }
}

/// Whether the worlds `ws` and mesh queues `qs` are the states before and after each
/// batch of `batches`, applied in order.
pub open spec fn batches_applied(
    ws: Seq<Map<i128, Arc<ChunkData>>>,
    qs: Seq<Seq<IVec3>>,
    batches: Seq<(IVec3, Vec<ChunkModification>)>,
) -> bool {
    &&& ws.len() == batches.len() + 1
    &&& qs.len() == batches.len() + 1
    &&& forall|b: int|
        0 <= b < batches.len() ==> #[trigger] batch_applied(ws[b], qs[b], batches[b].0, batches[b].1@, ws[b + 1], qs[b + 1])
}

/// Applies every pending batch of modifications, in order, and clears them.
pub fn start_modifications(voxel_engine: &mut VoxelEngine)
    requires
        old(voxel_engine).wf(),
        forall|b: int|
            0 <= b < old(voxel_engine).chunk_modifications.len() ==> valid_batch(
                (#[trigger] old(voxel_engine).chunk_modifications@[b]).0,
                old(voxel_engine).chunk_modifications@[b].1@,
            ),
    ensures
        final(voxel_engine).wf(),
        final(voxel_engine).chunk_modifications@.len() == 0,
        forall|k: i128| #[trigger] final(voxel_engine).world_data@.contains_key(k) <==> old(voxel_engine).world_data@.contains_key(k),
        final(voxel_engine).load_mesh_queue@.subrange(0, old(voxel_engine).load_mesh_queue@.len() as int) == old(voxel_engine).load_mesh_queue@,
        exists|ws: Seq<Map<i128, Arc<ChunkData>>>, qs: Seq<Seq<IVec3>>|
            #[trigger] batches_applied(ws, qs, old(voxel_engine).chunk_modifications@) && ws[0] == old(voxel_engine).world_data@
                && qs[0] == old(voxel_engine).load_mesh_queue@ && ws.last() == final(voxel_engine).world_data@
                && qs.last() == final(voxel_engine).load_mesh_queue@,
{
    let batches = voxel_engine.chunk_modifications.split_off(0);
    let ghost q0 = voxel_engine.load_mesh_queue@;
    let ghost mut ws: Seq<Map<i128, Arc<ChunkData>>> = seq![voxel_engine.world_data@];
    let ghost mut qs: Seq<Seq<IVec3>> = seq![q0];
    let mut b: usize = 0;
    while b < batches.len()
        invariant
            b <= batches.len(),
            batches@ == old(voxel_engine).chunk_modifications@,
            forall|c: int| 0 <= c < batches.len() ==> valid_batch((#[trigger] batches@[c]).0, batches@[c].1@),
            voxel_engine.wf(),
            voxel_engine.chunk_modifications@.len() == 0,
            forall|k: i128| #[trigger] voxel_engine.world_data@.contains_key(k) <==> old(voxel_engine).world_data@.contains_key(k),
            voxel_engine.load_mesh_queue@.len() >= q0.len(),
            voxel_engine.load_mesh_queue@.subrange(0, q0.len() as int) == q0,
            q0 == old(voxel_engine).load_mesh_queue@,
            ws.len() == b + 1,
            qs.len() == b + 1,
            ws[0] == old(voxel_engine).world_data@,
            qs[0] == q0,
            ws.last() == voxel_engine.world_data@,
            qs.last() == voxel_engine.load_mesh_queue@,
            forall|c: int|
                0 <= c < b ==> #[trigger] batch_applied(ws[c], qs[c], batches@[c].0, batches@[c].1@, ws[c + 1], qs[c + 1]),
        decreases batches.len() - b,
    {
        let ghost before = *voxel_engine;
        apply_modifications(voxel_engine, batches[b].0, &batches[b].1);
        proof {
            let ws0 = ws;
            let qs0 = qs;
            ws = ws.push(voxel_engine.world_data@);
            qs = qs.push(voxel_engine.load_mesh_queue@);
            assert forall|c: int|
                0 <= c < b + 1 implies #[trigger] batch_applied(ws[c], qs[c], batches@[c].0, batches@[c].1@, ws[c + 1], qs[c + 1]) by {
                if c < b {
                    assert(ws[c] == ws0[c] && ws[c + 1] == ws0[c + 1] && qs[c] == qs0[c] && qs[c + 1] == qs0[c + 1]);
                } else {
                    assert(ws[c] == before.world_data@ && qs[c] == before.load_mesh_queue@);
                }
            }
        }
        proof {
            if before.resident(batches@[b as int].0) {
                assert(voxel_engine.load_mesh_queue@.subrange(0, before.load_mesh_queue@.len() as int) == before.load_mesh_queue@);
                assert(voxel_engine.load_mesh_queue@.subrange(0, q0.len() as int) =~= before.load_mesh_queue@.subrange(0, q0.len() as int));
                assert forall|k: i128| #[trigger] voxel_engine.world_data@.contains_key(k) <==> old(voxel_engine).world_data@.contains_key(k) by {
                    assert(before.world_data@.contains_key(key_of(batches@[b as int].0)));
                }
            }
        }
        b = b + 1;
    }
    proof {
        assert(batches_applied(ws, qs, old(voxel_engine).chunk_modifications@));
    }
}

/// Stores the chunk a generation task produced and marks the task done.
pub fn join_data(voxel_engine: &mut VoxelEngine, world_pos: IVec3, chunk_data: ChunkData)
    requires
        old(voxel_engine).wf(),
        chunk_data.wf(),
    ensures
        final(voxel_engine).wf(),
        final(voxel_engine).world_data@ == old(voxel_engine).world_data@.insert(key_of(world_pos), Arc::new(chunk_data)),
        !old(voxel_engine).data_tasks@.contains(world_pos) ==> final(voxel_engine).data_tasks@ == old(voxel_engine).data_tasks@,
        old(voxel_engine).data_tasks@.contains(world_pos) ==> exists|i: int|
            0 <= i < old(voxel_engine).data_tasks.len() && old(voxel_engine).data_tasks@[i] == world_pos
                && final(voxel_engine).data_tasks@ == old(voxel_engine).data_tasks@.remove(i),
        final(voxel_engine).load_data_queue == old(voxel_engine).load_data_queue,
        final(voxel_engine).unload_data_queue == old(voxel_engine).unload_data_queue,
{
    voxel_engine.world_data.insert(world_pos.key(), Arc::new(chunk_data));
    remove_first(&mut voxel_engine.data_tasks, world_pos);
    proof {
        assert forall|k: i128| #[trigger] voxel_engine.world_data@.contains_key(k) implies voxel_engine.world_data@[k].wf() by {
            if k != key_of(world_pos) {
                assert(old(voxel_engine).world_data@.contains_key(k));
            }
        }
    }
}

/// Marks the meshing task of `world_pos` done. When it produced a mesh, `entity` is
/// the render entity made for it: it replaces the chunk's previous entity, which is
/// returned to be despawned.
pub fn join_mesh(voxel_engine: &mut VoxelEngine, world_pos: IVec3, entity: Option<u64>) -> (previous: Option<u64>)
    ensures
        entity is None ==> previous is None && final(voxel_engine).chunk_entities == old(voxel_engine).chunk_entities,
        entity matches Some(e) ==> final(voxel_engine).chunk_entities@ == old(voxel_engine).chunk_entities@.insert(key_of(world_pos), e)
            && (old(voxel_engine).chunk_entities@.contains_key(key_of(world_pos)) ==> previous == Some(old(voxel_engine).chunk_entities@[key_of(world_pos)]))
            && (!old(voxel_engine).chunk_entities@.contains_key(key_of(world_pos)) ==> previous is None),
        !old(voxel_engine).mesh_tasks@.contains(world_pos) ==> final(voxel_engine).mesh_tasks@ == old(voxel_engine).mesh_tasks@,
        old(voxel_engine).mesh_tasks@.contains(world_pos) ==> exists|i: int|
            0 <= i < old(voxel_engine).mesh_tasks.len() && old(voxel_engine).mesh_tasks@[i] == world_pos
                && final(voxel_engine).mesh_tasks@ == old(voxel_engine).mesh_tasks@.remove(i),
        final(voxel_engine).world_data == old(voxel_engine).world_data,
{
    remove_first(&mut voxel_engine.mesh_tasks, world_pos);
    match entity {
        Some(e) => voxel_engine.chunk_entities.insert(world_pos.key(), e),
        None => None,
    }
}

/// Drops the data of every chunk queued for unloading and empties the queue.
pub fn unload_data(voxel_engine: &mut VoxelEngine)
    requires
        old(voxel_engine).wf(),
    ensures
        final(voxel_engine).wf(),
        final(voxel_engine).unload_data_queue@.len() == 0,
        forall|k: i128| #[trigger] final(voxel_engine).world_data@.contains_key(k) <==> (old(voxel_engine).world_data@.contains_key(k)
            && !exists|j: int| 0 <= j < old(voxel_engine).unload_data_queue.len() && key_of(#[trigger] old(voxel_engine).unload_data_queue@[j]) == k),
        forall|k: i128| #[trigger] final(voxel_engine).world_data@.contains_key(k) ==> final(voxel_engine).world_data@[k] == old(voxel_engine).world_data@[k],
{
    let ghost w0 = voxel_engine.world_data@;
    let ghost q = voxel_engine.unload_data_queue@;
    let mut i: usize = 0;
    while i < voxel_engine.unload_data_queue.len()
        invariant
            voxel_engine.unload_data_queue@ == q,
            i <= q.len(),
            forall|k: i128| #[trigger] voxel_engine.world_data@.contains_key(k) <==> (w0.contains_key(k)
                && !exists|j: int| 0 <= j < i && key_of(#[trigger] q[j]) == k),
            forall|k: i128| #[trigger] voxel_engine.world_data@.contains_key(k) ==> voxel_engine.world_data@[k] == w0[k],
            voxel_engine.data_tasks == old(voxel_engine).data_tasks,
        decreases q.len() - i,
    {
        let key = voxel_engine.unload_data_queue[i].key();
        voxel_engine.world_data.remove(&key);
        proof {
            assert forall|k: i128| #[trigger] voxel_engine.world_data@.contains_key(k) <==> (w0.contains_key(k)
                && !exists|j: int| 0 <= j < i + 1 && key_of(#[trigger] q[j]) == k) by {
                if k == key {
                    assert(key_of(q[i as int]) == k);
                }
            }
        }
        i = i + 1;
    }
    voxel_engine.unload_data_queue = Vec::new();
    proof {
        assert forall|k: i128| #[trigger] voxel_engine.world_data@.contains_key(k) implies voxel_engine.world_data@[k].wf() by {
            assert(w0.contains_key(k));
        }
    }
}

/// Whether `id` was the entity of a chunk that `old` holds and `new` no longer does.
pub open spec fn was_dropped(old: Map<i128, u64>, new: Map<i128, u64>, id: u64) -> bool {
    exists|k: i128| #[trigger] old.contains_key(k) && !new.contains_key(k) && old[k] == id
}

/// Forgets the render entity of every chunk queued for mesh unloading, empties the
/// queue, and returns those entities to be despawned.
pub fn unload_mesh(voxel_engine: &mut VoxelEngine) -> (despawn: Vec<u64>)
    ensures
        final(voxel_engine).unload_mesh_queue@.len() == 0,
        forall|k: i128| #[trigger] final(voxel_engine).chunk_entities@.contains_key(k) <==> (old(voxel_engine).chunk_entities@.contains_key(k)
            && !exists|j: int| 0 <= j < old(voxel_engine).unload_mesh_queue.len() && key_of(#[trigger] old(voxel_engine).unload_mesh_queue@[j]) == k),
        forall|i: int| 0 <= i < despawn.len() ==> was_dropped(
            old(voxel_engine).chunk_entities@,
            final(voxel_engine).chunk_entities@,
            #[trigger] despawn@[i],
        ),
        forall|k: i128|
            #[trigger] old(voxel_engine).chunk_entities@.contains_key(k) && !final(voxel_engine).chunk_entities@.contains_key(k)
                ==> despawn@.contains(old(voxel_engine).chunk_entities@[k]),
        final(voxel_engine).world_data == old(voxel_engine).world_data,
{
    let ghost e0 = voxel_engine.chunk_entities@;
    let ghost q = voxel_engine.unload_mesh_queue@;
    let mut despawn: Vec<u64> = Vec::new();
    let mut i: usize = 0;
    while i < voxel_engine.unload_mesh_queue.len()
        invariant
            voxel_engine.unload_mesh_queue@ == q,
            i <= q.len(),
            forall|k: i128| #[trigger] voxel_engine.chunk_entities@.contains_key(k) <==> (e0.contains_key(k)
                && !exists|j: int| 0 <= j < i && key_of(#[trigger] q[j]) == k),
            forall|k: i128| #[trigger] voxel_engine.chunk_entities@.contains_key(k) ==> voxel_engine.chunk_entities@[k] == e0[k],
            forall|d: int| 0 <= d < despawn.len() ==> was_dropped(e0, voxel_engine.chunk_entities@, #[trigger] despawn@[d]),
            forall|k: i128| #[trigger] e0.contains_key(k) && !voxel_engine.chunk_entities@.contains_key(k) ==> despawn@.contains(e0[k]),
            voxel_engine.world_data == old(voxel_engine).world_data,
        decreases q.len() - i,
    {
        let key = voxel_engine.unload_mesh_queue[i].key();
        let ghost before = voxel_engine.chunk_entities@;
        let ghost d0 = despawn@;
        match voxel_engine.chunk_entities.remove(&key) {
            Some(chunk_id) => {
                despawn.push(chunk_id);
            },
            None => {},
        }
        proof {
            assert forall|k: i128| #[trigger] e0.contains_key(k) && !voxel_engine.chunk_entities@.contains_key(k) implies despawn@.contains(e0[k]) by {
                if before.contains_key(k) {
                    assert(k == key);
                    assert(despawn@[despawn.len() - 1] == e0[k]);
                } else {
                    assert(d0.contains(e0[k]));
                    let m = choose|m: int| 0 <= m < d0.len() && d0[m] == e0[k];
                    assert(despawn@[m] == d0[m]);
                }
            }
        }
        proof {
            assert forall|k: i128| #[trigger] voxel_engine.chunk_entities@.contains_key(k) <==> (e0.contains_key(k)
                && !exists|j: int| 0 <= j < i + 1 && key_of(#[trigger] q[j]) == k) by {
                if k == key {
                    assert(key_of(q[i as int]) == k);
                }
            }
            assert forall|d: int| 0 <= d < despawn.len() implies was_dropped(e0, voxel_engine.chunk_entities@, #[trigger] despawn@[d]) by {
                if d < d0.len() {
                    assert(despawn@[d] == d0[d]);
                    assert(was_dropped(e0, before, d0[d]));
                    let k = choose|k: i128| #[trigger] e0.contains_key(k) && !before.contains_key(k) && d0[d] == e0[k];
                    assert(e0.contains_key(k) && !voxel_engine.chunk_entities@.contains_key(k) && despawn@[d] == e0[k]);
                } else {
                    assert(before.contains_key(key));
                    assert(e0.contains_key(key) && before[key] == e0[key]);
                    assert(e0.contains_key(key) && !voxel_engine.chunk_entities@.contains_key(key) && despawn@[d] == e0[key]);
                }
            }
        }
        i = i + 1;
    }
    voxel_engine.unload_mesh_queue = Vec::new();
    despawn
}

/// Cancels all mesh work and queues every chunk in the scanner's mesh area around
/// `scan_pos` for meshing again.
pub fn unload_all_meshes(voxel_engine: &mut VoxelEngine, scanner: &Scanner, scan_pos: IVec3)
    requires
        scanner.wf(),
        observable(scan_pos),
    ensures
        final(voxel_engine).mesh_tasks@.len() == 0,
        final(voxel_engine).load_mesh_queue@.len() == scanner.mesh_sampling_offsets@.len(),
        forall|i: int| 0 <= i < scanner.mesh_sampling_offsets.len() ==> {
            let o = #[trigger] scanner.mesh_sampling_offsets@[i];
            final(voxel_engine).load_mesh_queue@[i] == (IVec3 {
                x: (scan_pos.x + o.x) as i32,
                y: (scan_pos.y + o.y) as i32,
                z: (scan_pos.z + o.z) as i32,
            })
        },
        final(voxel_engine).world_data == old(voxel_engine).world_data,
{
    voxel_engine.load_mesh_queue.clear();
    voxel_engine.mesh_tasks.clear();
    let mut i: usize = 0;
    while i < scanner.mesh_sampling_offsets.len()
        invariant
            scanner.wf(),
            observable(scan_pos),
            i <= scanner.mesh_sampling_offsets.len(),
            voxel_engine.mesh_tasks@.len() == 0,
            voxel_engine.load_mesh_queue@.len() == i,
            forall|j: int| 0 <= j < i ==> {
                let o = #[trigger] scanner.mesh_sampling_offsets@[j];
                voxel_engine.load_mesh_queue@[j] == (IVec3 {
                    x: (scan_pos.x + o.x) as i32,
                    y: (scan_pos.y + o.y) as i32,
                    z: (scan_pos.z + o.z) as i32,
                })
            },
            voxel_engine.world_data == old(voxel_engine).world_data,
        decreases scanner.mesh_sampling_offsets.len() - i,
    {
        let o = scanner.mesh_sampling_offsets[i];
        assert(crate::scanner::in_cube(o, crate::scanner::MAX_RADIUS as int));
        voxel_engine.load_mesh_queue.push(scan_pos.add(o));
        i = i + 1;
    }
}


/// One modification at local position `l` re-meshes exactly the neighbours `d` that
/// step, on each axis, either not at all or across the border `l` lies on: up to 7 at
/// a corner, one on a face, none inside.
pub proof fn lemma_single_modification_targets(m: ChunkModification, d: IVec3)
    ensures
        border_neighbour(d, seq![m]) <==> (d != (IVec3 { x: 0, y: 0, z: 0 }) && (d.x == 0 || d.x == edge_step(m.0.x))
            && (d.y == 0 || d.y == edge_step(m.0.y)) && (d.z == 0 || d.z == edge_step(m.0.z))),
{
    let s = seq![m];
    if d != (IVec3 { x: 0, y: 0, z: 0 }) && (d.x == 0 || d.x == edge_step(m.0.x)) && (d.y == 0 || d.y == edge_step(m.0.y))
        && (d.z == 0 || d.z == edge_step(m.0.z)) {
        assert(s[0] == m);
        assert(on_border(s[0].0) && sub_step(d, s[0].0));
    }
    if border_neighbour(d, s) {
        let j = choose|j: int| 0 <= j < s.len() && on_border((#[trigger] s[j]).0) && sub_step(d, s[j].0);
        assert(s[j] == m);
    }
}

} // verus!
