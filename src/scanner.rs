use std::collections::HashSet;
use vstd::prelude::*;
use crate::chunks_refs::slot_offset;
use crate::math::{key_of, lemma_key_injective, IVec3};
use crate::sort::{sort_by_distance, sorted_by_dist};
use crate::voxel_engine::{contains_pos, remove_first, VoxelEngine};

verus! {

broadcast use vstd::seq_lib::group_to_multiset_ensures;

/// Generation tasks above which the scanner queues no more chunk data.
pub const MAX_DATA_TASKS: usize = 9;

/// Meshing tasks the scanner aims for.
pub const MAX_MESH_TASKS: usize = 3;

/// Unresolved positions examined per frame at most.
pub const MAX_SCANS: usize = 26000;

/// The largest offset a scanner samples, in chunks.
pub const MAX_RADIUS: i32 = 600;

/// Whether `p` lies in the cube of half side `h` around the origin.
pub open spec fn in_cube(p: IVec3, h: int) -> bool {
    -h <= p.x <= h && -h <= p.y <= h && -h <= p.z <= h
}

/// Whether `p` is `c` moved by one of `offs`.
pub open spec fn in_area(p: IVec3, offs: Seq<IVec3>, c: IVec3) -> bool {
    exists|i: int|
        0 <= i < offs.len() && p.x == c.x + (#[trigger] offs[i]).x && p.y == c.y + offs[i].y && p.z == c.z
            + offs[i].z
}

/// Whether all 27 chunks around `p`, `p` included, are resident.
pub open spec fn neighbourhood_resident(engine: VoxelEngine, p: IVec3) -> bool {
    forall|i: int|
        0 <= i < 27 ==> {
            let o = #[trigger] slot_offset(i);
            &&& i32::MIN <= p.x + o.x <= i32::MAX
            &&& i32::MIN <= p.y + o.y <= i32::MAX
            &&& i32::MIN <= p.z + o.z <= i32::MAX
            &&& engine.resident(IVec3 { x: (p.x + o.x) as i32, y: (p.y + o.y) as i32, z: (p.z + o.z) as i32 })
        }
}

/// Whether the observer's chunk position keeps every sampled chunk inside `i32`.
pub open spec fn observable(c: IVec3) -> bool {
    i32::MIN + MAX_RADIUS <= c.x <= i32::MAX - MAX_RADIUS && i32::MIN + MAX_RADIUS <= c.y <= i32::MAX
        - MAX_RADIUS && i32::MIN + MAX_RADIUS <= c.z <= i32::MAX - MAX_RADIUS
}

/// Whether the observer's chunk position keeps every sampled chunk inside `i32`.
pub fn is_observable(c: IVec3) -> (r: bool)
    ensures
        r == observable(c),
{
    let lo = i32::MIN + MAX_RADIUS;
    let hi = i32::MAX - MAX_RADIUS;
    lo <= c.x && c.x <= hi && lo <= c.y && c.y <= hi && lo <= c.z && c.z <= hi
}

/// Identifies which chunks need their data or mesh loaded and unloaded as an observer moves.
pub struct Scanner {
    pub prev_chunk_pos: IVec3,
    /// How many chunks are visited per frame.
    pub checks_per_frame: usize,
    pub data_offset: usize,
    pub mesh_offset: usize,
    /// Chunk positions still to be checked for loading.
    pub unresolved_data_load: Vec<IVec3>,
    pub unresolved_mesh_load: Vec<IVec3>,
    /// Chunk positions still to be checked for unloading.
    pub unresolved_data_unload: Vec<IVec3>,
    pub unresolved_mesh_unload: Vec<IVec3>,
    /// Offsets around the observer's chunk whose data is kept.
    pub data_sampling_offsets: Vec<IVec3>,
    /// Offsets around the observer's chunk whose mesh is kept.
    pub mesh_sampling_offsets: Vec<IVec3>,
}

/// Pushing `a` adds exactly `a` to what a sequence of positions holds.
pub proof fn lemma_push_contains(s: Seq<IVec3>, a: IVec3, q: IVec3)
    ensures
        s.push(a).contains(q) <==> (s.contains(q) || q == a),
{
    if s.contains(q) {
        let i = choose|i: int| 0 <= i < s.len() && s[i] == q;
        assert(s.push(a)[i] == q);
    }
    if q == a {
        assert(s.push(a)[s.len() as int] == q);
    }
    if s.push(a).contains(q) {
        let i = choose|i: int| 0 <= i < s.len() + 1 && s.push(a)[i] == q;
        if i < s.len() {
            assert(s[i] == q);
        }
    }
}

/// The offsets of the cube of half side `half`, nearest to the origin first.
pub fn make_offset_vec(half: i32) -> (r: Vec<IVec3>)
    requires
        0 <= half <= MAX_RADIUS,
    ensures
        forall|i: int| 0 <= i < r.len() ==> in_cube(#[trigger] r@[i], half as int),
        forall|p: IVec3| in_cube(p, half as int) ==> #[trigger] r@.contains(p),
        r@.no_duplicates(),
        sorted_by_dist(r@, IVec3 { x: 0, y: 0, z: 0 }),
{
    let mut offsets: Vec<IVec3> = Vec::new();
    let mut z: i32 = -half;
    while z <= half
        invariant
            0 <= half <= MAX_RADIUS,
            -half <= z <= half + 1,
            offsets@.no_duplicates(),
            forall|i: int| 0 <= i < offsets.len() ==> (#[trigger] offsets@[i]).z < z,
            forall|i: int| 0 <= i < offsets.len() ==> in_cube(#[trigger] offsets@[i], half as int),
            forall|p: IVec3| in_cube(p, half as int) && p.z < z ==> #[trigger] offsets@.contains(p),
        decreases half + 1 - z,
    {
        let mut y: i32 = -half;
        while y <= half
            invariant
                0 <= half <= MAX_RADIUS,
                -half <= z <= half,
                -half <= y <= half + 1,
                offsets@.no_duplicates(),
                forall|i: int| 0 <= i < offsets.len() ==> (#[trigger] offsets@[i]).z < z || (offsets@[i].z == z && offsets@[i].y < y),
                forall|i: int| 0 <= i < offsets.len() ==> in_cube(#[trigger] offsets@[i], half as int),
                forall|p: IVec3|
                    in_cube(p, half as int) && (p.z < z || (p.z == z && p.y < y)) ==> #[trigger] offsets@.contains(p),
            decreases half + 1 - y,
        {
            let mut x: i32 = -half;
            while x <= half
                invariant
                    0 <= half <= MAX_RADIUS,
                    -half <= z <= half,
                    -half <= y <= half,
                    -half <= x <= half + 1,
                    offsets@.no_duplicates(),
                    forall|i: int| 0 <= i < offsets.len() ==> (#[trigger] offsets@[i]).z < z || (offsets@[i].z == z && offsets@[i].y < y)
                        || (offsets@[i].z == z && offsets@[i].y == y && offsets@[i].x < x),
                    forall|i: int| 0 <= i < offsets.len() ==> in_cube(#[trigger] offsets@[i], half as int),
                    forall|p: IVec3|
                        in_cube(p, half as int) && (p.z < z || (p.z == z && p.y < y) || (p.z == z && p.y == y
                            && p.x < x)) ==> #[trigger] offsets@.contains(p),
                decreases half + 1 - x,
            {
                let ghost before = offsets@;
                let q = IVec3::new(x, y, z);
                proof {
                    if before.contains(q) {
                        let k = choose|k: int| 0 <= k < before.len() && before[k] == q;
                        assert(before[k] == q);
                    }
                    lemma_push_new(Seq::empty(), before, q);
                }
                offsets.push(q);
                proof {
                    assert forall|p: IVec3|
                        in_cube(p, half as int) && (p.z < z || (p.z == z && p.y < y) || (p.z == z && p.y
                            == y && p.x < x + 1)) implies #[trigger] offsets@.contains(p) by {
                        lemma_push_contains(before, q, p);
                    }
                }
                x = x + 1;
            }
            y = y + 1;
        }
        z = z + 1;
    }
    let sorted = sort_by_distance(offsets, IVec3::new(0, 0, 0));
    proof {
        lemma_same_multiset_no_duplicates(offsets@, sorted@);
        assert forall|i: int| 0 <= i < sorted.len() implies in_cube(#[trigger] sorted@[i], half as int) by {
            assert(sorted@.contains(sorted@[i]));
            assert(offsets@.to_multiset().count(sorted@[i]) > 0);
        }
        assert forall|p: IVec3| in_cube(p, half as int) implies #[trigger] sorted@.contains(p) by {
            assert(offsets@.contains(p));
            assert(offsets@.to_multiset().count(p) > 0);
            assert(sorted@.to_multiset().count(p) > 0);
        }
    }
    sorted
}


/// The keys of a set of positions.
fn key_set(v: &Vec<IVec3>) -> (r: HashSet<i128>)
    ensures
        forall|k: i128| r@.contains(k) <==> exists|i: int| 0 <= i < v.len() && k == key_of(#[trigger] v@[i]),
{
    let mut r: HashSet<i128> = HashSet::new();
    let mut i: usize = 0;
    while i < v.len()
        invariant
            i <= v.len(),
            forall|k: i128| r@.contains(k) <==> exists|j: int| 0 <= j < i && k == key_of(#[trigger] v@[j]),
        decreases v.len() - i,
    {
        let k = v[i].key();
        r.insert(k);
        proof {
            assert forall|kk: i128| r@.contains(kk) <==> exists|j: int| 0 <= j < i + 1 && kk == key_of(#[trigger] v@[j]) by {
                if kk == k {
                    assert(key_of(v@[i as int]) == kk);
                }
            }
        }
        i = i + 1;
    }
    r
}

/// Whether a set of keys holds the key of `p`, i.e. `v` holds `p`.
proof fn lemma_key_set_contains(v: Seq<IVec3>, keys: Set<i128>, p: IVec3)
    requires
        forall|k: i128| keys.contains(k) <==> exists|i: int| 0 <= i < v.len() && k == key_of(#[trigger] v[i]),
    ensures
        keys.contains(key_of(p)) <==> v.contains(p),
{
    if keys.contains(key_of(p)) {
        let i = choose|i: int| 0 <= i < v.len() && key_of(p) == key_of(#[trigger] v[i]);
        lemma_key_injective(p, v[i]);
    }
    if v.contains(p) {
        let i = choose|i: int| 0 <= i < v.len() && v[i] == p;
        assert(key_of(p) == key_of(v[i]));
    }
}

/// The positions of `v` that `remove` does not hold, in their order.
pub fn without(v: &Vec<IVec3>, remove: &Vec<IVec3>) -> (r: Vec<IVec3>)
    ensures
        r@ == v@.filter(|p: IVec3| !remove@.contains(p)),
        forall|p: IVec3| #[trigger] r@.contains(p) <==> (v@.contains(p) && !remove@.contains(p)),
{
    let ghost keep = |p: IVec3| !remove@.contains(p);
    let keys = key_set(remove);
    let mut r: Vec<IVec3> = Vec::new();
    let mut i: usize = 0;
    while i < v.len()
        invariant
            i <= v.len(),
            forall|k: i128| keys@.contains(k) <==> exists|j: int| 0 <= j < remove.len() && k == key_of(#[trigger] remove@[j]),
            forall|p: IVec3| #[trigger] r@.contains(p) <==> (v@.subrange(0, i as int).contains(p) && !remove@.contains(p)),
            keep == (|p: IVec3| !remove@.contains(p)),
            r@ == v@.subrange(0, i as int).filter(keep),
        decreases v.len() - i,
    {
        let p = v[i];
        let ghost before = r@;
        proof {
            lemma_key_set_contains(remove@, keys@, p);
        }
        if !keys.contains(&p.key()) {
            r.push(p);
        }
        proof {
            assert(v@.subrange(0, i + 1) =~= v@.subrange(0, i as int).push(p));
            reveal_with_fuel(Seq::filter, 1);
            assert(v@.subrange(0, i + 1).drop_last() =~= v@.subrange(0, i as int));
            assert(keep(p) == !remove@.contains(p));
            assert forall|q: IVec3| #[trigger] r@.contains(q) <==> (v@.subrange(0, i + 1).contains(q) && !remove@.contains(q)) by {
                lemma_push_contains(v@.subrange(0, i as int), p, q);
                lemma_push_contains(before, p, q);
            }
        }
        i = i + 1;
    }
    proof {
        assert(v@.subrange(0, v.len() as int) =~= v@);
    }
    r
}

/// The positions `a + o` over the offsets `o` that are not `b + o'` for any offset `o'`,
/// in the order of the offsets.
pub fn area_difference(offs: &Vec<IVec3>, a: IVec3, b: IVec3) -> (r: Vec<IVec3>)
    requires
        forall|i: int| 0 <= i < offs.len() ==> in_cube(#[trigger] offs@[i], MAX_RADIUS as int),
        offs@.no_duplicates(),
    ensures
        r@.no_duplicates(),
        forall|p: IVec3| #[trigger] r@.contains(p) <==> (in_area(p, offs@, a) && !in_area(p, offs@, b)),
{
    let keys = key_set(offs);
    let mut r: Vec<IVec3> = Vec::new();
    let mut i: usize = 0;
    while i < offs.len()
        invariant
            i <= offs.len(),
            offs@.no_duplicates(),
            r@.no_duplicates(),
            forall|j: int| 0 <= j < offs.len() ==> in_cube(#[trigger] offs@[j], MAX_RADIUS as int),
            forall|k: i128| keys@.contains(k) <==> exists|j: int| 0 <= j < offs.len() && k == key_of(#[trigger] offs@[j]),
            forall|p: IVec3| #[trigger] r@.contains(p) <==> (in_area(p, offs@.subrange(0, i as int), a) && !in_area(p, offs@, b)),
        decreases offs.len() - i,
    {
        let o = offs[i];
        let px = a.x as i64 + o.x as i64;
        let py = a.y as i64 + o.y as i64;
        let pz = a.z as i64 + o.z as i64;
        let ghost before = r@;
        let ghost fits_p = i32::MIN <= px <= i32::MAX && i32::MIN <= py <= i32::MAX && i32::MIN <= pz <= i32::MAX;
        if px >= i32::MIN as i64 && px <= i32::MAX as i64 && py >= i32::MIN as i64 && py <= i32::MAX as i64
            && pz >= i32::MIN as i64 && pz <= i32::MAX as i64 {
            let p = IVec3::new(px as i32, py as i32, pz as i32);
            let dx = px - b.x as i64;
            let dy = py - b.y as i64;
            let dz = pz - b.z as i64;
            let in_b = if dx >= -(MAX_RADIUS as i64) && dx <= MAX_RADIUS as i64 && dy >= -(MAX_RADIUS as i64) && dy
                <= MAX_RADIUS as i64 && dz >= -(MAX_RADIUS as i64) && dz <= MAX_RADIUS as i64 {
                let d = IVec3::new(dx as i32, dy as i32, dz as i32);
                proof {
                    lemma_key_set_contains(offs@, keys@, d);
                    if offs@.contains(d) {
                        let j = choose|j: int| 0 <= j < offs.len() && offs@[j] == d;
                        assert(p.x == b.x + offs@[j].x && p.y == b.y + offs@[j].y && p.z == b.z + offs@[j].z);
                    }
                    if in_area(p, offs@, b) {
                        let j = choose|j: int| 0 <= j < offs.len() && p.x == b.x + (#[trigger] offs@[j]).x && p.y == b.y + offs@[j].y && p.z == b.z + offs@[j].z;
                        assert(offs@[j] == d);
                    }
                }
                keys.contains(&d.key())
            } else {
                proof {
                    if in_area(p, offs@, b) {
                        let j = choose|j: int| 0 <= j < offs.len() && p.x == b.x + (#[trigger] offs@[j]).x && p.y == b.y + offs@[j].y && p.z == b.z + offs@[j].z;
                        assert(in_cube(offs@[j], MAX_RADIUS as int));
                    }
                }
                false
            };
            assert(in_b == in_area(p, offs@, b));
            if !in_b {
                proof {
                    if r@.contains(p) {
                        assert(in_area(p, offs@.subrange(0, i as int), a));
                        let j = choose|j: int| 0 <= j < i && p.x == a.x + (#[trigger] offs@.subrange(0, i as int)[j]).x
                            && p.y == a.y + offs@.subrange(0, i as int)[j].y && p.z == a.z + offs@.subrange(0, i as int)[j].z;
                        assert(offs@[j] == offs@[i as int]);
                    }
                    lemma_push_new(Seq::empty(), r@, p);
                }
                r.push(p);
            }
            proof {
                assert forall|q: IVec3| #[trigger] r@.contains(q) <==> (in_area(q, offs@.subrange(0, i + 1), a) && !in_area(q, offs@, b)) by {
                    lemma_push_contains(before, p, q);
                    lemma_area_step(offs@, a, i as int, q);
                }
            }
        } else {
            proof {
                assert forall|q: IVec3| #[trigger] r@.contains(q) <==> (in_area(q, offs@.subrange(0, i + 1), a) && !in_area(q, offs@, b)) by {
                    lemma_area_step(offs@, a, i as int, q);
                }
            }
        }
        i = i + 1;
    }
    proof {
        assert(offs@.subrange(0, offs.len() as int) =~= offs@);
    }
    r
}

/// Growing the offsets by one adds exactly the position that offset reaches.
proof fn lemma_area_step(offs: Seq<IVec3>, a: IVec3, i: int, q: IVec3)
    requires
        0 <= i < offs.len(),
    ensures
        in_area(q, offs.subrange(0, i + 1), a) <==> (in_area(q, offs.subrange(0, i), a) || (q.x == a.x
            + offs[i].x && q.y == a.y + offs[i].y && q.z == a.z + offs[i].z)),
{
    let s1 = offs.subrange(0, i + 1);
    let s0 = offs.subrange(0, i);
    if in_area(q, s0, a) {
        let j = choose|j: int| 0 <= j < s0.len() && q.x == a.x + (#[trigger] s0[j]).x && q.y == a.y + s0[j].y && q.z == a.z + s0[j].z;
        assert(s1[j] == s0[j]);
    }
    if q.x == a.x + offs[i].x && q.y == a.y + offs[i].y && q.z == a.z + offs[i].z {
        assert(s1[i] == offs[i]);
    }
    if in_area(q, s1, a) {
        let j = choose|j: int| 0 <= j < s1.len() && q.x == a.x + (#[trigger] s1[j]).x && q.y == a.y + s1[j].y && q.z == a.z + s1[j].z;
        if j < i {
            assert(s0[j] == s1[j]);
        }
    }
}


pub proof fn lemma_concat_contains(a: Seq<IVec3>, b: Seq<IVec3>, p: IVec3)
    ensures
        (a + b).contains(p) <==> (a.contains(p) || b.contains(p)),
{
    if a.contains(p) {
        let i = choose|i: int| 0 <= i < a.len() && a[i] == p;
        assert((a + b)[i] == p);
    }
    if b.contains(p) {
        let i = choose|i: int| 0 <= i < b.len() && b[i] == p;
        assert((a + b)[a.len() + i] == p);
    }
    if (a + b).contains(p) {
        let i = choose|i: int| 0 <= i < a.len() + b.len() && (a + b)[i] == p;
        if i < a.len() {
            assert(a[i] == p);
        } else {
            assert(b[i - a.len()] == p);
        }
    }
}

/// Joining two duplicate-free sequences with nothing in common leaves no duplicates.
pub proof fn lemma_concat_no_duplicates(a: Seq<IVec3>, b: Seq<IVec3>)
    requires
        a.no_duplicates(),
        b.no_duplicates(),
        forall|p: IVec3| #[trigger] b.contains(p) ==> !a.contains(p),
    ensures
        (a + b).no_duplicates(),
{
    let s = a + b;
    assert forall|i: int, j: int| 0 <= i < s.len() && 0 <= j < s.len() && i != j implies s[i] != s[j] by {
        if i < a.len() && j >= a.len() {
            assert(b.contains(s[j]));
            assert(a.contains(s[i]));
        } else if j < a.len() && i >= a.len() {
            assert(b.contains(s[i]));
            assert(a.contains(s[j]));
        } else if i >= a.len() {
            assert(s[i] == b[i - a.len()] && s[j] == b[j - a.len()]);
        }
    }
}

proof fn lemma_filter_congruent(s: Seq<IVec3>, f: spec_fn(IVec3) -> bool, g: spec_fn(IVec3) -> bool)
    requires
        forall|x: IVec3| #[trigger] f(x) == g(x),
    ensures
        s.filter(f) == s.filter(g),
    decreases s.len(),
{
    reveal_with_fuel(Seq::filter, 1);
    if s.len() > 0 {
        lemma_filter_congruent(s.drop_last(), f, g);
        assert(f(s.last()) == g(s.last()));
    }
}

proof fn lemma_same_multiset_no_duplicates(a: Seq<IVec3>, b: Seq<IVec3>)
    requires
        a.to_multiset() == b.to_multiset(),
        a.no_duplicates(),
    ensures
        b.no_duplicates(),
{
    a.lemma_multiset_has_no_duplicates();
    b.lemma_multiset_has_no_duplicates_conv();
}

proof fn lemma_same_multiset_contains(a: Seq<IVec3>, b: Seq<IVec3>, p: IVec3)
    requires
        a.to_multiset() == b.to_multiset(),
    ensures
        a.contains(p) <==> b.contains(p),
{
    assert(a.contains(p) <==> a.to_multiset().count(p) > 0);
    assert(b.contains(p) <==> b.to_multiset().count(p) > 0);
}

/// Appends `extra` to `v` and returns `v` without the positions of `remove`, sorted
/// by distance to `c`.
fn merge_pending(v: &Vec<IVec3>, extra: &Vec<IVec3>, remove: &Vec<IVec3>, c: IVec3) -> (r: Vec<IVec3>)
    ensures
        r@.to_multiset() == (v@.filter(|p: IVec3| !remove@.contains(p)) + extra@.filter(|p: IVec3| !remove@.contains(p))).to_multiset(),
        forall|p: IVec3| #[trigger] r@.contains(p) <==> ((v@.contains(p) || extra@.contains(p)) && !remove@.contains(p)),
        sorted_by_dist(r@, c),
{
    let mut all = without(v, remove);
    let mut more = without(extra, remove);
    let ghost a0 = all@;
    let ghost e0 = more@;
    all.append(&mut more);
    let sorted = sort_by_distance(all, c);
    proof {
        assert forall|p: IVec3| #[trigger] sorted@.contains(p) <==> ((v@.contains(p) || extra@.contains(p)) && !remove@.contains(p)) by {
            lemma_same_multiset_contains(sorted@, a0 + e0, p);
            lemma_concat_contains(a0, e0, p);
        }
    }
    sorted
}

impl Scanner {
    /// Offsets stay within the radius that keeps positions inside `i32`.
    pub open spec fn wf(&self) -> bool {
        &&& forall|i: int|
            0 <= i < self.data_sampling_offsets.len() ==> in_cube(
                #[trigger] self.data_sampling_offsets@[i],
                MAX_RADIUS as int,
            )
        &&& forall|i: int|
            0 <= i < self.mesh_sampling_offsets.len() ==> in_cube(
                #[trigger] self.mesh_sampling_offsets@[i],
                MAX_RADIUS as int,
            )
        &&& self.data_sampling_offsets@.no_duplicates()
        &&& self.mesh_sampling_offsets@.no_duplicates()
    }

    /// A scanner that keeps chunk data within `distance + 1` chunks and meshes within
    /// `distance` chunks of the observer; it has not seen the observer yet.
    pub fn new(distance: i32) -> (r: Scanner)
        requires
            0 <= distance < MAX_RADIUS,
        ensures
            r.wf(),
            r.prev_chunk_pos == (IVec3 { x: i32::MAX, y: i32::MAX, z: i32::MAX }),
            r.unresolved_data_load@.len() == 0,
            r.unresolved_mesh_load@.len() == 0,
            r.unresolved_data_unload@.len() == 0,
            r.unresolved_mesh_unload@.len() == 0,
            forall|p: IVec3| #[trigger] r.data_sampling_offsets@.contains(p) <==> in_cube(p, distance + 1),
            forall|p: IVec3| #[trigger] r.mesh_sampling_offsets@.contains(p) <==> in_cube(p, distance as int),
            sorted_by_dist(r.data_sampling_offsets@, IVec3 { x: 0, y: 0, z: 0 }),
            sorted_by_dist(r.mesh_sampling_offsets@, IVec3 { x: 0, y: 0, z: 0 }),
    {
        let data_sampling_offsets = make_offset_vec(distance + 1);
        let mesh_sampling_offsets = make_offset_vec(distance);
        Scanner {
            checks_per_frame: 32 * 32 * 32,
            data_offset: 0,
            data_sampling_offsets,
            mesh_sampling_offsets,
            mesh_offset: 0,
            unresolved_data_load: Vec::new(),
            prev_chunk_pos: IVec3::new(i32::MAX, i32::MAX, i32::MAX),
            unresolved_mesh_load: Vec::new(),
            unresolved_data_unload: Vec::new(),
            unresolved_mesh_unload: Vec::new(),
        }
    }

    /// Records the observer's chunk. When it changed, queues the chunks that entered the
    /// sampled areas for loading and those that left them for unloading, drops pending
    /// loads that are now to be unloaded, and orders pending loads nearest first.
    pub fn detect_move(&mut self, voxel_engine: &mut VoxelEngine, chunk_pos: IVec3)
        requires
            old(self).wf(),
        ensures
            final(self).wf(),
            final(self).prev_chunk_pos == chunk_pos,
            final(self).data_sampling_offsets == old(self).data_sampling_offsets,
            final(self).mesh_sampling_offsets == old(self).mesh_sampling_offsets,
            chunk_pos == old(self).prev_chunk_pos ==> *final(self) == *old(self) && *final(voxel_engine)
                == *old(voxel_engine),
            chunk_pos != old(self).prev_chunk_pos ==> {
                let prev = old(self).prev_chunk_pos;
                let data = old(self).data_sampling_offsets@;
                let mesh = old(self).mesh_sampling_offsets@;
                &&& forall|p: IVec3| #[trigger] final(self).unresolved_data_unload@.contains(p) <==> (
                    (old(self).unresolved_data_unload@.contains(p) && !(in_area(p, data, chunk_pos) && !in_area(p, data, prev)))
                    || (in_area(p, data, prev) && !in_area(p, data, chunk_pos)))
                &&& forall|p: IVec3| #[trigger] final(self).unresolved_mesh_unload@.contains(p) <==> (
                    (old(self).unresolved_mesh_unload@.contains(p) && !(in_area(p, mesh, chunk_pos) && !in_area(p, mesh, prev)))
                    || (in_area(p, mesh, prev) && !in_area(p, mesh, chunk_pos)))
                &&& forall|p: IVec3| in_area(p, data, chunk_pos) && !in_area(p, data, prev) ==> #[trigger] final(self).unresolved_data_load@.contains(p)
                &&& forall|p: IVec3| in_area(p, mesh, chunk_pos) && !in_area(p, mesh, prev) ==> #[trigger] final(self).unresolved_mesh_load@.contains(p)
                &&& forall|p: IVec3| #[trigger] final(self).unresolved_data_load@.contains(p) ==> !final(self).unresolved_data_unload@.contains(p)
                &&& forall|p: IVec3| #[trigger] final(self).unresolved_mesh_load@.contains(p) ==> !final(self).unresolved_mesh_unload@.contains(p)
                &&& forall|p: IVec3| #[trigger] final(self).unresolved_data_load@.contains(p) <==> (
                    (old(self).unresolved_data_load@.contains(p) || (in_area(p, data, chunk_pos) && !in_area(p, data, prev)))
                    && !final(self).unresolved_data_unload@.contains(p))
                &&& forall|p: IVec3| #[trigger] final(self).unresolved_mesh_load@.contains(p) <==> (
                    (old(self).unresolved_mesh_load@.contains(p) || (in_area(p, mesh, chunk_pos) && !in_area(p, mesh, prev)))
                    && !final(self).unresolved_mesh_unload@.contains(p))
                &&& sorted_by_dist(final(self).unresolved_data_load@, chunk_pos)
                &&& sorted_by_dist(final(self).unresolved_mesh_load@, chunk_pos)
                &&& forall|p: IVec3| #[trigger] final(voxel_engine).load_data_queue@.contains(p) <==> (
                    old(voxel_engine).load_data_queue@.contains(p) && !final(self).unresolved_data_unload@.contains(p))
                &&& forall|p: IVec3| #[trigger] final(voxel_engine).load_mesh_queue@.contains(p) <==> (
                    old(voxel_engine).load_mesh_queue@.contains(p) && !final(self).unresolved_mesh_unload@.contains(p))
                &&& exists|du: Seq<IVec3>|
                    #[trigger] du.no_duplicates() && final(self).unresolved_data_unload@ == old(self).unresolved_data_unload@.filter(
                        |p: IVec3| !(in_area(p, data, chunk_pos) && !in_area(p, data, prev)),
                    ) + du
                        && forall|p: IVec3| du.contains(p) <==> (in_area(p, data, prev) && !in_area(p, data, chunk_pos))
                &&& exists|mu: Seq<IVec3>|
                    #[trigger] mu.no_duplicates() && final(self).unresolved_mesh_unload@ == old(self).unresolved_mesh_unload@.filter(
                        |p: IVec3| !(in_area(p, mesh, chunk_pos) && !in_area(p, mesh, prev)),
                    ) + mu
                        && forall|p: IVec3| mu.contains(p) <==> (in_area(p, mesh, prev) && !in_area(p, mesh, chunk_pos))
                &&& exists|dl: Seq<IVec3>|
                    #[trigger] dl.no_duplicates() && (forall|p: IVec3| dl.contains(p) <==> (in_area(p, data, chunk_pos) && !in_area(p, data, prev)))
                        && final(self).unresolved_data_load@.to_multiset() == (old(self).unresolved_data_load@.filter(
                        |p: IVec3| !final(self).unresolved_data_unload@.contains(p),
                    ) + dl.filter(|p: IVec3| !final(self).unresolved_data_unload@.contains(p))).to_multiset()
                &&& exists|ml: Seq<IVec3>|
                    #[trigger] ml.no_duplicates() && (forall|p: IVec3| ml.contains(p) <==> (in_area(p, mesh, chunk_pos) && !in_area(p, mesh, prev)))
                        && final(self).unresolved_mesh_load@.to_multiset() == (old(self).unresolved_mesh_load@.filter(
                        |p: IVec3| !final(self).unresolved_mesh_unload@.contains(p),
                    ) + ml.filter(|p: IVec3| !final(self).unresolved_mesh_unload@.contains(p))).to_multiset()
                &&& final(voxel_engine).world_data == old(voxel_engine).world_data
                &&& final(voxel_engine).unload_data_queue == old(voxel_engine).unload_data_queue
                &&& final(voxel_engine).unload_mesh_queue == old(voxel_engine).unload_mesh_queue
            },
    {
        let previous = self.prev_chunk_pos;
        if chunk_pos == previous {
            return;
        }
        self.prev_chunk_pos = chunk_pos;
        let data_load = area_difference(&self.data_sampling_offsets, chunk_pos, previous);
        let data_unload = area_difference(&self.data_sampling_offsets, previous, chunk_pos);
        let mesh_load = area_difference(&self.mesh_sampling_offsets, chunk_pos, previous);
        let mut mesh_unload = area_difference(&self.mesh_sampling_offsets, previous, chunk_pos);
        let mut data_unload = data_unload;
        let ghost data = self.data_sampling_offsets@;
        let ghost mesh = self.mesh_sampling_offsets@;
        // a chunk that enters an area again is no longer to be unloaded
        let kept_data_unload = without(&self.unresolved_data_unload, &data_load);
        let kept_mesh_unload = without(&self.unresolved_mesh_unload, &mesh_load);
        proof {
            lemma_filter_congruent(
                self.unresolved_data_unload@,
                |p: IVec3| !data_load@.contains(p),
                |p: IVec3| !(in_area(p, data, chunk_pos) && !in_area(p, data, previous)),
            );
            lemma_filter_congruent(
                self.unresolved_mesh_unload@,
                |p: IVec3| !mesh_load@.contains(p),
                |p: IVec3| !(in_area(p, mesh, chunk_pos) && !in_area(p, mesh, previous)),
            );
        }
        self.unresolved_data_unload = kept_data_unload;
        self.unresolved_mesh_unload = kept_mesh_unload;
        let ghost du0 = self.unresolved_data_unload@;
        let ghost mu0 = self.unresolved_mesh_unload@;
        let ghost du = data_unload@;
        let ghost mu = mesh_unload@;
        self.unresolved_data_unload.append(&mut data_unload);
        self.unresolved_mesh_unload.append(&mut mesh_unload);
        proof {
            assert forall|p: IVec3| #[trigger] self.unresolved_data_unload@.contains(p) <==> (du0.contains(p) || du.contains(p)) by {
                lemma_concat_contains(du0, du, p);
            }
            assert forall|p: IVec3| #[trigger] self.unresolved_mesh_unload@.contains(p) <==> (mu0.contains(p) || mu.contains(p)) by {
                lemma_concat_contains(mu0, mu, p);
            }
        }
        voxel_engine.load_mesh_queue = without(&voxel_engine.load_mesh_queue, &self.unresolved_mesh_unload);
        voxel_engine.load_data_queue = without(&voxel_engine.load_data_queue, &self.unresolved_data_unload);
        let ghost ml0 = self.unresolved_mesh_load@;
        let ghost dl0 = self.unresolved_data_load@;
        self.unresolved_mesh_load = merge_pending(&self.unresolved_mesh_load, &mesh_load, &self.unresolved_mesh_unload, chunk_pos);
        self.unresolved_data_load = merge_pending(&self.unresolved_data_load, &data_load, &self.unresolved_data_unload, chunk_pos);
        proof {
            assert(self.unresolved_data_unload@ == du0 + du);
            assert(self.unresolved_mesh_unload@ == mu0 + mu);
            assert(du.no_duplicates() && mu.no_duplicates() && data_load@.no_duplicates() && mesh_load@.no_duplicates());
        }
    }
}


/// Whether the 27 chunks around `p` are all resident.
pub fn neighbourhood_ready(voxel_engine: &VoxelEngine, p: IVec3) -> (r: bool)
    ensures
        r == neighbourhood_resident(*voxel_engine, p),
{
    let mut i: i32 = 0;
    while i < 27
        invariant
            0 <= i <= 27,
            forall|j: int| 0 <= j < i ==> {
                let o = #[trigger] slot_offset(j);
                &&& i32::MIN <= p.x + o.x <= i32::MAX
                &&& i32::MIN <= p.y + o.y <= i32::MAX
                &&& i32::MIN <= p.z + o.z <= i32::MAX
                &&& voxel_engine.resident(IVec3 { x: (p.x + o.x) as i32, y: (p.y + o.y) as i32, z: (p.z + o.z) as i32 })
            },
        decreases 27 - i,
    {
        let o = crate::utils::index_to_ivec3_bounds(i, 3);
        let ghost so = slot_offset(i as int);
        assert(o.x - 1 == so.x && o.y - 1 == so.y && o.z - 1 == so.z);
        let x = p.x as i64 + o.x as i64 - 1;
        let y = p.y as i64 + o.y as i64 - 1;
        let z = p.z as i64 + o.z as i64 - 1;
        if x < i32::MIN as i64 || x > i32::MAX as i64 || y < i32::MIN as i64 || y > i32::MAX as i64 || z
            < i32::MIN as i64 || z > i32::MAX as i64 {
            return false;
        }
        let q = IVec3::new(x as i32, y as i32, z as i32);
        if !voxel_engine.world_data.contains_key(&q.key()) {
            return false;
        }
        i = i + 1;
    }
    true
}

/// Whether `u1` is `u0` with one occurrence of each position of `pushed` that `u0`
/// holds taken out: queuing a load cancels its pending unload.
pub open spec fn aborts_unloads(u0: Seq<IVec3>, u1: Seq<IVec3>, pushed: Seq<IVec3>) -> bool {
    forall|p: IVec3|
        #[trigger] u1.to_multiset().count(p) == if pushed.contains(p) && u0.to_multiset().count(p) > 0 {
            (u0.to_multiset().count(p) - 1) as nat
        } else {
            u0.to_multiset().count(p)
        }
}

/// Whether `q1` is `q0` with `pushed` appended, each pushed position new to `q0` and
/// pushed once.
pub open spec fn appends_new(q0: Seq<IVec3>, q1: Seq<IVec3>, pushed: Seq<IVec3>) -> bool {
    &&& q1 == q0 + pushed
    &&& pushed.no_duplicates()
    &&& forall|p: IVec3| #[trigger] pushed.contains(p) ==> !q0.contains(p)
}

pub proof fn lemma_push_new(q0: Seq<IVec3>, pushed: Seq<IVec3>, p: IVec3)
    requires
        pushed.no_duplicates(),
        forall|x: IVec3| #[trigger] pushed.contains(x) ==> !q0.contains(x),
        !pushed.contains(p),
        !q0.contains(p),
    ensures
        pushed.push(p).no_duplicates(),
        forall|x: IVec3| #[trigger] pushed.push(p).contains(x) ==> !q0.contains(x),
        q0 + pushed.push(p) == (q0 + pushed).push(p),
{
    let s = pushed.push(p);
    assert forall|i: int, j: int| 0 <= i < s.len() && 0 <= j < s.len() && i != j implies s[i] != s[j] by {
        if i == pushed.len() {
            assert(pushed.contains(s[j]));
        } else if j == pushed.len() {
            assert(pushed.contains(s[i]));
        }
    }
    assert forall|x: IVec3| #[trigger] s.contains(x) implies !q0.contains(x) by {
        lemma_push_contains(pushed, p, x);
    }
    assert(q0 + pushed.push(p) =~= (q0 + pushed).push(p));
}

/// Taking the first occurrence of `p` out of an unload queue, once `p` is pushed.
proof fn lemma_abort_step(u0: Seq<IVec3>, u: Seq<IVec3>, u1: Seq<IVec3>, pushed: Seq<IVec3>, p: IVec3)
    requires
        aborts_unloads(u0, u, pushed),
        !pushed.contains(p),
        !u.contains(p) ==> u1 == u,
        u.contains(p) ==> exists|i: int| 0 <= i < u.len() && u[i] == p && u1 == u.remove(i),
    ensures
        aborts_unloads(u0, u1, pushed.push(p)),
{
    if u.contains(p) {
        let i = choose|i: int| 0 <= i < u.len() && u[i] == p && u1 == u.remove(i);
        assert(u1.to_multiset() == u.to_multiset().remove(p));
    }
    assert forall|q: IVec3| #[trigger] u1.to_multiset().count(q) == if pushed.push(p).contains(q) && u0.to_multiset().count(q) > 0 {
        (u0.to_multiset().count(q) - 1) as nat
    } else {
        u0.to_multiset().count(q)
    } by {
        lemma_push_contains(pushed, p, q);
        assert(u.to_multiset().count(q) == if pushed.contains(q) && u0.to_multiset().count(q) > 0 {
            (u0.to_multiset().count(q) - 1) as nat
        } else {
            u0.to_multiset().count(q)
        });
        assert(u.contains(q) <==> u.to_multiset().count(q) > 0);
    }
}

/// Moves up to `MAX_SCANS` pending data loads to the engine's load queue, skipping
/// chunks that are resident, queued or being generated; a queued chunk's pending
/// unload is dropped. Nothing happens while the engine runs `MAX_DATA_TASKS` tasks.
pub fn scan_data(scanner: &mut Scanner, voxel_engine: &mut VoxelEngine)
    ensures
        old(voxel_engine).data_tasks.len() >= MAX_DATA_TASKS ==> *final(scanner) == *old(scanner)
            && *final(voxel_engine) == *old(voxel_engine),
        old(voxel_engine).data_tasks.len() < MAX_DATA_TASKS ==> {
            let l = old(scanner).unresolved_data_load@;
            let n = if l.len() < MAX_SCANS { l.len() as int } else { MAX_SCANS as int };
            let drained = l.subrange(0, n);
            &&& final(scanner).unresolved_data_load@ == l.subrange(n, l.len() as int)
            &&& forall|p: IVec3| #[trigger] final(voxel_engine).load_data_queue@.contains(p) <==> (
                old(voxel_engine).load_data_queue@.contains(p) || (drained.contains(p) && !old(voxel_engine).resident(p)
                && !old(voxel_engine).data_tasks@.contains(p)))
            &&& exists|pushed: Seq<IVec3>|
                appends_new(old(voxel_engine).load_data_queue@, final(voxel_engine).load_data_queue@, pushed)
                    && #[trigger] aborts_unloads(old(voxel_engine).unload_data_queue@, final(voxel_engine).unload_data_queue@, pushed)
            &&& final(voxel_engine).world_data == old(voxel_engine).world_data
            &&& final(voxel_engine).data_tasks == old(voxel_engine).data_tasks
            &&& final(scanner).unresolved_data_unload == old(scanner).unresolved_data_unload
            &&& final(scanner).data_sampling_offsets == old(scanner).data_sampling_offsets
            &&& final(scanner).mesh_sampling_offsets == old(scanner).mesh_sampling_offsets
        },
{
    if voxel_engine.data_tasks.len() >= MAX_DATA_TASKS {
        return;
    }
    let l = scanner.unresolved_data_load.len();
    let n = if l < MAX_SCANS { l } else { MAX_SCANS };
    let ghost ldq0 = voxel_engine.load_data_queue@;
    let ghost udq0 = voxel_engine.unload_data_queue@;
    let rest = scanner.unresolved_data_load.split_off(n);
    let ghost drained = scanner.unresolved_data_load@;
    let ghost mut pushed: Seq<IVec3> = Seq::empty();
    assert(ldq0 + pushed =~= ldq0);
    let mut i: usize = 0;
    while i < n
        invariant
            n == drained.len(),
            scanner.unresolved_data_load@ == drained,
            i <= n,
            forall|p: IVec3| #[trigger] voxel_engine.load_data_queue@.contains(p) <==> (ldq0.contains(p) || (
                drained.subrange(0, i as int).contains(p) && !voxel_engine.resident(p) && !voxel_engine.data_tasks@.contains(p))),
            appends_new(ldq0, voxel_engine.load_data_queue@, pushed),
            aborts_unloads(udq0, voxel_engine.unload_data_queue@, pushed),
            voxel_engine.world_data == old(voxel_engine).world_data,
            voxel_engine.data_tasks == old(voxel_engine).data_tasks,
        decreases n - i,
    {
        let chunk_pos = scanner.unresolved_data_load[i];
        let ghost ldq1 = voxel_engine.load_data_queue@;
        let ghost udq1 = voxel_engine.unload_data_queue@;
        let is_busy = voxel_engine.world_data.contains_key(&chunk_pos.key())
            || contains_pos(&voxel_engine.load_data_queue, chunk_pos)
            || contains_pos(&voxel_engine.data_tasks, chunk_pos);
        if !is_busy {
            proof {
                lemma_concat_contains(ldq0, pushed, chunk_pos);
                lemma_push_new(ldq0, pushed, chunk_pos);
            }
            voxel_engine.load_data_queue.push(chunk_pos);
            remove_first(&mut voxel_engine.unload_data_queue, chunk_pos);
            proof {
                lemma_abort_step(udq0, udq1, voxel_engine.unload_data_queue@, pushed, chunk_pos);
                pushed = pushed.push(chunk_pos);
            }
        }
        proof {
            assert(drained.subrange(0, i + 1) =~= drained.subrange(0, i as int).push(chunk_pos));
            assert forall|p: IVec3| #[trigger] voxel_engine.load_data_queue@.contains(p) <==> (ldq0.contains(p) || (
                drained.subrange(0, i + 1).contains(p) && !voxel_engine.resident(p) && !voxel_engine.data_tasks@.contains(p))) by {
                lemma_push_contains(drained.subrange(0, i as int), chunk_pos, p);
                if !is_busy {
                    lemma_push_contains(ldq1, chunk_pos, p);
                }
            }
        }
        i = i + 1;
    }
    proof {
        assert(drained.subrange(0, n as int) =~= drained);
    }
    scanner.unresolved_data_load = rest;
}

/// Queues for unloading each pending data unload whose chunk is resident.
pub fn scan_data_unload(scanner: &mut Scanner, voxel_engine: &mut VoxelEngine)
    ensures
        final(scanner).unresolved_data_unload@.len() == 0,
        forall|p: IVec3| #[trigger] final(voxel_engine).unload_data_queue@.contains(p) <==> (old(voxel_engine).unload_data_queue@.contains(p)
            || (old(scanner).unresolved_data_unload@.contains(p) && old(voxel_engine).resident(p))),
        final(voxel_engine).world_data == old(voxel_engine).world_data,
        final(voxel_engine).load_data_queue == old(voxel_engine).load_data_queue,
        final(scanner).unresolved_data_load == old(scanner).unresolved_data_load,
        final(scanner).data_sampling_offsets == old(scanner).data_sampling_offsets,
        final(scanner).mesh_sampling_offsets == old(scanner).mesh_sampling_offsets,
{
    let ghost udq0 = voxel_engine.unload_data_queue@;
    let ghost pending = scanner.unresolved_data_unload@;
    let mut i: usize = 0;
    while i < scanner.unresolved_data_unload.len()
        invariant
            scanner.unresolved_data_unload@ == pending,
            i <= pending.len(),
            forall|p: IVec3| #[trigger] voxel_engine.unload_data_queue@.contains(p) <==> (udq0.contains(p) || (
                pending.subrange(0, i as int).contains(p) && voxel_engine.resident(p))),
            voxel_engine.world_data == old(voxel_engine).world_data,
            voxel_engine.load_data_queue == old(voxel_engine).load_data_queue,
        decreases pending.len() - i,
    {
        let chunk_pos = scanner.unresolved_data_unload[i];
        let ghost before = voxel_engine.unload_data_queue@;
        if voxel_engine.world_data.contains_key(&chunk_pos.key()) {
            voxel_engine.unload_data_queue.push(chunk_pos);
        }
        proof {
            assert(pending.subrange(0, i + 1) =~= pending.subrange(0, i as int).push(chunk_pos));
            assert forall|p: IVec3| #[trigger] voxel_engine.unload_data_queue@.contains(p) <==> (udq0.contains(p) || (
                pending.subrange(0, i + 1).contains(p) && voxel_engine.resident(p))) by {
                lemma_push_contains(pending.subrange(0, i as int), chunk_pos, p);
                lemma_push_contains(before, chunk_pos, p);
            }
        }
        i = i + 1;
    }
    proof {
        assert(pending.subrange(0, pending.len() as int) =~= pending);
    }
    scanner.unresolved_data_unload = Vec::new();
}

/// Queues every pending mesh unload.
pub fn scan_mesh_unload(scanner: &mut Scanner, voxel_engine: &mut VoxelEngine)
    ensures
        final(scanner).unresolved_mesh_unload@.len() == 0,
        final(voxel_engine).unload_mesh_queue@ == old(voxel_engine).unload_mesh_queue@ + old(scanner).unresolved_mesh_unload@,
        final(voxel_engine).world_data == old(voxel_engine).world_data,
        final(voxel_engine).load_mesh_queue == old(voxel_engine).load_mesh_queue,
        final(scanner).unresolved_mesh_load == old(scanner).unresolved_mesh_load,
        final(scanner).data_sampling_offsets == old(scanner).data_sampling_offsets,
        final(scanner).mesh_sampling_offsets == old(scanner).mesh_sampling_offsets,
{
    voxel_engine.unload_mesh_queue.append(&mut scanner.unresolved_mesh_unload);
}

/// Moves up to `MAX_SCANS` pending mesh loads to the engine's mesh queue once all 27
/// chunks around them are resident, dropping their pending unload; the others wait
/// for a later frame.
pub fn scan_mesh(scanner: &mut Scanner, voxel_engine: &mut VoxelEngine)
    ensures
        ({
            let l = old(scanner).unresolved_mesh_load@;
            let n = if l.len() < MAX_SCANS { l.len() as int } else { MAX_SCANS as int };
            let drained = l.subrange(0, n);
            let rest = l.subrange(n, l.len() as int);
            &&& forall|p: IVec3| #[trigger] final(voxel_engine).load_mesh_queue@.contains(p) <==> (
                old(voxel_engine).load_mesh_queue@.contains(p) || (drained.contains(p) && neighbourhood_resident(*old(voxel_engine), p)))
            &&& forall|p: IVec3| #[trigger] final(scanner).unresolved_mesh_load@.contains(p) ==> (rest.contains(p) || drained.contains(p))
            &&& forall|p: IVec3| (rest.contains(p) || (drained.contains(p) && !neighbourhood_resident(*old(voxel_engine), p)))
                ==> #[trigger] final(scanner).unresolved_mesh_load@.contains(p)
            &&& exists|pushed: Seq<IVec3>, retries: Seq<IVec3>|
                appends_new(old(voxel_engine).load_mesh_queue@, final(voxel_engine).load_mesh_queue@, pushed)
                    && #[trigger] aborts_unloads(old(voxel_engine).unload_mesh_queue@, final(voxel_engine).unload_mesh_queue@, pushed)
                    && final(scanner).unresolved_mesh_load@ == rest + retries
                    && (#[trigger] retries.to_multiset()).add(pushed.to_multiset()) == drained.to_multiset()
            &&& final(voxel_engine).world_data == old(voxel_engine).world_data
            &&& final(scanner).unresolved_mesh_unload == old(scanner).unresolved_mesh_unload
            &&& final(scanner).data_sampling_offsets == old(scanner).data_sampling_offsets
            &&& final(scanner).mesh_sampling_offsets == old(scanner).mesh_sampling_offsets
        }),
{
    let l = scanner.unresolved_mesh_load.len();
    let n = if l < MAX_SCANS { l } else { MAX_SCANS };
    let ghost lmq0 = voxel_engine.load_mesh_queue@;
    let ghost umq0 = voxel_engine.unload_mesh_queue@;
    let mut rest = scanner.unresolved_mesh_load.split_off(n);
    let ghost rest0 = rest@;
    let ghost drained = scanner.unresolved_mesh_load@;
    let mut retries: Vec<IVec3> = Vec::new();
    let ghost mut pushed: Seq<IVec3> = Seq::empty();
    assert(lmq0 + pushed =~= lmq0);
    assert(drained.subrange(0, 0) =~= Seq::<IVec3>::empty());
    assert(retries@.to_multiset().add(pushed.to_multiset()) =~= drained.subrange(0, 0).to_multiset());
    let mut i: usize = 0;
    while i < n
        invariant
            n == drained.len(),
            scanner.unresolved_mesh_load@ == drained,
            i <= n,
            forall|p: IVec3| #[trigger] voxel_engine.load_mesh_queue@.contains(p) <==> (lmq0.contains(p) || (
                drained.subrange(0, i as int).contains(p) && neighbourhood_resident(*voxel_engine, p))),
            forall|p: IVec3| #[trigger] retries@.contains(p) ==> drained.subrange(0, i as int).contains(p),
            forall|p: IVec3| drained.subrange(0, i as int).contains(p) && !neighbourhood_resident(*voxel_engine, p) ==> #[trigger] retries@.contains(p),
            appends_new(lmq0, voxel_engine.load_mesh_queue@, pushed),
            aborts_unloads(umq0, voxel_engine.unload_mesh_queue@, pushed),
            retries@.to_multiset().add(pushed.to_multiset()) == drained.subrange(0, i as int).to_multiset(),
            voxel_engine.world_data == old(voxel_engine).world_data,
        decreases n - i,
    {
        let chunk_pos = scanner.unresolved_mesh_load[i];
        let ghost lmq1 = voxel_engine.load_mesh_queue@;
        let ghost umq1 = voxel_engine.unload_mesh_queue@;
        let ghost r1 = retries@;
        let queued = contains_pos(&voxel_engine.load_mesh_queue, chunk_pos);
        let ready = neighbourhood_ready(voxel_engine, chunk_pos);
        let busy = queued || !ready;
        let ghost pu0 = pushed;
        if !busy {
            proof {
                lemma_concat_contains(lmq0, pushed, chunk_pos);
                lemma_push_new(lmq0, pushed, chunk_pos);
            }
            voxel_engine.load_mesh_queue.push(chunk_pos);
            remove_first(&mut voxel_engine.unload_mesh_queue, chunk_pos);
            proof {
                lemma_abort_step(umq0, umq1, voxel_engine.unload_mesh_queue@, pushed, chunk_pos);
                pushed = pushed.push(chunk_pos);
            }
        } else {
            retries.push(chunk_pos);
        }
        proof {
            let d1 = drained.subrange(0, i + 1);
            assert(d1 =~= drained.subrange(0, i as int).push(chunk_pos));
            assert(d1.to_multiset() =~= drained.subrange(0, i as int).to_multiset().insert(chunk_pos));
            if busy {
                assert(retries@.to_multiset() =~= r1.to_multiset().insert(chunk_pos));
                assert(retries@.to_multiset().add(pushed.to_multiset()) =~= d1.to_multiset());
            } else {
                assert(pushed.to_multiset() =~= pu0.to_multiset().insert(chunk_pos));
                assert(retries@.to_multiset().add(pushed.to_multiset()) =~= d1.to_multiset());
            }
        }
        proof {
            assert(neighbourhood_resident(*voxel_engine, chunk_pos) == neighbourhood_resident(*old(voxel_engine), chunk_pos));
            assert(drained.subrange(0, i + 1) =~= drained.subrange(0, i as int).push(chunk_pos));
            assert forall|p: IVec3| #[trigger] voxel_engine.load_mesh_queue@.contains(p) <==> (lmq0.contains(p) || (
                drained.subrange(0, i + 1).contains(p) && neighbourhood_resident(*voxel_engine, p))) by {
                lemma_push_contains(drained.subrange(0, i as int), chunk_pos, p);
                if !busy {
                    lemma_push_contains(lmq1, chunk_pos, p);
                }
            }
            assert forall|p: IVec3| #[trigger] retries@.contains(p) implies drained.subrange(0, i + 1).contains(p) by {
                lemma_push_contains(drained.subrange(0, i as int), chunk_pos, p);
                if busy {
                    lemma_push_contains(r1, chunk_pos, p);
                }
            }
            assert forall|p: IVec3| drained.subrange(0, i + 1).contains(p) && !neighbourhood_resident(*voxel_engine, p) implies #[trigger] retries@.contains(p) by {
                lemma_push_contains(drained.subrange(0, i as int), chunk_pos, p);
                if busy {
                    lemma_push_contains(r1, chunk_pos, p);
                }
            }
        }
        i = i + 1;
    }
    let ghost r1 = retries@;
    rest.append(&mut retries);
    proof {
        assert(drained.subrange(0, n as int) =~= drained);
        assert(aborts_unloads(umq0, voxel_engine.unload_mesh_queue@, pushed));
        assert forall|p: IVec3| #[trigger] rest@.contains(p) <==> (rest0.contains(p) || r1.contains(p)) by {
            lemma_concat_contains(rest0, r1, p);
        }
    }
    scanner.unresolved_mesh_load = rest;
}


/// With the full cube of half side `r` as offsets, `p` lies in the area around `c`
/// exactly when it is within `r` of `c` on every axis.
pub proof fn lemma_in_area_cube(p: IVec3, offs: Seq<IVec3>, c: IVec3, r: int)
    requires
        0 <= r <= MAX_RADIUS,
        forall|o: IVec3| #[trigger] offs.contains(o) <==> in_cube(o, r),
    ensures
        in_area(p, offs, c) <==> (-r <= p.x - c.x <= r && -r <= p.y - c.y <= r && -r <= p.z - c.z <= r),
{
    if in_area(p, offs, c) {
        let i = choose|i: int| 0 <= i < offs.len() && p.x == c.x + (#[trigger] offs[i]).x && p.y == c.y + offs[i].y && p.z == c.z + offs[i].z;
        assert(offs.contains(offs[i]));
    }
    if -r <= p.x - c.x <= r && -r <= p.y - c.y <= r && -r <= p.z - c.z <= r {
        let o = IVec3 { x: (p.x - c.x) as i32, y: (p.y - c.y) as i32, z: (p.z - c.z) as i32 };
        assert(in_cube(o, r));
        assert(offs.contains(o));
        let i = choose|i: int| 0 <= i < offs.len() && offs[i] == o;
        assert(p.x == c.x + offs[i].x && p.y == c.y + offs[i].y && p.z == c.z + offs[i].z);
    }
}

/// Moving one chunk along +x with the full cube of half side `r` as offsets, the
/// chunks that enter are exactly the far face at `x = cur.x + r`, and those that leave
/// exactly the face at `x = prev.x - r`: `(2r + 1)^2` each.
pub proof fn lemma_unit_move(p: IVec3, offs: Seq<IVec3>, prev: IVec3, cur: IVec3, r: int)
    requires
        0 <= r <= MAX_RADIUS,
        forall|o: IVec3| #[trigger] offs.contains(o) <==> in_cube(o, r),
        cur.x == prev.x + 1,
        cur.y == prev.y,
        cur.z == prev.z,
    ensures
        (in_area(p, offs, cur) && !in_area(p, offs, prev)) <==> (p.x == cur.x + r && -r <= p.y - cur.y <= r
            && -r <= p.z - cur.z <= r),
        (in_area(p, offs, prev) && !in_area(p, offs, cur)) <==> (p.x == prev.x - r && -r <= p.y - prev.y <= r
            && -r <= p.z - prev.z <= r),
{
    lemma_in_area_cube(p, offs, cur, r);
    lemma_in_area_cube(p, offs, prev, r);
}

} // verus!
