use vstd::prelude::*;
use ahash::AHashMap;

verus! {

/// Depth of the octree: a voxel coordinate is resolved one bit per level.
pub const MAX_DEPTH: usize = 16;

pub open spec fn spec_hash(x: usize, y: usize, z: usize) -> usize {
    ((vstd::wrapping::u64_specs::wrapping_mul(x as u64, 73856093)
        ^ vstd::wrapping::u64_specs::wrapping_mul(y as u64, 19349663)
        ^ vstd::wrapping::u64_specs::wrapping_mul(z as u64, 83492791)) & 0xFFFF_FFFF_FFFF) as usize
}

/// Spatial hash of a voxel coordinate: the three coordinates are multiplied
/// (with 64-bit wrap-around) by three primes, xor-ed together and kept to
/// their low 48 bits.
pub fn hash_function(x: usize, y: usize, z: usize) -> (h: usize)
    ensures
        h == spec_hash(x, y, z),
{
    let prime1: u64 = 73856093;
    let prime2: u64 = 19349663;
    let prime3: u64 = 83492791;
    let mixed: u64 = (x as u64).wrapping_mul(prime1) ^ (y as u64).wrapping_mul(prime2)
        ^ (z as u64).wrapping_mul(prime3);
    (mixed & 0xFFFF_FFFF_FFFF) as usize
}

/// Color of a voxel, one byte per channel.
#[derive(Clone, Debug, Copy)]
pub struct VoxelColor {
    pub r: u8,
    pub g: u8,
    pub b: u8,
    pub a: u8,
}

/// A voxel: for now only its color.
#[derive(Clone, Debug)]
pub struct Voxel {
    pub color: VoxelColor,
}

impl Voxel {
    /// A copy of this voxel (its color is a plain `Copy` value).
    pub fn duplicate(&self) -> (v: Voxel)
        ensures
            v == *self,
    {
        Voxel { color: self.color }
    }
}

/// A node of the sparse voxel octree. `bitmask` has bit `i` set when
/// `children[i]` is present.
#[derive(Debug)]
pub struct OctreeNode {
    pub children: [Option<Box<OctreeNode>>; 8],
    pub bitmask: u8,
    pub voxel: Option<Voxel>,
}

/// Whether bit `i` of `b` is set.
pub open spec fn bit_set(b: u8, i: int) -> bool {
    (b >> (i as u8)) & 1u8 == 1u8
}

/// The octant (0..8) that the point (x, y, z) falls in at `depth`:
/// bit `MAX_DEPTH - depth - 1` of x, y and z, in that order from high to low.
pub open spec fn octant(x: usize, y: usize, z: usize, depth: int) -> usize {
    let shift = (MAX_DEPTH - depth - 1) as usize;
    ((x >> shift) & 1) << 2 | ((y >> shift) & 1) << 1 | ((z >> shift) & 1)
}

/// Two points follow the same path from `depth` down to `MAX_DEPTH`.
pub open spec fn same_cell(x: usize, y: usize, z: usize, x2: usize, y2: usize, z2: usize, depth: int) -> bool {
    forall|d: int| depth <= d < MAX_DEPTH ==> #[trigger] octant(x, y, z, d) == octant(x2, y2, z2, d)
}

/// The node (taken to be at `depth`) has the full path of (x, y, z) down to `MAX_DEPTH`.
pub open spec fn contains_path(node: OctreeNode, depth: int, x: usize, y: usize, z: usize) -> bool
    decreases MAX_DEPTH - depth,
{
    if depth >= MAX_DEPTH {
        true
    } else {
        match node.children@[octant(x, y, z, depth) as int] {
            Some(c) => contains_path(*c, depth + 1, x, y, z),
            None => false,
        }
    }
}

/// Well-formedness of a node at `depth`: the bitmask mirrors which children are
/// present, nodes at `MAX_DEPTH` have no children, and every child is well formed.
pub open spec fn node_wf(node: OctreeNode, depth: int) -> bool
    decreases MAX_DEPTH - depth,
{
    &&& forall|i: int| 0 <= i < 8 ==> (bit_set(node.bitmask, i) <==> node.children@[i] is Some)
    &&& if depth >= MAX_DEPTH {
        forall|i: int| 0 <= i < 8 ==> node.children@[i] is None
    } else {
        forall|i: int|
            0 <= i < 8 ==> match #[trigger] node.children@[i] {
                Some(c) => node_wf(*c, depth + 1),
                None => true,
            }
    }
}

/// A node with no children, an empty bitmask and no voxel.
pub open spec fn empty_node() -> OctreeNode {
    OctreeNode { children: [None, None, None, None, None, None, None, None], bitmask: 0, voxel: None }
}

/// The node (at `depth`) with the path of (x, y, z) added down to
/// `MAX_DEPTH`: at each level the child in the point's octant is kept if
/// present, or else created empty with its bit set in the parent's bitmask;
/// nothing else changes, and no voxel is stored.
pub open spec fn with_path(node: OctreeNode, depth: int, x: usize, y: usize, z: usize) -> OctreeNode
    decreases MAX_DEPTH - depth,
{
    if depth >= MAX_DEPTH {
        node
    } else {
        let i = octant(x, y, z, depth) as int;
        let below = match node.children@[i] {
            Some(c) => *c,
            None => empty_node(),
        };
        OctreeNode {
            children: vstd::array::spec_array_update(
                node.children,
                i,
                Some(Box::new(with_path(below, depth + 1, x, y, z))),
            ),
            bitmask: if node.children@[i] is Some {
                node.bitmask
            } else {
                node.bitmask | (1u8 << (i as u8))
            },
            voxel: node.voxel,
        }
    }
}

proof fn lemma_octant_bound(x: usize, y: usize, z: usize, shift: usize)
    ensures
        ((x >> shift) & 1) << 2 | ((y >> shift) & 1) << 1 | ((z >> shift) & 1) < 8,
{
    assert(((x >> shift) & 1) << 2 | ((y >> shift) & 1) << 1 | ((z >> shift) & 1) < 8) by (bit_vector);
}

proof fn lemma_set_bit(b: u8, idx: u8, i: u8)
    by (bit_vector)
    requires
        idx < 8,
        i < 8,
    ensures
        ((b | (1u8 << idx)) >> i) & 1u8 == 1u8 <==> ((b >> i) & 1u8 == 1u8 || i == idx),
{
}

proof fn lemma_empty_bits()
    ensures
        forall|i: int| 0 <= i < 8 ==> !bit_set(0u8, i),
{
    assert(forall|i: u8| i < 8 ==> (0u8 >> i) & 1u8 != 1u8) by (bit_vector);
    assert forall|i: int| 0 <= i < 8 implies !bit_set(0u8, i) by {
        let j = i as u8;
        assert((0u8 >> j) & 1u8 != 1u8);
    }
}

proof fn lemma_fresh_paths(node: OctreeNode, depth: int, x: usize, y: usize, z: usize)
    requires
        forall|i: int| 0 <= i < 8 ==> node.children@[i] is None,
    ensures
        contains_path(node, depth, x, y, z) == (depth >= MAX_DEPTH),
{
    if depth < MAX_DEPTH {
        lemma_octant_bound(x, y, z, (MAX_DEPTH - depth - 1) as usize);
    }
}

impl OctreeNode {
    /// An empty node: no children, empty bitmask, no voxel.
    pub fn new() -> (n: Self)
        ensures
            forall|i: int| 0 <= i < 8 ==> n.children@[i] is None,
            n.bitmask == 0,
            n.voxel is None,
            n == empty_node(),
            node_wf(n, 0),
            bounded(n, 0),
    {
        let n = OctreeNode {
            children: [None, None, None, None, None, None, None, None],
            bitmask: 0,
            voxel: None,
        };
        proof {
            lemma_empty_bits();
            assert(n.children =~= empty_node().children);
        }
        n
    }

    /// Adds the path of (x, y, z) below this node, taken to be at `depth`:
    /// one level per bit of the coordinates, creating the missing nodes and
    /// setting their bits in the parents' bitmasks. Nothing happens at or
    /// below `MAX_DEPTH`. The voxel itself is not stored in the tree.
    pub fn insert(&mut self, depth: usize, x: usize, y: usize, z: usize, voxel: Voxel)
        ensures
            *final(self) == with_path(*old(self), depth as int, x, y, z),
            forall|x2: usize, y2: usize, z2: usize|
                #[trigger] contains_path(*final(self), depth as int, x2, y2, z2)
                    <==> (contains_path(*old(self), depth as int, x2, y2, z2)
                    || same_cell(x, y, z, x2, y2, z2, depth as int)),
            contains_path(*final(self), depth as int, x, y, z),
            node_wf(*old(self), depth as int) ==> node_wf(*final(self), depth as int),
            bounded(*old(self), depth as int) ==> bounded(*final(self), depth as int),
            final(self).voxel == old(self).voxel,
            final(self).bitmask == (if depth < MAX_DEPTH
                && old(self).children@[octant(x, y, z, depth as int) as int] is None {
                old(self).bitmask | (1u8 << octant(x, y, z, depth as int) as u8)
            } else {
                old(self).bitmask
            }),
            forall|i: int|
                0 <= i < 8 && (depth >= MAX_DEPTH || i != octant(x, y, z, depth as int))
                    ==> final(self).children@[i] == old(self).children@[i],
        decreases MAX_DEPTH - depth,
    {
        if depth >= MAX_DEPTH {
            return;
        }
        let shift = MAX_DEPTH - depth - 1;
        let index = ((x >> shift) & 1) << 2 | ((y >> shift) & 1) << 1 | ((z >> shift) & 1);
        proof { lemma_octant_bound(x, y, z, shift); }
        let ghost old_child = self.children@[index as int];
        let mut child = match self.children[index].take() {
            Some(c) => c,
            None => {
                self.bitmask = self.bitmask | (1u8 << index as u8);
                Box::new(OctreeNode::new())
            },
        };
        let ghost before = *child;
        (&mut *child).insert(depth + 1, x, y, z, voxel);
        self.children[index] = Some(child);
        proof {
            let d = depth as int;
            let i = index as int;
            let below = match old(self).children@[i] {
                Some(c) => *c,
                None => empty_node(),
            };
            assert(before == below);
            assert(self.children =~= vstd::array::spec_array_update(
                old(self).children, i, Some(Box::new(with_path(below, d + 1, x, y, z)))));
            assert(*self == with_path(*old(self), d, x, y, z));
            assert(index == octant(x, y, z, d));
            assert(self.children@[index as int] == Some(child));
            assert(forall|i: int| 0 <= i < 8 && i != index ==> self.children@[i] == old(self).children@[i]);
            assert(old(self).children@[index as int] == old_child);
            assert forall|x2: usize, y2: usize, z2: usize|
                #[trigger] contains_path(*self, d, x2, y2, z2)
                    <==> (contains_path(*old(self), d, x2, y2, z2)
                    || same_cell(x, y, z, x2, y2, z2, d)) by {
                lemma_octant_bound(x2, y2, z2, shift);
                if octant(x2, y2, z2, d) == index {
                    assert(contains_path(*child, d + 1, x2, y2, z2) <==> (contains_path(before, d + 1, x2, y2, z2)
                        || same_cell(x, y, z, x2, y2, z2, d + 1)));
                    if old_child is None {
                        lemma_fresh_paths(before, d + 1, x2, y2, z2);
                    }
                    assert(contains_path(*self, d, x2, y2, z2) == contains_path(*child, d + 1, x2, y2, z2));
                    if same_cell(x, y, z, x2, y2, z2, d + 1) {
                        assert forall|dd: int| d <= dd < MAX_DEPTH implies #[trigger] octant(x, y, z, dd) == octant(x2, y2, z2, dd) by {
                            if dd > d {
                                assert(octant(x, y, z, dd) == octant(x2, y2, z2, dd));
                            }
                        }
                    }
                    assert(same_cell(x, y, z, x2, y2, z2, d) == same_cell(x, y, z, x2, y2, z2, d + 1));
                } else {
                    assert(!same_cell(x, y, z, x2, y2, z2, d)) by {
                        assert(octant(x, y, z, d) != octant(x2, y2, z2, d));
                    }
                }
            }
            if old_child is None {
                assert(bounded(before, d + 1));
            }
            if node_wf(*old(self), d) {
                assert(forall|i: int| 0 <= i < 8 ==> (bit_set(old(self).bitmask, i) <==> old(self).children@[i] is Some));
                assert forall|i: int| 0 <= i < 8 implies (bit_set(self.bitmask, i) <==> self.children@[i] is Some) by {
                    if old_child is None {
                        lemma_set_bit(old(self).bitmask, index as u8, i as u8);
                        assert(self.bitmask == old(self).bitmask | (1u8 << index as u8));
                        assert(bit_set(self.bitmask, i) <==> (bit_set(old(self).bitmask, i) || (i as u8) == (index as u8)));
                        assert((i as u8) == (index as u8) <==> i == index);
                    } else {
                        assert(self.bitmask == old(self).bitmask);
                    }
                    if i != index {
                        assert(self.children@[i] == old(self).children@[i]);
                    }
                }
            }
        }
    }
}

} // verus!

verus! {

/// `ahash::AHashMap`, opaque: what it holds is `voxel_table_contents`.
#[verifier::external_type_specification]
#[verifier::external_body]
#[verifier::reject_recursive_types(K)]
#[verifier::reject_recursive_types(V)]
#[verifier::reject_recursive_types(S)]
pub struct ExAHashMap<K, V, S>(AHashMap<K, V, S>);

/// `ahash::RandomState`, the default hasher of `AHashMap`, opaque.
#[verifier::external_type_specification]
#[verifier::external_body]
pub struct ExRandomState(ahash::RandomState);

/// What an `AHashMap` from hash keys to voxels holds.
pub uninterp spec fn voxel_table_contents(m: AHashMap<usize, Voxel>) -> Map<usize, Voxel>;

/// `AHashMap::new`: an empty map (its hasher is seeded at random, which does
/// not show in its contents).
#[verifier::external_body]
fn voxel_table_new() -> (table: AHashMap<usize, Voxel>)
    ensures
        voxel_table_contents(table) =~= Map::empty(),
{
    AHashMap::new()
}

/// `AHashMap::insert`: the key now maps to the value, whatever it mapped to before.
#[verifier::external_body]
fn voxel_table_insert(m: &mut AHashMap<usize, Voxel>, k: usize, v: Voxel)
    ensures
        voxel_table_contents(*final(m)) == voxel_table_contents(*old(m)).insert(k, v),
{
    m.insert(k, v);
}

/// `AHashMap::get`: the value the key maps to, if any.
#[verifier::external_body]
fn voxel_table_get(m: &AHashMap<usize, Voxel>, k: usize) -> (r: Option<&Voxel>)
    ensures
        match r {
            Some(v) => voxel_table_contents(*m).dom().contains(k) && *v == voxel_table_contents(*m)[k],
            None => !voxel_table_contents(*m).dom().contains(k),
        },
{
    m.get(&k)
}

/// `AHashMap::remove`: the key no longer maps to anything.
#[verifier::external_body]
fn voxel_table_remove(m: &mut AHashMap<usize, Voxel>, k: usize)
    ensures
        voxel_table_contents(*final(m)) == voxel_table_contents(*old(m)).remove(k),
{
    m.remove(&k);
}

/// `AHashMap::clone`: a map with the same contents (the derived clone of the
/// map, which clones the keys and values; here both are plain copies).
#[verifier::external_body]
fn voxel_table_clone(m: &AHashMap<usize, Voxel>) -> (copy: AHashMap<usize, Voxel>)
    ensures
        voxel_table_contents(copy) == voxel_table_contents(*m),
{
    m.clone()
}

/// Voxels keyed by the spatial hash of their coordinates.
#[derive(Debug)]
pub struct SpatialHashTable {
    table: AHashMap<usize, Voxel>,
}

impl View for SpatialHashTable {
    type V = Map<usize, Voxel>;

    closed spec fn view(&self) -> Map<usize, Voxel> {
        voxel_table_contents(self.table)
    }
}

impl Clone for SpatialHashTable {
    fn clone(&self) -> (t: Self)
        ensures
            t@ == self@,
    {
        SpatialHashTable { table: voxel_table_clone(&self.table) }
    }
}

impl SpatialHashTable {
    pub fn new() -> (t: Self)
        ensures
            t@ == Map::<usize, Voxel>::empty(),
    {
        SpatialHashTable { table: voxel_table_new() }
    }

    pub fn insert(&mut self, x: usize, y: usize, z: usize, voxel: Voxel)
        ensures
            final(self)@ == old(self)@.insert(spec_hash(x, y, z), voxel),
    {
        let hash = hash_function(x, y, z);
        voxel_table_insert(&mut self.table, hash, voxel);
    }

    pub fn get(&self, x: usize, y: usize, z: usize) -> (r: Option<&Voxel>)
        ensures
            match r {
                Some(v) => self@.dom().contains(spec_hash(x, y, z)) && *v == self@[spec_hash(x, y, z)],
                None => !self@.dom().contains(spec_hash(x, y, z)),
            },
    {
        let hash = hash_function(x, y, z);
        voxel_table_get(&self.table, hash)
    }

    pub fn remove(&mut self, x: usize, y: usize, z: usize)
        ensures
            final(self)@ == old(self)@.remove(spec_hash(x, y, z)),
    {
        let hash = hash_function(x, y, z);
        voxel_table_remove(&mut self.table, hash);
    }
}

/// One visited node: the node, its depth and the coordinates of its corner.
pub type Visit<'a> = (&'a OctreeNode, usize, usize, usize, usize);

/// A visited node as a plain value.
pub type VisitView = (OctreeNode, usize, usize, usize, usize);

pub open spec fn visit_view(v: Visit) -> VisitView {
    (*v.0, v.1, v.2, v.3, v.4)
}

pub open spec fn visits_view(s: Seq<Visit>) -> Seq<VisitView> {
    s.map_values(|v: Visit| visit_view(v))
}

/// Corner coordinate of child `i` along one axis: the axis bit of `i`
/// placed at `shift`.
pub open spec fn child_coord(c: usize, bit: usize, shift: usize) -> usize {
    c | (bit << shift)
}

/// Depth-first pre-order of the subtree at `node` (at `depth`, corner
/// (x, y, z)): the node, then the subtrees of its children 0 to 7; nothing
/// below `MAX_DEPTH` is visited.
pub open spec fn preorder(node: OctreeNode, depth: usize, x: usize, y: usize, z: usize) -> Seq<VisitView>
    decreases MAX_DEPTH - depth, 9int,
{
    seq![(node, depth, x, y, z)] + if depth < MAX_DEPTH {
        subtrees_from(node, depth, x, y, z, 0)
    } else {
        Seq::empty()
    }
}

/// Pre-orders of the subtrees of children `i` to 7 of `node`, in that order.
pub open spec fn subtrees_from(node: OctreeNode, depth: usize, x: usize, y: usize, z: usize, i: int) -> Seq<VisitView>
    decreases MAX_DEPTH - depth, 8 - i,
{
    if i < 0 || i >= 8 || depth >= MAX_DEPTH {
        Seq::empty()
    } else {
        let shift = (MAX_DEPTH - depth - 1) as usize;
        let iu = i as usize;
        let here = match node.children@[i] {
            Some(c) => preorder(
                *c,
                (depth + 1) as usize,
                child_coord(x, (iu & 4) >> 2, shift),
                child_coord(y, (iu & 2) >> 1, shift),
                child_coord(z, iu & 1, shift),
            ),
            None => Seq::empty(),
        };
        here + subtrees_from(node, depth, x, y, z, i + 1)
    }
}

/// What is left to visit for a stack of pending visits (its top last).
pub open spec fn pending_preorder(stack: Seq<VisitView>) -> Seq<VisitView>
    decreases stack.len(),
{
    if stack.len() == 0 {
        Seq::empty()
    } else {
        let top = stack.last();
        preorder(top.0, top.1, top.2, top.3, top.4) + pending_preorder(stack.drop_last())
    }
}

impl OctreeNode {
    /// Depth-first traversal from this node (taken as the root: depth 0,
    /// corner (0, 0, 0)), with an explicit stack; children are visited in
    /// the order 0 to 7 and nothing below `MAX_DEPTH` is visited. Returns the
    /// visits in order.
    pub fn oc_dfs<'a>(&'a self) -> (visits: Vec<Visit<'a>>)
        ensures
            visits_view(visits@) == preorder(*self, 0, 0, 0, 0),
    {
        let mut stack: Vec<Visit<'a>> = Vec::new();
        stack.push((self, 0, 0, 0, 0));
        let mut visits: Vec<Visit<'a>> = Vec::new();
        proof {
            assert(visits_view(stack@) =~= seq![(*self, 0usize, 0usize, 0usize, 0usize)]);
            assert(visits_view(stack@).drop_last() =~= Seq::<VisitView>::empty());
            assert(pending_preorder(Seq::<VisitView>::empty()) == Seq::<VisitView>::empty());
            assert(preorder(*self, 0, 0, 0, 0) + Seq::<VisitView>::empty() =~= preorder(*self, 0, 0, 0, 0));
            assert(pending_preorder(visits_view(stack@)) == preorder(*self, 0, 0, 0, 0));
            assert(visits_view(visits@) =~= Seq::<VisitView>::empty());
        }
        loop
            invariant
                visits_view(visits@) + pending_preorder(visits_view(stack@)) == preorder(*self, 0, 0, 0, 0),
                forall|k: int| 0 <= k < stack@.len() ==> (#[trigger] stack@[k]).1 <= MAX_DEPTH,
            ensures
                visits_view(visits@) == preorder(*self, 0, 0, 0, 0),
            decreases pending_preorder(visits_view(stack@)).len(),
        {
            let ghost before = visits_view(stack@);
            match stack.pop() {
                None => {
                    proof {
                        assert(visits_view(stack@) =~= Seq::<VisitView>::empty());
                        assert(visits_view(visits@) =~= visits_view(visits@) + pending_preorder(visits_view(stack@)));
                    }
                    break;
                },
                Some(frame) => {
                    let (node, depth, x, y, z) = frame;
                    let ghost rest = visits_view(stack@);
                    proof {
                        assert(rest =~= before.drop_last());
                        assert(before.last() == visit_view(frame));
                    }
                    let ghost visited_before = visits_view(visits@);
                    visits.push(frame);
                    proof {
                        assert(visits_view(visits@) =~= visited_before.push(visit_view(frame)));
                    }
                    if depth < MAX_DEPTH {
                        let shift = MAX_DEPTH - depth - 1;
                        let mut i: usize = 8;
                        while i > 0
                            invariant
                                i <= 8,
                                depth < MAX_DEPTH,
                                shift == MAX_DEPTH - depth - 1,
                                pending_preorder(visits_view(stack@))
                                    == subtrees_from(*node, depth, x, y, z, i as int) + pending_preorder(rest),
                                forall|k: int| 0 <= k < stack@.len() ==> (#[trigger] stack@[k]).1 <= MAX_DEPTH,
                            decreases i,
                        {
                            i = i - 1;
                            let ghost s0 = visits_view(stack@);
                            match &node.children[i] {
                                Some(child) => {
                                    let cx = x | (((i & 4) >> 2) << shift);
                                    let cy = y | (((i & 2) >> 1) << shift);
                                    let cz = z | ((i & 1) << shift);
                                    let next: Visit<'a> = (&**child, depth + 1, cx, cy, cz);
                                    stack.push(next);
                                    proof {
                                        assert(visits_view(stack@) =~= s0.push(visit_view(next)));
                                        assert(visits_view(stack@).drop_last() =~= s0);
                                    }
                                },
                                None => {},
                            }
                        }
                    } else {
                        proof {
                            assert(subtrees_from(*node, depth, x, y, z, 0) =~= Seq::<VisitView>::empty());
                        }
                    }
                    proof {
                        assert(preorder(*node, depth, x, y, z) == seq![visit_view(frame)]
                            + subtrees_from(*node, depth, x, y, z, 0));
                    }
                },
            }
        }
        visits
    }
}

/// One node met in a breadth-first traversal, with its depth.
pub type LevelEntry<'a> = (&'a OctreeNode, usize);

/// A breadth-first entry as a plain value.
pub type LevelEntryView = (OctreeNode, usize);

pub open spec fn entry_view(e: LevelEntry) -> LevelEntryView {
    (*e.0, e.1)
}

pub open spec fn entries_view(s: Seq<LevelEntry>) -> Seq<LevelEntryView> {
    s.map_values(|e: LevelEntry| entry_view(e))
}

/// No node lies below depth `h` in the subtree at `node`, taken to be at `depth`.
pub open spec fn bounded_by(node: OctreeNode, depth: int, h: int) -> bool
    decreases h - depth,
{
    if depth >= h {
        forall|i: int| 0 <= i < 8 ==> node.children@[i] is None
    } else {
        forall|i: int|
            0 <= i < 8 ==> match #[trigger] node.children@[i] {
                Some(c) => bounded_by(*c, depth + 1, h),
                None => true,
            }
    }
}

/// No node lies below `MAX_DEPTH` in the subtree at `node`, taken to be at `depth`.
pub open spec fn bounded(node: OctreeNode, depth: int) -> bool {
    bounded_by(node, depth, MAX_DEPTH as int)
}

/// The tree at `node` has a height that a `usize` depth counter can reach
/// (true of every tree that fits in memory).
pub open spec fn has_height(node: OctreeNode) -> bool {
    exists|h: int| 0 <= h < usize::MAX && #[trigger] bounded_by(node, 0, h)
}

/// A height of the tree at `node` (see `has_height`).
pub open spec fn height_bound(node: OctreeNode) -> int {
    choose|h: int| 0 <= h < usize::MAX && #[trigger] bounded_by(node, 0, h)
}

/// Trees with nothing below `MAX_DEPTH`, which are those that `insert`
/// builds from an empty node, have a height.
pub proof fn lemma_bounded_has_height(node: OctreeNode)
    requires
        bounded(node, 0),
    ensures
        has_height(node),
{
    assert(bounded_by(node, 0, MAX_DEPTH as int));
}

/// The children 0 to `i - 1` of `node` (at `depth`), in order, one level down.
pub open spec fn child_entries(node: OctreeNode, depth: usize, i: int) -> Seq<LevelEntryView>
    decreases i,
{
    if i <= 0 {
        Seq::empty()
    } else {
        let before = child_entries(node, depth, i - 1);
        match node.children@[i - 1] {
            Some(c) => before.push((*c, (depth + 1) as usize)),
            None => before,
        }
    }
}

/// The next level of a level: the children of its nodes, node by node.
pub open spec fn next_level(level: Seq<LevelEntryView>) -> Seq<LevelEntryView>
    decreases level.len(),
{
    if level.len() == 0 {
        Seq::empty()
    } else {
        let e = level.last();
        next_level(level.drop_last()) + child_entries(e.0, e.1, 8)
    }
}

/// `n` levels, starting from `level`, one after the other.
pub open spec fn levels(level: Seq<LevelEntryView>, n: nat) -> Seq<LevelEntryView>
    decreases n,
{
    if n == 0 {
        Seq::empty()
    } else {
        level + levels(next_level(level), (n - 1) as nat)
    }
}

/// Breadth-first (level) order of the subtree at `node`, taken as the root at
/// depth 0: the root, then the nodes one level down, and so on, each level in
/// the order of its parents and, under one parent, of the children 0 to 7.
pub open spec fn level_order(node: OctreeNode) -> Seq<LevelEntryView> {
    levels(seq![(node, 0usize)], (height_bound(node) + 1) as nat)
}

/// All entries of a level are at depth `k` and hold nothing below depth `h`.
pub open spec fn level_at(level: Seq<LevelEntryView>, k: int, h: int) -> bool {
    forall|m: int| 0 <= m < level.len() ==> (#[trigger] level[m]).1 == k && bounded_by(level[m].0, k, h)
}

proof fn lemma_next_level_push(level: Seq<LevelEntryView>, e: LevelEntryView)
    ensures
        next_level(level.push(e)) == next_level(level) + child_entries(e.0, e.1, 8),
{
    assert(level.push(e).drop_last() =~= level);
}

proof fn lemma_child_entries_level(node: OctreeNode, depth: usize, i: int, h: int)
    requires
        bounded_by(node, depth as int, h),
        depth < h < usize::MAX,
        i <= 8,
    ensures
        level_at(child_entries(node, depth, i), depth + 1, h),
        child_entries(node, depth, i).len() <= i || i < 0,
    decreases i,
{
    if i > 0 {
        lemma_child_entries_level(node, depth, i - 1, h);
        let before = child_entries(node, depth, i - 1);
        match node.children@[i - 1] {
            Some(c) => {
                assert(bounded_by(*c, depth + 1, h));
                let after = before.push((*c, (depth + 1) as usize));
                assert forall|m: int| 0 <= m < after.len() implies (#[trigger] after[m]).1 == depth + 1
                    && bounded_by(after[m].0, depth + 1, h) by {
                    if m < before.len() {
                        assert(after[m] == before[m]);
                    }
                }
            },
            None => {},
        }
    }
}

proof fn lemma_child_entries_leaf(node: OctreeNode, depth: usize, i: int, h: int)
    requires
        bounded_by(node, depth as int, h),
        depth >= h,
        i <= 8,
    ensures
        child_entries(node, depth, i) == Seq::<LevelEntryView>::empty(),
    decreases i,
{
    if i > 0 {
        lemma_child_entries_leaf(node, depth, i - 1, h);
    }
}

proof fn lemma_next_level_at(level: Seq<LevelEntryView>, k: int, h: int)
    requires
        level_at(level, k, h),
        0 <= k,
        h < usize::MAX,
    ensures
        k < h ==> level_at(next_level(level), k + 1, h),
        k >= h ==> next_level(level) == Seq::<LevelEntryView>::empty(),
    decreases level.len(),
{
    if level.len() > 0 {
        let rest = level.drop_last();
        let e = level.last();
        assert(level_at(rest, k, h)) by {
            assert forall|m: int| 0 <= m < rest.len() implies (#[trigger] rest[m]).1 == k && bounded_by(rest[m].0, k, h) by {
                assert(rest[m] == level[m]);
            }
        }
        lemma_next_level_at(rest, k, h);
        assert(e == level[level.len() - 1]);
        if k < h {
            lemma_child_entries_level(e.0, e.1, 8, h);
            let a = next_level(rest);
            let b = child_entries(e.0, e.1, 8);
            assert forall|m: int| 0 <= m < (a + b).len() implies (#[trigger] (a + b)[m]).1 == k + 1
                && bounded_by((a + b)[m].0, k + 1, h) by {
                if m < a.len() {
                    assert((a + b)[m] == a[m]);
                } else {
                    assert((a + b)[m] == b[m - a.len()]);
                }
            }
        } else {
            lemma_child_entries_leaf(e.0, e.1, 8, h);
            assert(next_level(rest) + Seq::<LevelEntryView>::empty() =~= Seq::<LevelEntryView>::empty());
        }
    }
}

proof fn lemma_levels_empty(n: nat)
    ensures
        levels(Seq::<LevelEntryView>::empty(), n) == Seq::<LevelEntryView>::empty(),
    decreases n,
{
    if n > 0 {
        lemma_levels_empty((n - 1) as nat);
        assert(next_level(Seq::<LevelEntryView>::empty()) == Seq::<LevelEntryView>::empty());
        assert(Seq::<LevelEntryView>::empty() + Seq::<LevelEntryView>::empty() =~= Seq::<LevelEntryView>::empty());
    }
}

impl OctreeNode {
    /// Breadth-first traversal from this node (taken as the root, at depth
    /// 0) with a queue; the children of a node are queued in the order 0 to 7.
    /// Returns the visits in order. Stated for trees of a height that a
    /// `usize` depth counter reaches, which every tree in memory has.
    pub fn oc_bfs<'a>(&'a self) -> (visits: Vec<LevelEntry<'a>>)
        requires
            has_height(*self),
        ensures
            entries_view(visits@) == level_order(*self),
    {
        let mut queue: std::collections::VecDeque<LevelEntry<'a>> = std::collections::VecDeque::with_capacity(1024);
        queue.push_back((self, 0));
        let mut visits: Vec<LevelEntry<'a>> = Vec::new();
        let ghost root_level: Seq<LevelEntryView> = seq![(*self, 0usize)];
        let ghost mut level: Seq<LevelEntryView> = root_level;
        let ghost mut j: int = 0;
        let ghost mut k: int = 0;
        let ghost h: int = height_bound(*self);
        proof {
            assert(entries_view(queue@) =~= root_level);
            assert(entries_view(visits@) =~= Seq::<LevelEntryView>::empty());
            assert(level.skip(0) =~= level);
            assert(level.take(0) =~= Seq::<LevelEntryView>::empty());
            assert(next_level(Seq::<LevelEntryView>::empty()) == Seq::<LevelEntryView>::empty());
            assert(entries_view(queue@) =~= level.skip(j) + next_level(level.take(j)));
            assert(0 <= h < usize::MAX && bounded_by(*self, 0, h));
            assert(level_at(level, 0, h));
            assert(level_order(*self) == level + levels(next_level(level), h as nat));
            assert(Seq::<LevelEntryView>::empty() + level.skip(j) + levels(next_level(level), h as nat)
                =~= level_order(*self));
        }
        loop
            invariant
                0 <= h < usize::MAX,
                h == height_bound(*self),
                0 <= k <= h,
                0 <= j <= level.len(),
                level_at(level, k, h),
                entries_view(queue@) == level.skip(j) + next_level(level.take(j)),
                entries_view(visits@) + level.skip(j) + levels(next_level(level), (h - k) as nat)
                    == level_order(*self),
                j == level.len() ==> next_level(level) == Seq::<LevelEntryView>::empty(),
            ensures
                entries_view(visits@) == level_order(*self),
            decreases level.len() - j + levels(next_level(level), (h - k) as nat).len(),
        {
            let ghost q0 = entries_view(queue@);
            match queue.pop_front() {
                None => {
                    proof {
                        assert(q0.len() == 0);
                        assert(level.skip(j).len() == level.len() - j);
                        assert(j == level.len());
                        lemma_levels_empty((h - k) as nat);
                        assert(level.skip(j) =~= Seq::<LevelEntryView>::empty());
                        assert(entries_view(visits@) + level.skip(j) + levels(next_level(level), (h - k) as nat)
                            =~= entries_view(visits@));
                    }
                    break;
                },
                Some(entry) => {
                    let (node, depth) = entry;
                    proof {
                        if j == level.len() {
                            assert(level.take(j) =~= level);
                            assert(level.skip(j) =~= Seq::<LevelEntryView>::empty());
                            assert(q0 =~= Seq::<LevelEntryView>::empty());
                        }
                        assert(j < level.len());
                        assert(q0[0] == level[j]);
                        assert(entry_view(entry) == level[j]);
                        assert(depth == k);
                        assert(bounded_by(*node, k, h));
                    }
                    let ghost visited_before = entries_view(visits@);
                    visits.push(entry);
                    proof {
                        assert(entries_view(visits@) =~= visited_before.push(entry_view(entry)));
                    }
                    let ghost q1 = entries_view(queue@);
                    proof {
                        assert(q1 =~= q0.subrange(1, q0.len() as int));
                        assert(q1 =~= level.skip(j + 1) + next_level(level.take(j)));
                    }
                    let mut i: usize = 0;
                    while i < 8
                        invariant
                            i <= 8,
                            depth == k,
                            k <= h,
                            h < usize::MAX,
                            entries_view(queue@) == q1 + child_entries(*node, depth, i as int),
                        decreases 8 - i,
                    {
                        let ghost qi = entries_view(queue@);
                        match &node.children[i] {
                            Some(child) => {
                                let next: LevelEntry<'a> = (&**child, depth + 1);
                                queue.push_back(next);
                                proof {
                                    assert(entries_view(queue@) =~= qi.push(entry_view(next)));
                                }
                            },
                            None => {},
                        }
                        i = i + 1;
                    }
                    proof {
                        let e = level[j];
                        assert(level.take(j + 1) =~= level.take(j).push(e));
                        lemma_next_level_push(level.take(j), e);
                        assert(entries_view(queue@) =~= level.skip(j + 1) + next_level(level.take(j + 1)));
                        assert(level.skip(j) =~= seq![e] + level.skip(j + 1));
                        assert(entries_view(visits@) + level.skip(j + 1)
                            =~= visited_before + level.skip(j));
                        j = j + 1;
                        if j == level.len() {
                            assert(level.take(j) =~= level);
                            lemma_next_level_at(level, k, h);
                            if next_level(level).len() > 0 {
                                assert(k < h);
                                let nl = next_level(level);
                                assert(levels(nl, (h - k) as nat)
                                    == nl + levels(next_level(nl), (h - (k + 1)) as nat));
                                assert(level.skip(j) =~= Seq::<LevelEntryView>::empty());
                                assert(nl.skip(0) =~= nl);
                                assert(nl.take(0) =~= Seq::<LevelEntryView>::empty());
                                assert(entries_view(visits@) + level.skip(j) + levels(nl, (h - k) as nat)
                                    =~= entries_view(visits@) + nl.skip(0) + levels(next_level(nl), (h - (k + 1)) as nat));
                                assert(entries_view(queue@) =~= nl.skip(0) + next_level(nl.take(0)));
                                level = nl;
                                j = 0;
                                k = k + 1;
                            }
                        }
                    }
                },
            }
        }
        visits
    }
}

/// A sparse voxel octree: the voxels themselves live in a spatial hash table
/// keyed by the hash of their coordinates; the octree records, one level per
/// coordinate bit, the cells that voxels were inserted at.
#[derive(Debug)]
pub struct SparseVoxelOctree {
    pub root: OctreeNode,
    pub spatial_hash_table: SpatialHashTable,
}

/// The voxels held after inserting the model voxels in order, each with its
/// palette color.
pub open spec fn model_voxels(
    m: Map<usize, Voxel>,
    voxels: Seq<(u8, u8, u8, u8)>,
    palette: Seq<VoxelColor>,
) -> Map<usize, Voxel>
    decreases voxels.len(),
{
    if voxels.len() == 0 {
        m
    } else {
        let v = voxels.last();
        model_voxels(m, voxels.drop_last(), palette).insert(
            spec_hash(v.0 as usize, v.1 as usize, v.2 as usize),
            Voxel { color: palette[v.3 as int] },
        )
    }
}

/// The hash of the coordinate of a model voxel.
pub open spec fn model_hash(v: (u8, u8, u8, u8)) -> usize {
    spec_hash(v.0 as usize, v.1 as usize, v.2 as usize)
}

/// Loading a model stores, under the hash of each model voxel that no
/// later voxel of the model shares, a voxel of exactly the palette color at
/// that voxel's index (all four channels); the last voxel stored under a
/// hash wins.
pub proof fn law_model_voxel_colors(
    m: Map<usize, Voxel>,
    voxels: Seq<(u8, u8, u8, u8)>,
    palette: Seq<VoxelColor>,
    k: int,
)
    requires
        0 <= k < voxels.len(),
        forall|j: int| k < j < voxels.len() ==> model_hash(#[trigger] voxels[j]) != model_hash(voxels[k]),
    ensures
        model_voxels(m, voxels, palette).dom().contains(model_hash(voxels[k])),
        model_voxels(m, voxels, palette)[model_hash(voxels[k])] == (Voxel { color: palette[voxels[k].3 as int] }),
        model_voxels(m, voxels, palette)[model_hash(voxels[k])].color.r == palette[voxels[k].3 as int].r,
        model_voxels(m, voxels, palette)[model_hash(voxels[k])].color.g == palette[voxels[k].3 as int].g,
        model_voxels(m, voxels, palette)[model_hash(voxels[k])].color.b == palette[voxels[k].3 as int].b,
        model_voxels(m, voxels, palette)[model_hash(voxels[k])].color.a == palette[voxels[k].3 as int].a,
    decreases voxels.len(),
{
    let n = voxels.len() as int;
    if k < n - 1 {
        let front = voxels.drop_last();
        assert(model_hash(voxels[n - 1]) != model_hash(voxels[k]));
        assert forall|j: int| k < j < front.len() implies model_hash(#[trigger] front[j]) != model_hash(front[k]) by {
            assert(front[j] == voxels[j]);
        }
        law_model_voxel_colors(m, front, palette, k);
        assert(front[k] == voxels[k]);
    }
}

/// Loading a model leaves what is stored under any hash that no model voxel
/// has as it was.
pub proof fn law_model_keeps_other_hashes(
    m: Map<usize, Voxel>,
    voxels: Seq<(u8, u8, u8, u8)>,
    palette: Seq<VoxelColor>,
    h: usize,
)
    requires
        forall|j: int| 0 <= j < voxels.len() ==> model_hash(#[trigger] voxels[j]) != h,
    ensures
        model_voxels(m, voxels, palette).dom().contains(h) == m.dom().contains(h),
        m.dom().contains(h) ==> model_voxels(m, voxels, palette)[h] == m[h],
    decreases voxels.len(),
{
    if voxels.len() > 0 {
        let front = voxels.drop_last();
        assert(model_hash(voxels[voxels.len() - 1]) != h);
        assert forall|j: int| 0 <= j < front.len() implies model_hash(#[trigger] front[j]) != h by {
            assert(front[j] == voxels[j]);
        }
        law_model_keeps_other_hashes(m, front, palette, h);
    }
}

/// The octree after adding the paths of the model voxels in order.
pub open spec fn model_tree(root: OctreeNode, voxels: Seq<(u8, u8, u8, u8)>) -> OctreeNode
    decreases voxels.len(),
{
    if voxels.len() == 0 {
        root
    } else {
        let v = voxels.last();
        with_path(model_tree(root, voxels.drop_last()), 0, v.0 as usize, v.1 as usize, v.2 as usize)
    }
}

/// Some voxel of the model shares the octree cell of (x, y, z).
pub open spec fn model_covers(voxels: Seq<(u8, u8, u8, u8)>, x: usize, y: usize, z: usize) -> bool
    decreases voxels.len(),
{
    if voxels.len() == 0 {
        false
    } else {
        let v = voxels.last();
        model_covers(voxels.drop_last(), x, y, z) || same_cell(v.0 as usize, v.1 as usize, v.2 as usize, x, y, z, 0)
    }
}

impl SparseVoxelOctree {
    /// The voxels held, keyed by the spatial hash of their coordinates.
    pub open spec fn voxels(&self) -> Map<usize, Voxel> {
        self.spatial_hash_table@
    }

    /// The voxel that a lookup of (x, y, z) finds.
    pub open spec fn lookup(&self, x: usize, y: usize, z: usize) -> Option<Voxel> {
        if self.voxels().dom().contains(spec_hash(x, y, z)) {
            Some(self.voxels()[spec_hash(x, y, z)])
        } else {
            None
        }
    }

    /// The octree has the cell of (x, y, z).
    pub open spec fn occupied(&self, x: usize, y: usize, z: usize) -> bool {
        contains_path(self.root, 0, x, y, z)
    }

    /// The octree is well formed (see `node_wf`).
    pub open spec fn wf(&self) -> bool {
        node_wf(self.root, 0)
    }

    pub fn new() -> (s: Self)
        ensures
            s.voxels() == Map::<usize, Voxel>::empty(),
            forall|x: usize, y: usize, z: usize| !#[trigger] s.occupied(x, y, z),
            s.wf(),
            bounded(s.root, 0),
            s.root.bitmask == 0,
            s.root.voxel is None,
    {
        let s = SparseVoxelOctree { root: OctreeNode::new(), spatial_hash_table: SpatialHashTable::new() };
        proof {
            assert forall|x: usize, y: usize, z: usize| !#[trigger] s.occupied(x, y, z) by {
                lemma_fresh_paths(s.root, 0, x, y, z);
            }
        }
        s
    }

    /// Stores the voxel under the hash of (x, y, z), replacing whatever was
    /// stored under that hash, and adds the cell of (x, y, z) to the octree.
    pub fn insert(&mut self, x: usize, y: usize, z: usize, voxel: Voxel)
        ensures
            final(self).voxels() == old(self).voxels().insert(spec_hash(x, y, z), voxel),
            forall|x2: usize, y2: usize, z2: usize|
                #[trigger] final(self).occupied(x2, y2, z2)
                    <==> (old(self).occupied(x2, y2, z2) || same_cell(x, y, z, x2, y2, z2, 0)),
            old(self).wf() ==> final(self).wf(),
            bounded(old(self).root, 0) ==> bounded(final(self).root, 0),
            final(self).root == with_path(old(self).root, 0, x, y, z),
            final(self).root.voxel == old(self).root.voxel,
            final(self).root.bitmask == (if old(self).root.children@[octant(x, y, z, 0) as int] is None {
                old(self).root.bitmask | (1u8 << octant(x, y, z, 0) as u8)
            } else {
                old(self).root.bitmask
            }),
    {
        let copy = voxel.duplicate();
        self.spatial_hash_table.insert(x, y, z, copy);
        self.root.insert(0, x, y, z, voxel);
        proof {
            assert forall|x2: usize, y2: usize, z2: usize|
                #[trigger] self.occupied(x2, y2, z2)
                    <==> (old(self).occupied(x2, y2, z2) || same_cell(x, y, z, x2, y2, z2, 0)) by {
                assert(contains_path(self.root, 0, x2, y2, z2) <==> (contains_path(old(self).root, 0, x2, y2, z2)
                    || same_cell(x, y, z, x2, y2, z2, 0)));
            }
        }
    }

    /// The voxel stored under the hash of (x, y, z), if any.
    pub fn get(&self, x: usize, y: usize, z: usize) -> (r: Option<&Voxel>)
        ensures
            match r {
                Some(v) => self.lookup(x, y, z) == Some(*v),
                None => self.lookup(x, y, z) is None,
            },
    {
        self.spatial_hash_table.get(x, y, z)
    }

    /// Inserts the voxels of a model, in order: each is given as its
    /// coordinates and an index into `palette`, and takes that palette color.
    pub fn insert_model(&mut self, voxels: &Vec<(u8, u8, u8, u8)>, palette: &Vec<VoxelColor>)
        requires
            forall|k: int| 0 <= k < voxels@.len() ==> (#[trigger] voxels@[k]).3 < palette@.len(),
        ensures
            final(self).voxels() == model_voxels(old(self).voxels(), voxels@, palette@),
            final(self).root == model_tree(old(self).root, voxels@),
            forall|x2: usize, y2: usize, z2: usize|
                #[trigger] final(self).occupied(x2, y2, z2)
                    <==> (old(self).occupied(x2, y2, z2) || model_covers(voxels@, x2, y2, z2)),
            old(self).wf() ==> final(self).wf(),
            bounded(old(self).root, 0) ==> bounded(final(self).root, 0),
            forall|k: int|
                0 <= k < voxels@.len() && (forall|j: int|
                    k < j < voxels@.len() ==> model_hash(#[trigger] voxels@[j]) != model_hash(voxels@[k]))
                    ==> final(self).lookup(
                    (#[trigger] voxels@[k]).0 as usize,
                    voxels@[k].1 as usize,
                    voxels@[k].2 as usize,
                ) == Some((Voxel { color: palette@[voxels@[k].3 as int] })),
            forall|x: usize, y: usize, z: usize|
                (forall|j: int| 0 <= j < voxels@.len() ==> model_hash(#[trigger] voxels@[j]) != spec_hash(x, y, z))
                    ==> #[trigger] final(self).lookup(x, y, z) == old(self).lookup(x, y, z),
    {
        proof {
            assert forall|k: int|
                0 <= k < voxels@.len() && (forall|j: int|
                    k < j < voxels@.len() ==> model_hash(#[trigger] voxels@[j]) != model_hash(voxels@[k]))
                    implies model_voxels(old(self).voxels(), voxels@, palette@).dom().contains(model_hash(#[trigger] voxels@[k]))
                    && model_voxels(old(self).voxels(), voxels@, palette@)[model_hash(voxels@[k])]
                    == (Voxel { color: palette@[voxels@[k].3 as int] }) by {
                law_model_voxel_colors(old(self).voxels(), voxels@, palette@, k);
            }
            assert forall|x: usize, y: usize, z: usize|
                (forall|j: int| 0 <= j < voxels@.len() ==> model_hash(#[trigger] voxels@[j]) != spec_hash(x, y, z))
                    implies (model_voxels(old(self).voxels(), voxels@, palette@).dom().contains(#[trigger] spec_hash(x, y, z))
                    == old(self).voxels().dom().contains(spec_hash(x, y, z))
                    && (old(self).voxels().dom().contains(spec_hash(x, y, z))
                        ==> model_voxels(old(self).voxels(), voxels@, palette@)[spec_hash(x, y, z)]
                        == old(self).voxels()[spec_hash(x, y, z)])) by {
                law_model_keeps_other_hashes(old(self).voxels(), voxels@, palette@, spec_hash(x, y, z));
            }
        }
        let n = voxels.len();
        let mut i: usize = 0;
        while i < n
            invariant
                n == voxels@.len(),
                i <= n,
                forall|k: int| 0 <= k < voxels@.len() ==> (#[trigger] voxels@[k]).3 < palette@.len(),
                self.voxels() == model_voxels(old(self).voxels(), voxels@.take(i as int), palette@),
                self.root == model_tree(old(self).root, voxels@.take(i as int)),
                forall|x2: usize, y2: usize, z2: usize|
                    #[trigger] self.occupied(x2, y2, z2)
                        <==> (old(self).occupied(x2, y2, z2) || model_covers(voxels@.take(i as int), x2, y2, z2)),
                old(self).wf() ==> self.wf(),
                bounded(old(self).root, 0) ==> bounded(self.root, 0),
            decreases n - i,
        {
            let (x, y, z, c) = voxels[i];
            let color = palette[c as usize];
            self.insert(x as usize, y as usize, z as usize, Voxel { color });
            proof {
                let done = voxels@.take(i + 1);
                assert(done.drop_last() =~= voxels@.take(i as int));
                assert(done.last() == voxels@[i as int]);
                assert forall|x2: usize, y2: usize, z2: usize|
                    #[trigger] self.occupied(x2, y2, z2)
                        <==> (old(self).occupied(x2, y2, z2) || model_covers(done, x2, y2, z2)) by {
                    assert(model_covers(done, x2, y2, z2) == (model_covers(voxels@.take(i as int), x2, y2, z2)
                        || same_cell(x as usize, y as usize, z as usize, x2, y2, z2, 0)));
                }
            }
            i = i + 1;
        }
        proof {
            assert(voxels@.take(n as int) =~= voxels@);
        }
    }

    /// Depth-first pre-order of the octree (see `OctreeNode::oc_dfs`).
    pub fn dfs<'a>(&'a self) -> (visits: Vec<Visit<'a>>)
        ensures
            visits_view(visits@) == preorder(self.root, 0, 0, 0, 0),
    {
        self.root.oc_dfs()
    }

    /// Breadth-first order of the octree (see `OctreeNode::oc_bfs`).
    pub fn bfs<'a>(&'a self) -> (visits: Vec<LevelEntry<'a>>)
        requires
            has_height(self.root),
        ensures
            entries_view(visits@) == level_order(self.root),
    {
        self.root.oc_bfs()
    }

    /// Drops the voxel stored under the hash of (x, y, z). The octree is left
    /// as it is.
    pub fn remove(&mut self, x: usize, y: usize, z: usize)
        ensures
            final(self).voxels() == old(self).voxels().remove(spec_hash(x, y, z)),
            final(self).root == old(self).root,
    {
        self.spatial_hash_table.remove(x, y, z);
    }
}

} // verus!

verus! {

/// Reading back a write: after `insert(x, y, z, v)` a lookup of (x, y, z)
/// finds `v`, and a lookup of any point with another hash finds what it
/// found before.
pub proof fn law_lookup_after_insert(
    before: SparseVoxelOctree,
    after: SparseVoxelOctree,
    x: usize,
    y: usize,
    z: usize,
    v: Voxel,
    x2: usize,
    y2: usize,
    z2: usize,
)
    requires
        after.voxels() == before.voxels().insert(spec_hash(x, y, z), v),
    ensures
        after.lookup(x, y, z) == Some(v),
        spec_hash(x2, y2, z2) != spec_hash(x, y, z) ==> after.lookup(x2, y2, z2) == before.lookup(x2, y2, z2),
{
}

/// After `remove(x, y, z)` a lookup of (x, y, z) finds nothing, and a lookup
/// of any point with another hash finds what it found before.
pub proof fn law_lookup_after_remove(
    before: SparseVoxelOctree,
    after: SparseVoxelOctree,
    x: usize,
    y: usize,
    z: usize,
    x2: usize,
    y2: usize,
    z2: usize,
)
    requires
        after.voxels() == before.voxels().remove(spec_hash(x, y, z)),
    ensures
        after.lookup(x, y, z) is None,
        spec_hash(x2, y2, z2) != spec_hash(x, y, z) ==> after.lookup(x2, y2, z2) == before.lookup(x2, y2, z2),
{
}

/// The spatial hash keeps 48 bits.
pub proof fn law_hash_is_48_bits(x: usize, y: usize, z: usize)
    ensures
        spec_hash(x, y, z) < 0x1_0000_0000_0000,
{
    let m = vstd::wrapping::u64_specs::wrapping_mul(x as u64, 73856093)
        ^ vstd::wrapping::u64_specs::wrapping_mul(y as u64, 19349663)
        ^ vstd::wrapping::u64_specs::wrapping_mul(z as u64, 83492791);
    assert(m & 0xFFFF_FFFF_FFFF < 0x1_0000_0000_0000u64) by (bit_vector);
}

proof fn lemma_wrapping_mul_low_bits(x: usize, x2: usize, p: u64)
    requires
        (x as int) % 0x1_0000_0000_0000 == (x2 as int) % 0x1_0000_0000_0000,
    ensures
        vstd::wrapping::u64_specs::wrapping_mul(x as u64, p) % 0x1_0000_0000_0000
            == vstd::wrapping::u64_specs::wrapping_mul(x2 as u64, p) % 0x1_0000_0000_0000,
{
    let m: int = 0x1_0000_0000_0000;
    let n1: int = x as int * p as int;
    let n2: int = x2 as int * p as int;
    assert(n1 >= 0 && n2 >= 0) by (nonlinear_arith)
        requires
            n1 == x as int * p as int,
            n2 == x2 as int * p as int,
    ;
    vstd::arithmetic::div_mod::lemma_mod_mod(n1, m, 0x1_0000);
    vstd::arithmetic::div_mod::lemma_mod_mod(n2, m, 0x1_0000);
    assert(m * 0x1_0000 == 0x1_0000_0000_0000_0000);
    vstd::arithmetic::div_mod::lemma_mul_mod_noop_left(x as int, p as int, m);
    vstd::arithmetic::div_mod::lemma_mul_mod_noop_left(x2 as int, p as int, m);
    assert(n1 % m == n2 % m);
}

/// The spatial hash repeats with period 2^48 along each axis: it depends on
/// the low 48 bits of each coordinate only.
pub proof fn law_hash_period(x: usize, y: usize, z: usize, x2: usize, y2: usize, z2: usize)
    requires
        (x as int) % 0x1_0000_0000_0000 == (x2 as int) % 0x1_0000_0000_0000,
        (y as int) % 0x1_0000_0000_0000 == (y2 as int) % 0x1_0000_0000_0000,
        (z as int) % 0x1_0000_0000_0000 == (z2 as int) % 0x1_0000_0000_0000,
    ensures
        spec_hash(x, y, z) == spec_hash(x2, y2, z2),
{
    lemma_wrapping_mul_low_bits(x, x2, 73856093);
    lemma_wrapping_mul_low_bits(y, y2, 19349663);
    lemma_wrapping_mul_low_bits(z, z2, 83492791);
    let a = vstd::wrapping::u64_specs::wrapping_mul(x as u64, 73856093);
    let b = vstd::wrapping::u64_specs::wrapping_mul(y as u64, 19349663);
    let c = vstd::wrapping::u64_specs::wrapping_mul(z as u64, 83492791);
    let a2 = vstd::wrapping::u64_specs::wrapping_mul(x2 as u64, 73856093);
    let b2 = vstd::wrapping::u64_specs::wrapping_mul(y2 as u64, 19349663);
    let c2 = vstd::wrapping::u64_specs::wrapping_mul(z2 as u64, 83492791);
    assert((a ^ b ^ c) & 0xFFFF_FFFF_FFFF == (a2 ^ b2 ^ c2) & 0xFFFF_FFFF_FFFF) by (bit_vector)
        requires
            a % 0x1_0000_0000_0000 == a2 % 0x1_0000_0000_0000,
            b % 0x1_0000_0000_0000 == b2 % 0x1_0000_0000_0000,
            c % 0x1_0000_0000_0000 == c2 % 0x1_0000_0000_0000,
    ;
}

proof fn lemma_octant_bits(x: usize, y: usize, z: usize, x2: usize, y2: usize, z2: usize, s: usize)
    by (bit_vector)
    requires
        s < 16,
    ensures
        (((x >> s) & 1) << 2 | ((y >> s) & 1) << 1 | ((z >> s) & 1))
            == (((x2 >> s) & 1) << 2 | ((y2 >> s) & 1) << 1 | ((z2 >> s) & 1))
        <==> ((x >> s) & 1 == (x2 >> s) & 1 && (y >> s) & 1 == (y2 >> s) & 1 && (z >> s) & 1 == (z2 >> s) & 1),
{
}

proof fn lemma_low_bits_agree(x: usize, x2: usize, s: usize)
    by (bit_vector)
    requires
        s < 16,
        x & 0xFFFF == x2 & 0xFFFF,
    ensures
        (x >> s) & 1 == (x2 >> s) & 1,
{
}

proof fn lemma_bits_give_low_bits(x: usize, x2: usize)
    by (bit_vector)
    requires
        (x >> 0usize) & 1 == (x2 >> 0usize) & 1,
        (x >> 1usize) & 1 == (x2 >> 1usize) & 1,
        (x >> 2usize) & 1 == (x2 >> 2usize) & 1,
        (x >> 3usize) & 1 == (x2 >> 3usize) & 1,
        (x >> 4usize) & 1 == (x2 >> 4usize) & 1,
        (x >> 5usize) & 1 == (x2 >> 5usize) & 1,
        (x >> 6usize) & 1 == (x2 >> 6usize) & 1,
        (x >> 7usize) & 1 == (x2 >> 7usize) & 1,
        (x >> 8usize) & 1 == (x2 >> 8usize) & 1,
        (x >> 9usize) & 1 == (x2 >> 9usize) & 1,
        (x >> 10usize) & 1 == (x2 >> 10usize) & 1,
        (x >> 11usize) & 1 == (x2 >> 11usize) & 1,
        (x >> 12usize) & 1 == (x2 >> 12usize) & 1,
        (x >> 13usize) & 1 == (x2 >> 13usize) & 1,
        (x >> 14usize) & 1 == (x2 >> 14usize) & 1,
        (x >> 15usize) & 1 == (x2 >> 15usize) & 1,
    ensures
        x & 0xFFFF == x2 & 0xFFFF,
{
}

proof fn lemma_low_bits_mod(x: usize)
    by (bit_vector)
    ensures
        x & 0xFFFF == x % 65536,
{
}

/// Two points share an octree cell exactly when their coordinates agree in
/// their low `MAX_DEPTH` (16) bits: the octree tells points apart modulo 2^16.
pub proof fn law_same_cell_is_low_bits(x: usize, y: usize, z: usize, x2: usize, y2: usize, z2: usize)
    ensures
        same_cell(x, y, z, x2, y2, z2, 0)
            <==> (x % 65536 == x2 % 65536 && y % 65536 == y2 % 65536 && z % 65536 == z2 % 65536),
{
    lemma_low_bits_mod(x);
    lemma_low_bits_mod(x2);
    lemma_low_bits_mod(y);
    lemma_low_bits_mod(y2);
    lemma_low_bits_mod(z);
    lemma_low_bits_mod(z2);
    if x % 65536 == x2 % 65536 && y % 65536 == y2 % 65536 && z % 65536 == z2 % 65536 {
        assert forall|d: int| 0 <= d < MAX_DEPTH implies #[trigger] octant(x, y, z, d) == octant(x2, y2, z2, d) by {
            let s = (MAX_DEPTH - d - 1) as usize;
            lemma_low_bits_agree(x, x2, s);
            lemma_low_bits_agree(y, y2, s);
            lemma_low_bits_agree(z, z2, s);
            lemma_octant_bits(x, y, z, x2, y2, z2, s);
        }
    }
    if same_cell(x, y, z, x2, y2, z2, 0) {
        assert forall|s: usize| s < 16 implies (x >> s) & 1 == (x2 >> s) & 1 && (y >> s) & 1 == (y2 >> s) & 1
            && (z >> s) & 1 == (z2 >> s) & 1 by {
            let d = 15 - s as int;
            assert(octant(x, y, z, d) == octant(x2, y2, z2, d));
            lemma_octant_bits(x, y, z, x2, y2, z2, s);
        }
        lemma_bits_give_low_bits(x, x2);
        lemma_bits_give_low_bits(y, y2);
        lemma_bits_give_low_bits(z, z2);
    }
}

/// Inserting makes the inserted point's cell occupied, and removing leaves
/// the octree as it was: the octree only grows.
pub proof fn law_insert_occupies(
    before: SparseVoxelOctree,
    after: SparseVoxelOctree,
    x: usize,
    y: usize,
    z: usize,
)
    requires
        forall|x2: usize, y2: usize, z2: usize|
            #[trigger] after.occupied(x2, y2, z2)
                <==> (before.occupied(x2, y2, z2) || same_cell(x, y, z, x2, y2, z2, 0)),
    ensures
        after.occupied(x, y, z),
        forall|x2: usize, y2: usize, z2: usize| before.occupied(x2, y2, z2) ==> #[trigger] after.occupied(x2, y2, z2),
{
    assert(after.occupied(x, y, z) <==> (before.occupied(x, y, z) || same_cell(x, y, z, x, y, z, 0)));
}

} // verus!

verus! {

/// Corner coordinate, along one axis, of the node at `depth` on the path of
/// coordinate `v`: the bits of `v` above `MAX_DEPTH - depth`, among its low
/// `MAX_DEPTH` bits.
pub open spec fn corner(v: usize, depth: int) -> usize {
    ((v & 0xFFFF) >> ((MAX_DEPTH - depth) as usize)) << ((MAX_DEPTH - depth) as usize)
}

proof fn lemma_corner_step(v: usize, s: usize)
    by (bit_vector)
    requires
        s < 16,
    ensures
        (((v & 0xFFFF) >> (s + 1) as usize) << (s + 1) as usize) | (((v >> s) & 1) << s) == ((v & 0xFFFF) >> s) << s,
{
}

proof fn lemma_corner_ends(v: usize)
    by (bit_vector)
    ensures
        ((v & 0xFFFF) >> 16usize) << 16usize == 0,
        ((v & 0xFFFF) >> 0usize) << 0usize == v & 0xFFFF,
{
}

proof fn lemma_octant_axes(x: usize, y: usize, z: usize, s: usize)
    by (bit_vector)
    ensures
        (((((x >> s) & 1) << 2 | ((y >> s) & 1) << 1 | ((z >> s) & 1)) & 4) >> 2) == (x >> s) & 1,
        (((((x >> s) & 1) << 2 | ((y >> s) & 1) << 1 | ((z >> s) & 1)) & 2) >> 1) == (y >> s) & 1,
        ((((x >> s) & 1) << 2 | ((y >> s) & 1) << 1 | ((z >> s) & 1)) & 1) == (z >> s) & 1,
{
}

proof fn lemma_concat_contains<A>(a: Seq<A>, b: Seq<A>, e: A)
    ensures
        a.contains(e) ==> (a + b).contains(e),
        b.contains(e) ==> (a + b).contains(e),
{
    if a.contains(e) {
        let k = choose|k: int| 0 <= k < a.len() && a[k] == e;
        assert((a + b)[k] == e);
    }
    if b.contains(e) {
        let k = choose|k: int| 0 <= k < b.len() && b[k] == e;
        assert((a + b)[a.len() + k] == e);
    }
}

proof fn lemma_subtrees_contain(
    node: OctreeNode,
    depth: usize,
    x: usize,
    y: usize,
    z: usize,
    i: int,
    idx: int,
    c: OctreeNode,
    e: VisitView,
)
    requires
        0 <= i <= idx < 8,
        depth < MAX_DEPTH,
        node.children@[idx] == Some(Box::new(c)),
        preorder(
            c,
            (depth + 1) as usize,
            child_coord(x, ((idx as usize) & 4) >> 2, (MAX_DEPTH - depth - 1) as usize),
            child_coord(y, ((idx as usize) & 2) >> 1, (MAX_DEPTH - depth - 1) as usize),
            child_coord(z, (idx as usize) & 1, (MAX_DEPTH - depth - 1) as usize),
        ).contains(e),
    ensures
        subtrees_from(node, depth, x, y, z, i).contains(e),
    decreases idx - i,
{
    let shift = (MAX_DEPTH - depth - 1) as usize;
    let iu = i as usize;
    let here = match node.children@[i] {
        Some(ch) => preorder(
            *ch,
            (depth + 1) as usize,
            child_coord(x, (iu & 4) >> 2, shift),
            child_coord(y, (iu & 2) >> 1, shift),
            child_coord(z, iu & 1, shift),
        ),
        None => Seq::empty(),
    };
    assert(subtrees_from(node, depth, x, y, z, i) == here + subtrees_from(node, depth, x, y, z, i + 1));
    if i == idx {
        lemma_concat_contains(here, subtrees_from(node, depth, x, y, z, i + 1), e);
    } else {
        lemma_subtrees_contain(node, depth, x, y, z, i + 1, idx, c, e);
        lemma_concat_contains(here, subtrees_from(node, depth, x, y, z, i + 1), e);
    }
}

proof fn lemma_path_visited(node: OctreeNode, depth: usize, x: usize, y: usize, z: usize)
    requires
        depth <= MAX_DEPTH,
        contains_path(node, depth as int, x, y, z),
    ensures
        exists|leaf: OctreeNode|
            #[trigger] preorder(node, depth, corner(x, depth as int), corner(y, depth as int), corner(z, depth as int)).contains(
                (leaf, MAX_DEPTH, corner(x, MAX_DEPTH as int), corner(y, MAX_DEPTH as int), corner(z, MAX_DEPTH as int)),
            ),
    decreases MAX_DEPTH - depth,
{
    let cx = corner(x, depth as int);
    let cy = corner(y, depth as int);
    let cz = corner(z, depth as int);
    let ex = corner(x, MAX_DEPTH as int);
    let ey = corner(y, MAX_DEPTH as int);
    let ez = corner(z, MAX_DEPTH as int);
    if depth == MAX_DEPTH {
        let p = preorder(node, depth, cx, cy, cz);
        assert(p[0] == (node, MAX_DEPTH, ex, ey, ez));
        assert(p.contains((node, MAX_DEPTH, ex, ey, ez)));
    } else {
        let s = (MAX_DEPTH - depth - 1) as usize;
        let d1 = (depth + 1) as usize;
        let idx = octant(x, y, z, depth as int);
        lemma_octant_bound(x, y, z, s);
        let c = *node.children@[idx as int]->0;
        lemma_path_visited(c, d1, x, y, z);
        let leaf = choose|leaf: OctreeNode|
            #[trigger] preorder(c, d1, corner(x, d1 as int), corner(y, d1 as int), corner(z, d1 as int)).contains(
                (leaf, MAX_DEPTH, corner(x, MAX_DEPTH as int), corner(y, MAX_DEPTH as int), corner(z, MAX_DEPTH as int)));
        let e = (leaf, MAX_DEPTH, ex, ey, ez);
        lemma_octant_axes(x, y, z, s);
        lemma_corner_step(x, s);
        lemma_corner_step(y, s);
        lemma_corner_step(z, s);
        assert(child_coord(cx, (idx & 4) >> 2, s) == corner(x, d1 as int));
        assert(child_coord(cy, (idx & 2) >> 1, s) == corner(y, d1 as int));
        assert(child_coord(cz, idx & 1, s) == corner(z, d1 as int));
        assert(node.children@[idx as int] == Some(Box::new(c)));
        lemma_subtrees_contain(node, depth, cx, cy, cz, 0, idx as int, c, e);
        let p = preorder(node, depth, cx, cy, cz);
        assert(p == seq![(node, depth, cx, cy, cz)] + subtrees_from(node, depth, cx, cy, cz, 0));
        lemma_concat_contains(seq![(node, depth, cx, cy, cz)], subtrees_from(node, depth, cx, cy, cz, 0), e);
        assert(p.contains(e));
    }
}

/// Every occupied cell is drawn from: the depth-first traversal of the
/// octree visits, for each point whose cell the octree has, a node at depth
/// `MAX_DEPTH` whose corner is the point's coordinates modulo 2^16.
pub proof fn law_occupied_cell_is_visited(svo: SparseVoxelOctree, x: usize, y: usize, z: usize)
    requires
        svo.occupied(x, y, z),
    ensures
        exists|leaf: OctreeNode|
            #[trigger] preorder(svo.root, 0, 0, 0, 0).contains(
                (leaf, MAX_DEPTH, x % 65536, y % 65536, z % 65536),
            ),
{
    lemma_path_visited(svo.root, 0, x, y, z);
    lemma_corner_ends(x);
    lemma_corner_ends(y);
    lemma_corner_ends(z);
    lemma_low_bits_mod(x);
    lemma_low_bits_mod(y);
    lemma_low_bits_mod(z);
    assert(corner(x, 0) == 0 && corner(y, 0) == 0 && corner(z, 0) == 0);
    assert(corner(x, 16) == x % 65536 && corner(y, 16) == y % 65536 && corner(z, 16) == z % 65536);
}

} // verus!

verus! {

/// The bitmask of `node` has bit `i` set exactly when child `i` is present.
pub open spec fn mask_matches(node: OctreeNode) -> bool {
    forall|i: int| 0 <= i < 8 ==> (bit_set(node.bitmask, i) <==> node.children@[i] is Some)
}

/// `mask_matches` holds at `node` (taken to be at `depth`) and at every node
/// below it down to depth `h`. On a tree with nothing below depth `h`
/// (`bounded_by(node, depth, h)`) this is every node of the tree.
pub open spec fn masks_agree(node: OctreeNode, depth: int, h: int) -> bool
    decreases h - depth,
{
    &&& mask_matches(node)
    &&& depth < h ==> forall|i: int|
        0 <= i < 8 ==> match #[trigger] node.children@[i] {
            Some(c) => masks_agree(*c, depth + 1, h),
            None => true,
        }
}

proof fn lemma_empty_node_agrees(depth: int, h: int)
    ensures
        bounded_by(empty_node(), depth, h),
        masks_agree(empty_node(), depth, h),
{
    lemma_empty_bits();
}

/// A bound on a tree's depth, and agreement of masks under it, still hold
/// under any larger bound.
proof fn lemma_raise_bound(node: OctreeNode, depth: int, h: int, h2: int)
    requires
        bounded_by(node, depth, h),
        masks_agree(node, depth, h),
        h <= h2,
    ensures
        bounded_by(node, depth, h2),
        masks_agree(node, depth, h2),
    decreases h2 - depth,
{
    if depth < h2 {
        assert forall|i: int| 0 <= i < 8 implies match #[trigger] node.children@[i] {
            Some(c) => bounded_by(*c, depth + 1, h2) && masks_agree(*c, depth + 1, h2),
            None => true,
        } by {
            match node.children@[i] {
                Some(c) => {
                    assert(depth < h);
                    lemma_raise_bound(*c, depth + 1, h, h2);
                },
                None => {},
            }
        }
    }
}

proof fn lemma_path_keeps_masks(node: OctreeNode, depth: int, x: usize, y: usize, z: usize, h: int)
    requires
        0 <= depth,
        MAX_DEPTH <= h,
        bounded_by(node, depth, h),
        masks_agree(node, depth, h),
    ensures
        bounded_by(with_path(node, depth, x, y, z), depth, h),
        masks_agree(with_path(node, depth, x, y, z), depth, h),
    decreases MAX_DEPTH - depth,
{
    if depth < MAX_DEPTH {
        lemma_octant_bound(x, y, z, (MAX_DEPTH - depth - 1) as usize);
        let idx = octant(x, y, z, depth) as int;
        let below = match node.children@[idx] {
            Some(c) => *c,
            None => empty_node(),
        };
        if node.children@[idx] is None {
            lemma_empty_node_agrees(depth + 1, h);
        }
        lemma_path_keeps_masks(below, depth + 1, x, y, z, h);
        let n2 = with_path(node, depth, x, y, z);
        assert(mask_matches(node));
        assert forall|i: int| 0 <= i < 8 implies (bit_set(n2.bitmask, i) <==> n2.children@[i] is Some) by {
            assert(bit_set(node.bitmask, i) <==> node.children@[i] is Some);
            if i != idx {
                assert(n2.children@[i] == node.children@[i]);
            } else {
                assert(n2.children@[i] is Some);
            }
            if node.children@[idx] is None {
                lemma_set_bit(node.bitmask, idx as u8, i as u8);
                assert(n2.bitmask == node.bitmask | (1u8 << (idx as u8)));
                assert((i as u8) == (idx as u8) <==> i == idx);
            } else {
                assert(n2.bitmask == node.bitmask);
            }
        }
        assert forall|i: int| 0 <= i < 8 implies match #[trigger] n2.children@[i] {
            Some(c) => bounded_by(*c, depth + 1, h) && masks_agree(*c, depth + 1, h),
            None => true,
        } by {
            if i != idx {
                assert(n2.children@[i] == node.children@[i]);
            }
        }
    }
}

/// The bitmask of every node mirrors its children, at every depth: if it
/// does in a tree with nothing below depth `h`, it does after the path of
/// any point is added, in a tree with nothing below the larger of `h` and
/// `MAX_DEPTH`. (`OctreeNode::insert` adds exactly that path.)
pub proof fn law_insert_keeps_masks(node: OctreeNode, depth: int, x: usize, y: usize, z: usize, h: int)
    requires
        0 <= depth,
        bounded_by(node, depth, h),
        masks_agree(node, depth, h),
    ensures
        bounded_by(with_path(node, depth, x, y, z), depth, if h < MAX_DEPTH { MAX_DEPTH as int } else { h }),
        masks_agree(with_path(node, depth, x, y, z), depth, if h < MAX_DEPTH { MAX_DEPTH as int } else { h }),
{
    let h2 = if h < MAX_DEPTH { MAX_DEPTH as int } else { h };
    lemma_raise_bound(node, depth, h, h2);
    lemma_path_keeps_masks(node, depth, x, y, z, h2);
}

} // verus!

verus! {

proof fn lemma_or_bits_commute(b: u8, i: u8, j: u8)
    by (bit_vector)
    ensures
        (b | (1u8 << i)) | (1u8 << j) == (b | (1u8 << j)) | (1u8 << i),
        (b | (1u8 << i)) | (1u8 << i) == b | (1u8 << i),
{
}

proof fn lemma_paths_commute(
    node: OctreeNode,
    depth: int,
    x: usize,
    y: usize,
    z: usize,
    x2: usize,
    y2: usize,
    z2: usize,
)
    ensures
        with_path(with_path(node, depth, x, y, z), depth, x2, y2, z2)
            == with_path(with_path(node, depth, x2, y2, z2), depth, x, y, z),
    decreases MAX_DEPTH - depth,
{
    if depth < MAX_DEPTH {
        lemma_octant_bound(x, y, z, (MAX_DEPTH - depth - 1) as usize);
        lemma_octant_bound(x2, y2, z2, (MAX_DEPTH - depth - 1) as usize);
        let i = octant(x, y, z, depth) as int;
        let j = octant(x2, y2, z2, depth) as int;
        let a = with_path(node, depth, x, y, z);
        let b = with_path(node, depth, x2, y2, z2);
        let ab = with_path(a, depth, x2, y2, z2);
        let ba = with_path(b, depth, x, y, z);
        lemma_or_bits_commute(node.bitmask, i as u8, j as u8);
        if i == j {
            let below = match node.children@[i] {
                Some(c) => *c,
                None => empty_node(),
            };
            lemma_paths_commute(below, depth + 1, x, y, z, x2, y2, z2);
            assert(ab.children =~= ba.children);
        } else {
            assert(ab.children =~= ba.children);
        }
    }
}

/// Inserts of two points with different hashes commute: whichever goes
/// first, the octree gains the same two paths and the table maps each hash
/// to its own voxel.
pub proof fn law_inserts_commute(
    s: SparseVoxelOctree,
    x: usize,
    y: usize,
    z: usize,
    v: Voxel,
    x2: usize,
    y2: usize,
    z2: usize,
    v2: Voxel,
)
    requires
        spec_hash(x, y, z) != spec_hash(x2, y2, z2),
    ensures
        with_path(with_path(s.root, 0, x, y, z), 0, x2, y2, z2)
            == with_path(with_path(s.root, 0, x2, y2, z2), 0, x, y, z),
        s.voxels().insert(spec_hash(x, y, z), v).insert(spec_hash(x2, y2, z2), v2)
            == s.voxels().insert(spec_hash(x2, y2, z2), v2).insert(spec_hash(x, y, z), v),
{
    lemma_paths_commute(s.root, 0, x, y, z, x2, y2, z2);
    assert(s.voxels().insert(spec_hash(x, y, z), v).insert(spec_hash(x2, y2, z2), v2)
        =~= s.voxels().insert(spec_hash(x2, y2, z2), v2).insert(spec_hash(x, y, z), v));
}

} // verus!

verus! {

proof fn lemma_concat_member<A>(a: Seq<A>, b: Seq<A>, e: A)
    requires
        (a + b).contains(e),
    ensures
        a.contains(e) || b.contains(e),
{
    let k = choose|k: int| 0 <= k < (a + b).len() && (a + b)[k] == e;
    if k < a.len() {
        assert(a[k] == e);
    } else {
        assert(b[k - a.len()] == e);
    }
}

proof fn lemma_subtrees_member(node: OctreeNode, depth: usize, x: usize, y: usize, z: usize, i: int, e: VisitView)
    requires
        subtrees_from(node, depth, x, y, z, i).contains(e),
    ensures
        exists|idx: int|
            #![trigger node.children@[idx]]
            i <= idx < 8 && 0 <= idx && node.children@[idx] is Some && depth < MAX_DEPTH && preorder(
                *node.children@[idx]->0,
                (depth + 1) as usize,
                child_coord(x, ((idx as usize) & 4) >> 2, (MAX_DEPTH - depth - 1) as usize),
                child_coord(y, ((idx as usize) & 2) >> 1, (MAX_DEPTH - depth - 1) as usize),
                child_coord(z, (idx as usize) & 1, (MAX_DEPTH - depth - 1) as usize),
            ).contains(e),
    decreases 8 - i,
{
    if !(i < 0 || i >= 8 || depth >= MAX_DEPTH) {
        let shift = (MAX_DEPTH - depth - 1) as usize;
        let iu = i as usize;
        let here = match node.children@[i] {
            Some(c) => preorder(
                *c,
                (depth + 1) as usize,
                child_coord(x, (iu & 4) >> 2, shift),
                child_coord(y, (iu & 2) >> 1, shift),
                child_coord(z, iu & 1, shift),
            ),
            None => Seq::empty(),
        };
        let rest = subtrees_from(node, depth, x, y, z, i + 1);
        assert(subtrees_from(node, depth, x, y, z, i) == here + rest);
        lemma_concat_member(here, rest, e);
        if here.contains(e) {
            assert(node.children@[i] is Some);
        } else {
            lemma_subtrees_member(node, depth, x, y, z, i + 1, e);
        }
    } else {
        assert(subtrees_from(node, depth, x, y, z, i).len() == 0);
    }
}

proof fn lemma_child_corner(x: usize, b: usize, s: usize)
    by (bit_vector)
    requires
        s < 16,
        b <= 1,
        x == ((x & 0xFFFF) >> (s + 1) as usize) << (s + 1) as usize,
    ensures
        (x | (b << s)) == (((x | (b << s)) & 0xFFFF) >> s) << s,
{
}

proof fn lemma_corner_back(v: usize, x: usize, b: usize, s: usize)
    by (bit_vector)
    requires
        s < 16,
        b <= 1,
        x == ((x & 0xFFFF) >> (s + 1) as usize) << (s + 1) as usize,
        ((v & 0xFFFF) >> s) << s == x | (b << s),
    ensures
        (v >> s) & 1 == b,
        ((v & 0xFFFF) >> (s + 1) as usize) << (s + 1) as usize == x,
{
}

proof fn lemma_index_bits(idx: usize)
    by (bit_vector)
    requires
        idx < 8,
    ensures
        ((idx & 4) >> 2) <= 1,
        ((idx & 2) >> 1) <= 1,
        (idx & 1) <= 1,
        ((idx & 4) >> 2) << 2 | ((idx & 2) >> 1) << 1 | (idx & 1) == idx,
{
}

proof fn lemma_corner_low(v: usize)
    by (bit_vector)
    requires
        v == ((v & 0xFFFF) >> 0usize) << 0usize,
    ensures
        v < 65536,
{
}

proof fn lemma_leaf_visit_has_path(node: OctreeNode, depth: usize, x: usize, y: usize, z: usize, e: VisitView)
    requires
        depth <= MAX_DEPTH,
        x == corner(x, depth as int),
        y == corner(y, depth as int),
        z == corner(z, depth as int),
        preorder(node, depth, x, y, z).contains(e),
        e.1 == MAX_DEPTH,
    ensures
        contains_path(node, depth as int, e.2, e.3, e.4),
        corner(e.2, depth as int) == x,
        corner(e.3, depth as int) == y,
        corner(e.4, depth as int) == z,
        e.2 == corner(e.2, MAX_DEPTH as int),
        e.3 == corner(e.3, MAX_DEPTH as int),
        e.4 == corner(e.4, MAX_DEPTH as int),
    decreases MAX_DEPTH - depth,
{
    let me = (node, depth, x, y, z);
    if depth == MAX_DEPTH {
        let p = preorder(node, depth, x, y, z);
        assert(p =~= seq![me]);
        let k = choose|k: int| 0 <= k < p.len() && p[k] == e;
        assert(e == me);
    } else {
        let sub = subtrees_from(node, depth, x, y, z, 0);
        assert(preorder(node, depth, x, y, z) == seq![me] + sub);
        lemma_concat_member(seq![me], sub, e);
        if seq![me].contains(e) {
            let k = choose|k: int| 0 <= k < 1 && seq![me][k] == e;
            assert(e == me);
        }
        assert(sub.contains(e));
        lemma_subtrees_member(node, depth, x, y, z, 0, e);
        let idx = choose|idx: int|
            #![trigger node.children@[idx]]
            0 <= idx < 8 && node.children@[idx] is Some && depth < MAX_DEPTH && preorder(
                *node.children@[idx]->0,
                (depth + 1) as usize,
                child_coord(x, ((idx as usize) & 4) >> 2, (MAX_DEPTH - depth - 1) as usize),
                child_coord(y, ((idx as usize) & 2) >> 1, (MAX_DEPTH - depth - 1) as usize),
                child_coord(z, (idx as usize) & 1, (MAX_DEPTH - depth - 1) as usize),
            ).contains(e);
        let s = (MAX_DEPTH - depth - 1) as usize;
        let iu = idx as usize;
        let c = *node.children@[idx]->0;
        let bx = (iu & 4) >> 2;
        let by = (iu & 2) >> 1;
        let bz = iu & 1;
        lemma_index_bits(iu);
        lemma_child_corner(x, bx, s);
        lemma_child_corner(y, by, s);
        lemma_child_corner(z, bz, s);
        let d1 = (depth + 1) as usize;
        assert((MAX_DEPTH - d1) as usize == s);
        assert((MAX_DEPTH - depth) as usize == (s + 1) as usize);
        lemma_leaf_visit_has_path(c, d1, child_coord(x, bx, s), child_coord(y, by, s), child_coord(z, bz, s), e);
        lemma_corner_back(e.2, x, bx, s);
        lemma_corner_back(e.3, y, by, s);
        lemma_corner_back(e.4, z, bz, s);
        assert(octant(e.2, e.3, e.4, depth as int) == iu);
        assert(node.children@[octant(e.2, e.3, e.4, depth as int) as int] == Some(Box::new(c)));
    }
}

/// Every node at `MAX_DEPTH` that the depth-first traversal visits is the
/// cell of an occupied point: its corner is a point (each coordinate below
/// 2^16) whose path the octree holds. With `law_occupied_cell_is_visited`,
/// the leaves visited are exactly the occupied cells.
pub proof fn law_visited_leaf_is_occupied(svo: SparseVoxelOctree, e: VisitView)
    requires
        preorder(svo.root, 0, 0, 0, 0).contains(e),
        e.1 == MAX_DEPTH,
    ensures
        svo.occupied(e.2, e.3, e.4),
        e.2 < 65536 && e.3 < 65536 && e.4 < 65536,
{
    lemma_corner_ends(0);
    assert(corner(0, 0) == 0);
    lemma_leaf_visit_has_path(svo.root, 0, 0, 0, 0, e);
    lemma_corner_ends(e.2);
    lemma_corner_ends(e.3);
    lemma_corner_ends(e.4);
    lemma_corner_low(e.2);
    lemma_corner_low(e.3);
    lemma_corner_low(e.4);
}

} // verus!

verus! {

/// Morton (Z-order) comparison of two points from `depth` down: at the first
/// level where their octants differ, the first point's octant is the
/// smaller. (An octant holds the x bit above the y bit above the z bit, so
/// this is the order of the points' interleaved bit codes.)
pub open spec fn morton_before(x: usize, y: usize, z: usize, x2: usize, y2: usize, z2: usize, depth: int) -> bool
    decreases MAX_DEPTH - depth,
{
    if depth >= MAX_DEPTH {
        false
    } else if octant(x, y, z, depth) < octant(x2, y2, z2, depth) {
        true
    } else if octant(x, y, z, depth) == octant(x2, y2, z2, depth) {
        morton_before(x, y, z, x2, y2, z2, depth + 1)
    } else {
        false
    }
}

/// Whether a visit is one of a node at `MAX_DEPTH`, the cell of a point.
pub open spec fn is_leaf_visit(e: VisitView) -> bool {
    e.1 == MAX_DEPTH
}

/// The leaf visits of `s` come in Morton order, comparing from `depth` down.
pub open spec fn leaves_sorted(s: Seq<VisitView>, depth: int) -> bool {
    forall|p: int, q: int|
        #![trigger s[p], s[q]]
        0 <= p < q < s.len() && is_leaf_visit(s[p]) && is_leaf_visit(s[q])
            ==> morton_before(s[p].2, s[p].3, s[p].4, s[q].2, s[q].3, s[q].4, depth)
}

proof fn lemma_leaf_octant(
    c: OctreeNode,
    depth: usize,
    x: usize,
    y: usize,
    z: usize,
    idx: usize,
    e: VisitView,
)
    requires
        depth < MAX_DEPTH,
        idx < 8,
        x == corner(x, depth as int),
        y == corner(y, depth as int),
        z == corner(z, depth as int),
        is_leaf_visit(e),
        preorder(
            c,
            (depth + 1) as usize,
            child_coord(x, (idx & 4) >> 2, (MAX_DEPTH - depth - 1) as usize),
            child_coord(y, (idx & 2) >> 1, (MAX_DEPTH - depth - 1) as usize),
            child_coord(z, idx & 1, (MAX_DEPTH - depth - 1) as usize),
        ).contains(e),
    ensures
        octant(e.2, e.3, e.4, depth as int) == idx,
{
    let s = (MAX_DEPTH - depth - 1) as usize;
    let bx = (idx & 4) >> 2;
    let by = (idx & 2) >> 1;
    let bz = idx & 1;
    lemma_index_bits(idx);
    lemma_child_corner(x, bx, s);
    lemma_child_corner(y, by, s);
    lemma_child_corner(z, bz, s);
    let d1 = (depth + 1) as usize;
    assert((MAX_DEPTH - d1) as usize == s);
    assert((MAX_DEPTH - depth) as usize == (s + 1) as usize);
    lemma_leaf_visit_has_path(c, d1, child_coord(x, bx, s), child_coord(y, by, s), child_coord(z, bz, s), e);
    lemma_corner_back(e.2, x, bx, s);
    lemma_corner_back(e.3, y, by, s);
    lemma_corner_back(e.4, z, bz, s);
}

proof fn lemma_sorted_concat(a: Seq<VisitView>, b: Seq<VisitView>, depth: int)
    requires
        leaves_sorted(a, depth),
        leaves_sorted(b, depth),
        forall|p: int, q: int|
            #![trigger a[p], b[q]]
            0 <= p < a.len() && 0 <= q < b.len() && is_leaf_visit(a[p]) && is_leaf_visit(b[q])
                ==> morton_before(a[p].2, a[p].3, a[p].4, b[q].2, b[q].3, b[q].4, depth),
    ensures
        leaves_sorted(a + b, depth),
{
    let s = a + b;
    assert forall|p: int, q: int|
        #![trigger s[p], s[q]]
        0 <= p < q < s.len() && is_leaf_visit(s[p]) && is_leaf_visit(s[q])
            implies morton_before(s[p].2, s[p].3, s[p].4, s[q].2, s[q].3, s[q].4, depth) by {
        if q < a.len() {
            assert(s[p] == a[p] && s[q] == a[q]);
        } else if p >= a.len() {
            assert(s[p] == b[p - a.len()] && s[q] == b[q - a.len()]);
        } else {
            assert(s[p] == a[p] && s[q] == b[q - a.len()]);
        }
    }
}

proof fn lemma_preorder_sorted(node: OctreeNode, depth: usize, x: usize, y: usize, z: usize)
    requires
        depth <= MAX_DEPTH,
        x == corner(x, depth as int),
        y == corner(y, depth as int),
        z == corner(z, depth as int),
    ensures
        leaves_sorted(preorder(node, depth, x, y, z), depth as int),
    decreases MAX_DEPTH - depth, 9int,
{
    let me = (node, depth, x, y, z);
    if depth < MAX_DEPTH {
        lemma_subtrees_sorted(node, depth, x, y, z, 0);
        let sub = subtrees_from(node, depth, x, y, z, 0);
        assert(preorder(node, depth, x, y, z) == seq![me] + sub);
        assert(!is_leaf_visit(me));
        lemma_sorted_concat(seq![me], sub, depth as int);
    } else {
        assert(preorder(node, depth, x, y, z) =~= seq![me]);
    }
}

proof fn lemma_subtrees_sorted(node: OctreeNode, depth: usize, x: usize, y: usize, z: usize, i: int)
    requires
        depth < MAX_DEPTH,
        0 <= i <= 8,
        x == corner(x, depth as int),
        y == corner(y, depth as int),
        z == corner(z, depth as int),
    ensures
        leaves_sorted(subtrees_from(node, depth, x, y, z, i), depth as int),
        forall|p: int|
            0 <= p < subtrees_from(node, depth, x, y, z, i).len() && is_leaf_visit(
                #[trigger] subtrees_from(node, depth, x, y, z, i)[p],
            ) ==> octant(
                subtrees_from(node, depth, x, y, z, i)[p].2,
                subtrees_from(node, depth, x, y, z, i)[p].3,
                subtrees_from(node, depth, x, y, z, i)[p].4,
                depth as int,
            ) >= i,
    decreases MAX_DEPTH - depth, 8 - i,
{
    let d = depth as int;
    if i < 8 {
        let shift = (MAX_DEPTH - depth - 1) as usize;
        let iu = i as usize;
        let cx = child_coord(x, (iu & 4) >> 2, shift);
        let cy = child_coord(y, (iu & 2) >> 1, shift);
        let cz = child_coord(z, iu & 1, shift);
        let here = match node.children@[i] {
            Some(c) => preorder(*c, (depth + 1) as usize, cx, cy, cz),
            None => Seq::empty(),
        };
        let rest = subtrees_from(node, depth, x, y, z, i + 1);
        let all = subtrees_from(node, depth, x, y, z, i);
        assert(all == here + rest);
        lemma_subtrees_sorted(node, depth, x, y, z, i + 1);
        // leaves of `here` lie in octant i, and come in order
        assert forall|p: int| 0 <= p < here.len() && is_leaf_visit(#[trigger] here[p])
            implies octant(here[p].2, here[p].3, here[p].4, d) == i by {
            let c = *node.children@[i]->0;
            assert(here.contains(here[p]));
            lemma_leaf_octant(c, depth, x, y, z, iu, here[p]);
        }
        if node.children@[i] is Some {
            let c = *node.children@[i]->0;
            lemma_index_bits(iu);
            lemma_child_corner(x, (iu & 4) >> 2, shift);
            lemma_child_corner(y, (iu & 2) >> 1, shift);
            lemma_child_corner(z, iu & 1, shift);
            assert((MAX_DEPTH - (depth + 1)) as usize == shift);
            assert((MAX_DEPTH - depth) as usize == (shift + 1) as usize);
            lemma_preorder_sorted(c, (depth + 1) as usize, cx, cy, cz);
        }
        assert(leaves_sorted(here, d)) by {
            assert forall|p: int, q: int|
                #![trigger here[p], here[q]]
                0 <= p < q < here.len() && is_leaf_visit(here[p]) && is_leaf_visit(here[q])
                    implies morton_before(here[p].2, here[p].3, here[p].4, here[q].2, here[q].3, here[q].4, d) by {
                assert(morton_before(here[p].2, here[p].3, here[p].4, here[q].2, here[q].3, here[q].4, d + 1));
                assert(octant(here[p].2, here[p].3, here[p].4, d) == octant(here[q].2, here[q].3, here[q].4, d));
            }
        }
        assert forall|p: int, q: int|
            #![trigger here[p], rest[q]]
            0 <= p < here.len() && 0 <= q < rest.len() && is_leaf_visit(here[p]) && is_leaf_visit(rest[q])
                implies morton_before(here[p].2, here[p].3, here[p].4, rest[q].2, rest[q].3, rest[q].4, d) by {
            assert(octant(here[p].2, here[p].3, here[p].4, d) == i);
            assert(octant(rest[q].2, rest[q].3, rest[q].4, d) >= i + 1);
        }
        lemma_sorted_concat(here, rest, d);
        assert forall|p: int|
            0 <= p < all.len() && is_leaf_visit(#[trigger] all[p])
                implies octant(all[p].2, all[p].3, all[p].4, d) >= i by {
            if p < here.len() {
                assert(all[p] == here[p]);
            } else {
                assert(all[p] == rest[p - here.len()]);
            }
        }
    } else {
        assert(subtrees_from(node, depth, x, y, z, i) =~= Seq::<VisitView>::empty());
    }
}

/// The depth-first traversal visits the cells of the octree in Morton
/// (Z-order) order: of any two leaf visits, the earlier one's point comes
/// first in Morton order.
pub proof fn law_leaves_in_morton_order(svo: SparseVoxelOctree)
    ensures
        leaves_sorted(preorder(svo.root, 0, 0, 0, 0), 0),
{
    lemma_corner_ends(0);
    assert(corner(0, 0) == 0);
    lemma_preorder_sorted(svo.root, 0, 0, 0, 0);
}

} // verus!
