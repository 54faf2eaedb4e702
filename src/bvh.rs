use vstd::prelude::*;

use crate::aabb::{lemma_contains_trans, lemma_union_bounds, Aabb, Key3};

verus! {

/// What the hierarchy reads of one object: its box, twice its centre on each
/// axis (the sum of its least and greatest coordinate, as an order key), and
/// whether it has no finite box (a plane).
#[derive(Clone, Copy, Debug)]
pub struct ObjectBounds {
    pub aabb: Aabb,
    pub center2: Key3,
    pub unbounded: bool,
}

/// One node of the hierarchy: its box, the indices of its two children if it
/// has any, and the half-open range of objects it holds directly.
#[derive(Clone, Copy, Debug)]
pub struct Node {
    pub aabb: Aabb,
    pub children: Option<(usize, usize)>,
    pub first_obj_idx: usize,
    pub last_obj_idx: usize,
}

/// A split chosen for a node: objects whose doubled centre on `axis` is
/// below `value` go to the left child.
#[derive(Clone, Copy, Debug)]
pub struct Split {
    pub axis: usize,
    pub value: i32,
}

/// A node still to be built over the objects in `[first, last)`.
#[derive(Clone, Copy, Debug)]
pub struct Task {
    pub node: usize,
    pub first: usize,
    pub last: usize,
}

/// The test by which objects are moved to the front of a range.
#[derive(Clone, Copy, Debug)]
pub enum SplitRule {
    Unbounded,
    Below(Split),
}

/// Which part of the building hierarchy an object index belongs to.
pub ghost enum Owner {
    Node(int),
    Task(int),
}

/// A bounding volume hierarchy over objects of type `G`. Objects are kept in
/// one array, permuted once while building; the leaves hold ranges of it.
/// Objects without a finite box are held by the root itself.
pub struct Bvh<G> {
    nodes: Vec<Node>,
    root: usize,
    objects: Vec<(G, ObjectBounds)>,
    leaves_cnt: usize,
    n_unbounded: usize,
}

/// Builds a `Bvh` one node at a time. For each pending node the caller
/// chooses a split (or none); the builder partitions the objects and
/// allocates the children.
pub struct BvhBuilder<G> {
    bvh: Bvh<G>,
    pending: Vec<Task>,
    owner: Ghost<Seq<Owner>>,
    input: Ghost<Seq<(G, ObjectBounds)>>,
}

pub open spec fn in_range(n: Node, i: int) -> bool {
    n.first_obj_idx <= i < n.last_obj_idx
}

pub open spec fn rule_holds(rule: SplitRule, b: ObjectBounds) -> bool {
    match rule {
        SplitRule::Unbounded => b.unbounded,
        SplitRule::Below(s) => s.axis < 3 && b.center2[s.axis as int] < s.value,
    }
}

impl SplitRule {
    pub fn holds(&self, b: &ObjectBounds) -> (r: bool)
        ensures
            r == rule_holds(*self, *b),
    {
        match self {
            SplitRule::Unbounded => b.unbounded,
            SplitRule::Below(s) => s.axis < 3 && b.center2[s.axis] < s.value,
        }
    }
}

/// Relies on itertools::partition: it only swaps items of the range, puts
/// those for which the predicate holds first and returns how many they are.
#[verifier::external_body]
fn partition_range<G>(objects: &mut Vec<(G, ObjectBounds)>, first: usize, last: usize, rule: SplitRule) -> (k: usize)
    requires
        first <= last <= old(objects)@.len(),
    ensures
        final(objects)@.len() == old(objects)@.len(),
        k <= last - first,
        forall|i: int| 0 <= i < first || last <= i < old(objects)@.len() ==> #[trigger] final(objects)@[i] == old(objects)@[i],
        final(objects)@.subrange(first as int, last as int).to_multiset()
            == old(objects)@.subrange(first as int, last as int).to_multiset(),
        forall|i: int| first <= i < first + k ==> rule_holds(rule, #[trigger] final(objects)@[i].1),
        forall|i: int| first + k <= i < last ==> !rule_holds(rule, #[trigger] final(objects)@[i].1),
{
    itertools::partition(&mut objects[first..last], |o| rule.holds(&o.1))
}

/// Items of a range that was permuted are items of the range before.
proof fn lemma_permuted_member<T>(old_s: Seq<T>, new_s: Seq<T>, first: int, last: int, i: int) -> (j: int)
    requires
        0 <= first <= i < last <= old_s.len(),
        old_s.len() == new_s.len(),
        new_s.subrange(first, last).to_multiset() == old_s.subrange(first, last).to_multiset(),
    ensures
        first <= j < last,
        old_s[j] == new_s[i],
{
    broadcast use vstd::seq_lib::group_to_multiset_ensures;
    let a = new_s.subrange(first, last);
    let b = old_s.subrange(first, last);
    assert(a[i - first] == new_s[i]);
    assert(a.contains(new_s[i]));
    assert(b.to_multiset().count(new_s[i]) > 0);
    assert(b.contains(new_s[i]));
    let jj = choose|jj: int| 0 <= jj < b.len() && b[jj] == new_s[i];
    jj + first
}

/// Permuting a range keeps the multiset of the whole sequence.
proof fn lemma_permuted_whole<T>(old_s: Seq<T>, new_s: Seq<T>, first: int, last: int)
    requires
        0 <= first <= last <= old_s.len(),
        old_s.len() == new_s.len(),
        new_s.subrange(first, last).to_multiset() == old_s.subrange(first, last).to_multiset(),
        forall|i: int| 0 <= i < first || last <= i < old_s.len() ==> #[trigger] new_s[i] == old_s[i],
    ensures
        new_s.to_multiset() == old_s.to_multiset(),
{
    broadcast use vstd::seq_lib::lemma_multiset_commutative;
    let n = old_s.len() as int;
    assert(old_s == old_s.subrange(0, first) + old_s.subrange(first, last) + old_s.subrange(last, n));
    assert(new_s == new_s.subrange(0, first) + new_s.subrange(first, last) + new_s.subrange(last, n));
    assert(new_s.subrange(0, first) == old_s.subrange(0, first));
    assert(new_s.subrange(last, n) == old_s.subrange(last, n));
}

/// The smallest box holding the boxes of the objects in `[first, last)`.
pub open spec fn union_of<G>(objs: Seq<(G, ObjectBounds)>, first: int, last: int) -> Aabb
    decreases last - first,
{
    if last <= first {
        Aabb::spec_empty()
    } else {
        union_of(objs, first, last - 1).spec_union(&objs[last - 1].1.aabb)
    }
}

/// The union of a range holds each box of the range, and lies in any box
/// that holds them all.
pub proof fn lemma_union_of_bounds<G>(objs: Seq<(G, ObjectBounds)>, first: int, last: int, c: Aabb)
    requires
        0 <= first <= last <= objs.len(),
    ensures
        forall|i: int| first <= i < last ==> union_of(objs, first, last).spec_contains(&(#[trigger] objs[i]).1.aabb),
        (forall|i: int| first <= i < last ==> c.spec_contains(&(#[trigger] objs[i]).1.aabb))
            ==> c.spec_contains(&union_of(objs, first, last)),
    decreases last - first,
{
    if last > first {
        lemma_union_of_bounds(objs, first, last - 1, c);
        let u = union_of(objs, first, last - 1);
        lemma_union_bounds(u, objs[last - 1].1.aabb, c);
        assert forall|i: int| first <= i < last implies union_of(objs, first, last).spec_contains(
            &(#[trigger] objs[i]).1.aabb,
        ) by {
            if i < last - 1 {
                lemma_contains_trans(union_of(objs, first, last), u, objs[i].1.aabb);
            }
        }
    }
}

/// The number of nodes on the longest path from node `j` down to a leaf.
/// Children are followed only when they come after their parent, as they
/// always do in a built hierarchy.
pub open spec fn spec_depth(nodes: Seq<Node>, j: int) -> nat
    decreases nodes.len() - j,
{
    if 0 <= j < nodes.len() {
        match nodes[j].children {
            Some((l, r)) => if j < l < nodes.len() && j < r < nodes.len() {
                let a = spec_depth(nodes, l as int);
                let b = spec_depth(nodes, r as int);
                1 + if a >= b { a } else { b }
            } else {
                1
            },
            None => 1,
        }
    } else {
        1
    }
}

impl<G> Bvh<G> {
    /// The union of the boxes of the objects in `[first, last)`.
    fn range_box(&self, first: usize, last: usize) -> (r: Aabb)
        requires
            first <= last <= self.objects@.len(),
        ensures
            r == union_of(self.objects@, first as int, last as int),
    {
        let mut acc = Aabb::empty();
        let mut i = first;
        while i < last
            invariant
                first <= i <= last <= self.objects@.len(),
                acc == union_of(self.objects@, first as int, i as int),
            decreases last - i,
        {
            acc.extend(&self.objects[i].1.aabb);
            i = i + 1;
        }
        acc
    }

    pub closed spec fn spec_nodes(&self) -> Seq<Node> {
        self.nodes@
    }

    pub closed spec fn spec_objects(&self) -> Seq<(G, ObjectBounds)> {
        self.objects@
    }

    pub closed spec fn spec_root(&self) -> int {
        self.root as int
    }

    /// How many objects, from the front of the array, are held by the root
    /// because they have no finite box.
    pub closed spec fn spec_n_unbounded(&self) -> int {
        self.n_unbounded as int
    }

    /// Some node holds object index `i` in its range.
    pub open spec fn is_covered(&self, i: int) -> bool {
        exists|j: int| 0 <= j < self.spec_nodes().len() && #[trigger] in_range(self.spec_nodes()[j], i)
    }

    /// Every object index lies in the range of exactly one node, and no
    /// range reaches past the objects.
    pub open spec fn leaves_cover(&self) -> bool {
        &&& forall|i: int| 0 <= i < self.spec_objects().len() ==> #[trigger] self.is_covered(i)
        &&& forall|j: int, k: int, i: int|
            0 <= j < self.spec_nodes().len() && 0 <= k < self.spec_nodes().len()
                && #[trigger] in_range(self.spec_nodes()[j], i) && #[trigger] in_range(self.spec_nodes()[k], i)
                ==> j == k
        &&& forall|j: int, i: int| 0 <= j < self.spec_nodes().len() && #[trigger] in_range(self.spec_nodes()[j], i)
            ==> 0 <= i < self.spec_objects().len()
    }

    /// Children are nodes of the hierarchy, and a node's box holds its
    /// children's boxes and the boxes of the bounded objects it holds.
    pub open spec fn nested_boxes(&self) -> bool {
        &&& forall|j: int| 0 <= j < self.spec_nodes().len() && (#[trigger] self.spec_nodes()[j]).children is Some ==> {
            let (l, r) = self.spec_nodes()[j].children->0;
            &&& l < self.spec_nodes().len() && r < self.spec_nodes().len()
            &&& self.spec_nodes()[j].aabb.spec_contains(&self.spec_nodes()[l as int].aabb)
            &&& self.spec_nodes()[j].aabb.spec_contains(&self.spec_nodes()[r as int].aabb)
        }
        &&& forall|j: int, i: int|
            0 <= j < self.spec_nodes().len() && #[trigger] in_range(self.spec_nodes()[j], i)
                && !self.spec_objects()[i].1.unbounded ==> self.spec_nodes()[j].aabb.spec_contains(
                &self.spec_objects()[i].1.aabb,
            )
    }

    /// The objects without a finite box are exactly the first
    /// `spec_n_unbounded()` ones.
    pub open spec fn unbounded_first(&self) -> bool {
        &&& 0 <= self.spec_n_unbounded() <= self.spec_objects().len()
        &&& forall|i: int| 0 <= i < self.spec_objects().len()
            ==> (i < self.spec_n_unbounded() <==> (#[trigger] self.spec_objects()[i]).1.unbounded)
    }

    /// A node with children holds no objects, except that the root holds
    /// the unbounded ones; children come after their parent.
    pub open spec fn internal_ranges(&self) -> bool {
        forall|j: int| 0 <= j < self.spec_nodes().len() && (#[trigger] self.spec_nodes()[j]).children is Some ==> {
            let (l, r) = self.spec_nodes()[j].children->0;
            &&& j < l && j < r
            &&& j == self.spec_root() ==> self.spec_nodes()[j].first_obj_idx == 0
                && self.spec_nodes()[j].last_obj_idx == self.spec_n_unbounded()
            &&& j != self.spec_root() ==> self.spec_nodes()[j].first_obj_idx == self.spec_nodes()[j].last_obj_idx
        }
    }

    /// Some leaf holds object index `i` in its range.
    pub open spec fn in_some_leaf(&self, i: int) -> bool {
        exists|j: int|
            0 <= j < self.spec_nodes().len() && self.spec_nodes()[j].children is None
                && #[trigger] in_range(self.spec_nodes()[j], i)
    }

    /// Every object with a finite box lies in the range of exactly one
    /// leaf, leaf ranges are disjoint and lie within the objects, and each
    /// leaf's box holds the boxes of its bounded objects.
    pub open spec fn leaves_partition(&self) -> bool {
        &&& forall|i: int| 0 <= i < self.spec_objects().len() && !self.spec_objects()[i].1.unbounded
            ==> #[trigger] self.in_some_leaf(i)
        &&& forall|j: int, k: int, i: int|
            0 <= j < self.spec_nodes().len() && 0 <= k < self.spec_nodes().len()
                && #[trigger] in_range(self.spec_nodes()[j], i) && #[trigger] in_range(self.spec_nodes()[k], i)
                ==> j == k
        &&& forall|j: int, i: int| 0 <= j < self.spec_nodes().len() && #[trigger] in_range(self.spec_nodes()[j], i)
            ==> 0 <= i < self.spec_objects().len()
        &&& forall|j: int, i: int|
            0 <= j < self.spec_nodes().len() && self.spec_nodes()[j].children is None
                && #[trigger] in_range(self.spec_nodes()[j], i) && !self.spec_objects()[i].1.unbounded
                ==> self.spec_nodes()[j].aabb.spec_contains(&self.spec_objects()[i].1.aabb)
    }

    pub closed spec fn wf(&self) -> bool {
        &&& self.leaves_cover()
        &&& self.nested_boxes()
        &&& self.unbounded_first()
        &&& self.internal_ranges()
        &&& self.root == 0
        &&& 0 < self.nodes@.len()
        &&& self.n_unbounded <= self.objects@.len()
        &&& self.leaves_cnt <= self.nodes@.len()
    }

    /// The object at position `object_idx` of the permuted array.
    pub fn get_object(&self, object_idx: usize) -> (r: &G)
        requires
            object_idx < self.spec_objects().len(),
        ensures
            *r == self.spec_objects()[object_idx as int].0,
    {
        &self.objects[object_idx].0
    }

    /// The bounds of the object at position `object_idx`.
    pub fn get_bounds(&self, object_idx: usize) -> (r: ObjectBounds)
        requires
            object_idx < self.spec_objects().len(),
        ensures
            r == self.spec_objects()[object_idx as int].1,
    {
        self.objects[object_idx].1
    }

    pub fn get_n_objects(&self) -> (r: usize)
        ensures
            r == self.spec_objects().len(),
    {
        self.objects.len()
    }

    pub fn get_node(&self, node_idx: usize) -> (r: Node)
        requires
            node_idx < self.spec_nodes().len(),
        ensures
            r == self.spec_nodes()[node_idx as int],
    {
        self.nodes[node_idx]
    }

    pub fn get_n_nodes(&self) -> (r: usize)
        ensures
            r == self.spec_nodes().len(),
    {
        self.nodes.len()
    }

    pub fn get_root(&self) -> (r: usize)
        ensures
            r == self.spec_root(),
    {
        self.root
    }

    /// Checks the hierarchy: each object index lies in the range of exactly
    /// one node, children exist and lie in their parent's box, and each node's
    /// box holds the bounded objects of its range.
    pub fn check_bvh(&self) -> (r: bool)
        ensures
            r == (self.leaves_cover() && self.nested_boxes()),
    {
        let n = self.objects.len();
        let mut mask: Vec<Option<usize>> = Vec::new();
        let mut m: usize = 0;
        while m < n
            invariant
                m <= n == self.objects@.len(),
                mask@.len() == m,
                forall|i: int| 0 <= i < m ==> mask@[i] is None,
            decreases n - m,
        {
            mask.push(None);
            m = m + 1;
        }
        let ghost nodes = self.nodes@;
        let ghost objs = self.objects@;
        let mut j: usize = 0;
        while j < self.nodes.len()
            invariant
                n == objs.len(),
                nodes == self.nodes@,
                objs == self.objects@,
                j <= nodes.len(),
                mask@.len() == n,
                forall|i: int| 0 <= i < n && (#[trigger] mask@[i]) is Some ==> {
                    let jj = mask@[i]->0 as int;
                    0 <= jj < j && in_range(nodes[jj], i)
                },
                forall|jj: int, i: int| 0 <= jj < j && #[trigger] in_range(nodes[jj], i)
                    ==> 0 <= i < n && mask@[i] == Some(jj as usize),
                forall|jj: int| 0 <= jj < j && (#[trigger] nodes[jj]).children is Some ==> {
                    let (l, r) = nodes[jj].children->0;
                    &&& l < nodes.len() && r < nodes.len()
                    &&& nodes[jj].aabb.spec_contains(&nodes[l as int].aabb)
                    &&& nodes[jj].aabb.spec_contains(&nodes[r as int].aabb)
                },
                forall|jj: int, i: int|
                    0 <= jj < j && #[trigger] in_range(nodes[jj], i) && !objs[i].1.unbounded
                        ==> nodes[jj].aabb.spec_contains(&objs[i].1.aabb),
            decreases nodes.len() - j,
        {
            let node = self.nodes[j];
            if let Some((l, r)) = node.children {
                if l >= self.nodes.len() || r >= self.nodes.len() {
                    return false;
                }
                if !node.aabb.contains(&self.nodes[l].aabb) || !node.aabb.contains(&self.nodes[r].aabb) {
                    return false;
                }
            }
            let mut idx = node.first_obj_idx;
            while idx < node.last_obj_idx
                invariant
                    n == objs.len(),
                    nodes == self.nodes@,
                    objs == self.objects@,
                    j < nodes.len(),
                    node == nodes[j as int],
                    node.first_obj_idx <= idx,
                    idx == node.first_obj_idx || idx <= node.last_obj_idx,
                    mask@.len() == n,
                    forall|i: int| 0 <= i < n && (#[trigger] mask@[i]) is Some ==> {
                        let jj = mask@[i]->0 as int;
                        (0 <= jj < j && in_range(nodes[jj], i)) || (jj == j && node.first_obj_idx <= i < idx)
                    },
                    forall|jj: int, i: int| 0 <= jj < j && #[trigger] in_range(nodes[jj], i)
                        ==> 0 <= i < n && mask@[i] == Some(jj as usize),
                    forall|i: int| node.first_obj_idx <= i < idx ==> i < n && #[trigger] mask@[i] == Some(j),
                    forall|i: int|
                        node.first_obj_idx <= i < idx && !objs[i].1.unbounded
                            ==> 0 <= i < n && node.aabb.spec_contains(&(#[trigger] objs[i]).1.aabb),
                decreases node.last_obj_idx - idx,
            {
                if idx >= n {
                    assert(in_range(nodes[j as int], idx as int));
                    return false;
                }
                if mask[idx].is_some() {
                    let ghost jj = mask@[idx as int]->0 as int;
                    assert(in_range(nodes[jj], idx as int));
                    assert(in_range(nodes[j as int], idx as int));
                    return false;
                }
                if !self.objects[idx].1.unbounded && !node.aabb.contains(&self.objects[idx].1.aabb) {
                    assert(in_range(nodes[j as int], idx as int));
                    return false;
                }
                mask[idx] = Some(j);
                idx = idx + 1;
            }
            proof {
                assert forall|i: int| 0 <= i < n && (#[trigger] mask@[i]) is Some implies {
                    let jj = mask@[i]->0 as int;
                    0 <= jj < j + 1 && in_range(nodes[jj], i)
                } by {
                }
                assert forall|jj: int, i: int| 0 <= jj < j + 1 && #[trigger] in_range(nodes[jj], i)
                    implies 0 <= i < n && mask@[i] == Some(jj as usize) by {
                    if jj == j {
                        assert(node.first_obj_idx <= i < idx);
                        assert(mask@[i] == Some(j));
                    } else {
                        assert(0 <= jj < j);
                    }
                }
            }
            j = j + 1;
        }
        let mut i: usize = 0;
        while i < n
            invariant
                i <= n == objs.len(),
                nodes == self.nodes@,
                objs == self.objects@,
                mask@.len() == n,
                j == nodes.len(),
                forall|jj: int, i: int| 0 <= jj < j && #[trigger] in_range(nodes[jj], i)
                    ==> 0 <= i < n && mask@[i] == Some(jj as usize),
                forall|k: int| 0 <= k < n && (#[trigger] mask@[k]) is Some ==> {
                    let jj = mask@[k]->0 as int;
                    0 <= jj < j && in_range(nodes[jj], k)
                },
                forall|k: int| 0 <= k < i ==> (#[trigger] mask@[k]) is Some,
            decreases n - i,
        {
            if mask[i].is_none() {
                assert(j == nodes.len());
                assert forall|jj: int| 0 <= jj < nodes.len() implies !#[trigger] in_range(self.spec_nodes()[jj], i as int) by {
                    if in_range(nodes[jj], i as int) {
                        assert(mask@[i as int] == Some(jj as usize));
                    }
                }
                assert(!self.is_covered(i as int));
                return false;
            }
            i = i + 1;
        }
        proof {
            assert forall|k: int| 0 <= k < n implies #[trigger] self.is_covered(k) by {
                assert(mask@[k] is Some);
                let jj = mask@[k]->0 as int;
                assert(in_range(self.spec_nodes()[jj], k));
            }
        }
        true
    }

    /// The depth of the subtree under `node_idx`: one for a leaf, else one
    /// more than the deeper child.
    pub fn depth(&self, node_idx: usize) -> (r: usize)
        requires
            node_idx < self.spec_nodes().len(),
        ensures
            r == spec_depth(self.spec_nodes(), node_idx as int),
            1 <= r <= self.spec_nodes().len() - node_idx,
        decreases self.spec_nodes().len() - node_idx,
    {
        match self.nodes[node_idx].children {
            Some((l, r)) => {
                if node_idx < l && l < self.nodes.len() && node_idx < r && r < self.nodes.len() {
                    let a = self.depth(l);
                    let b = self.depth(r);
                    if a >= b {
                        a + 1
                    } else {
                        b + 1
                    }
                } else {
                    1
                }
            },
            None => 1,
        }
    }

    pub closed spec fn spec_leaves_cnt(&self) -> int {
        self.leaves_cnt as int
    }

    /// How many leaves were made while building.
    pub fn get_leaves_cnt(&self) -> (r: usize)
        ensures
            r == self.spec_leaves_cnt(),
    {
        self.leaves_cnt
    }
}

pub open spec fn in_task(t: Task, i: int) -> bool {
    t.first <= i < t.last
}

pub open spec fn is_child(n: Node, c: int) -> bool {
    match n.children {
        Some((l, r)) => l == c || r == c,
        None => false,
    }
}

pub open spec fn owner_ok(o: Owner, i: int, nodes: Seq<Node>, pend: Seq<Task>) -> bool {
    match o {
        Owner::Node(j) => 0 <= j < nodes.len() && in_range(nodes[j], i),
        Owner::Task(k) => 0 <= k < pend.len() && in_task(pend[k], i),
    }
}

impl<G> BvhBuilder<G> {
    pub closed spec fn spec_pending(&self) -> Seq<Task> {
        self.pending@
    }

    pub closed spec fn spec_bvh(&self) -> Bvh<G> {
        self.bvh
    }

    /// The objects the builder was made with.
    pub closed spec fn spec_input(&self) -> Seq<(G, ObjectBounds)> {
        self.input@
    }

    /// Object ownership: each object index belongs to one node range or one
    /// pending task range.
    spec fn inv_owner(&self) -> bool {
        let nodes = self.bvh.nodes@;
        let objs = self.bvh.objects@;
        let o = self.owner@;
        let pend = self.pending@;
        &&& o.len() == objs.len()
        &&& forall|j: int, i: int| 0 <= j < nodes.len() && #[trigger] in_range(nodes[j], i)
            ==> 0 <= i < objs.len() && o[i] == Owner::Node(j)
        &&& forall|k: int| 0 <= k < pend.len() ==> {
            &&& (#[trigger] pend[k]).first <= pend[k].last <= objs.len()
            &&& pend[k].node < nodes.len()
            &&& self.bvh.n_unbounded <= pend[k].first
        }
        &&& forall|k: int, i: int| 0 <= k < pend.len() && #[trigger] in_task(pend[k], i) ==> o[i] == Owner::Task(k)
        &&& forall|i: int| 0 <= i < objs.len() ==> #[trigger] owner_ok(o[i], i, nodes, pend)
    }

    /// Pending nodes are blank and distinct; only the root holds objects
    /// before it is built, the unbounded ones in front of its task.
    spec fn inv_pending(&self) -> bool {
        let nodes = self.bvh.nodes@;
        let pend = self.pending@;
        &&& forall|k: int| 0 <= k < pend.len() ==> {
            &&& nodes[(#[trigger] pend[k]).node as int].children is None
            &&& nodes[pend[k].node as int].aabb == Aabb::spec_empty()
            &&& pend[k].node == 0 ==> nodes[0].first_obj_idx == 0 && nodes[0].last_obj_idx == pend[k].first
                && pend[k].first == self.bvh.n_unbounded
            &&& pend[k].node != 0 ==> nodes[pend[k].node as int].first_obj_idx == nodes[pend[k].node as int].last_obj_idx
        }
        &&& forall|k1: int, k2: int| 0 <= k1 < pend.len() && 0 <= k2 < pend.len() && k1 != k2
            ==> #[trigger] pend[k1].node != #[trigger] pend[k2].node
    }

    /// Boxes: children are nested in parents, leaves hold their bounded
    /// objects, and the objects of a pending task lie in the box of any node
    /// that has the task's node as a child.
    spec fn inv_boxes(&self) -> bool {
        let nodes = self.bvh.nodes@;
        let objs = self.bvh.objects@;
        let pend = self.pending@;
        &&& forall|j: int| 0 <= j < nodes.len() && (#[trigger] nodes[j]).children is Some ==> {
            let (l, r) = nodes[j].children->0;
            &&& l < nodes.len() && r < nodes.len()
            &&& nodes[j].aabb.spec_contains(&nodes[l as int].aabb)
            &&& nodes[j].aabb.spec_contains(&nodes[r as int].aabb)
            &&& j < l && j < r
            &&& j == 0 ==> nodes[j].first_obj_idx == 0 && nodes[j].last_obj_idx == self.bvh.n_unbounded
            &&& j != 0 ==> nodes[j].first_obj_idx == nodes[j].last_obj_idx
        }
        &&& forall|j: int, i: int| 0 <= j < nodes.len() && #[trigger] in_range(nodes[j], i) && self.bvh.n_unbounded <= i
            ==> nodes[j].aabb.spec_contains(&objs[i].1.aabb)
        &&& forall|k: int, j: int, i: int|
            0 <= k < pend.len() && 0 <= j < nodes.len() && #[trigger] in_task(pend[k], i)
                && #[trigger] is_child(nodes[j], pend[k].node as int)
                ==> nodes[j].aabb.spec_contains(&objs[i].1.aabb)
    }

    /// The builder's invariant.
    pub closed spec fn inv(&self) -> bool {
        &&& self.bvh.root == 0
        &&& 0 < self.bvh.nodes@.len()
        &&& self.bvh.n_unbounded <= self.bvh.objects@.len()
        &&& self.bvh.leaves_cnt + self.pending@.len() <= self.bvh.nodes@.len()
        &&& self.bvh.objects@.to_multiset() == self.input@.to_multiset()
        &&& forall|i: int| 0 <= i < self.bvh.objects@.len()
            ==> (i < self.bvh.n_unbounded <==> (#[trigger] self.bvh.objects@[i]).1.unbounded)
        &&& self.inv_owner()
        &&& self.inv_pending()
        &&& self.inv_boxes()
    }

    /// Starts a hierarchy over `objects`: the unbounded ones are moved to the
    /// front and given to the root, and the rest wait to be built under it.
    pub fn new(objects: Vec<(G, ObjectBounds)>) -> (r: Self)
        ensures
            r.inv(),
            r.spec_input() == objects@,
            r.spec_pending().len() == 1,
            r.spec_bvh().spec_objects().len() == objects@.len(),
            forall|i: int| 0 <= i < objects@.len() ==>
                (i < r.spec_bvh().spec_n_unbounded() <==> (#[trigger] r.spec_bvh().spec_objects()[i]).1.unbounded),
    {
        let ghost input = objects@;
        let mut objects = objects;
        let n = objects.len();
        let k = partition_range(&mut objects, 0, n, SplitRule::Unbounded);
        proof {
            lemma_permuted_whole(input, objects@, 0, n as int);
            assert(objects@.subrange(0, n as int) == objects@);
            assert(input.subrange(0, n as int) == input);
        }
        let root = Node { aabb: Aabb::empty(), children: None, first_obj_idx: 0, last_obj_idx: k };
        let mut nodes: Vec<Node> = Vec::new();
        nodes.push(root);
        let mut pending: Vec<Task> = Vec::new();
        pending.push(Task { node: 0, first: k, last: n });
        let ghost owner = Seq::new(n as nat, |i: int| if i < k { Owner::Node(0) } else { Owner::Task(0) });
        let r = BvhBuilder {
            bvh: Bvh { nodes, root: 0, objects, leaves_cnt: 0, n_unbounded: k },
            pending,
            owner: Ghost(owner),
            input: Ghost(input),
        };
        proof {
            assert(r.bvh.nodes@[0] == root);
            assert(r.pending@[0] == Task { node: 0, first: k, last: n });
            assert forall|j: int, i: int| 0 <= j < r.bvh.nodes@.len() && #[trigger] in_range(r.bvh.nodes@[j], i)
                implies 0 <= i < n && r.owner@[i] == Owner::Node(j) by {
                assert(j == 0);
            }
            assert forall|i: int| 0 <= i < n implies #[trigger] owner_ok(r.owner@[i], i, r.bvh.nodes@, r.pending@) by {
                if i < k {
                    assert(in_range(r.bvh.nodes@[0], i));
                } else {
                    assert(in_task(r.pending@[0], i));
                }
            }
            assert forall|k1: int, k2: int| 0 <= k1 < r.pending@.len() && 0 <= k2 < r.pending@.len() && k1 != k2
                implies #[trigger] r.pending@[k1].node != #[trigger] r.pending@[k2].node by {
            }
            assert(r.inv_owner());
            assert(r.inv_pending());
            assert(r.inv_boxes());
        }
        r
    }

    /// The node to build next, if any is left.
    pub fn next_task(&self) -> (r: Option<Task>)
        ensures
            r is None <==> self.spec_pending().len() == 0,
            r is Some ==> r->0 == self.spec_pending().last(),
    {
        if self.pending.len() == 0 {
            None
        } else {
            Some(self.pending[self.pending.len() - 1])
        }
    }

    /// The bounds of the object at position `object_idx`, as the objects now
    /// stand.
    pub fn object_bounds(&self, object_idx: usize) -> (r: ObjectBounds)
        requires
            object_idx < self.spec_bvh().spec_objects().len(),
        ensures
            r == self.spec_bvh().spec_objects()[object_idx as int].1,
    {
        self.bvh.get_bounds(object_idx)
    }

    /// Builds the next pending node. With no split, with at most four
    /// objects, or where the split leaves one side empty, the node becomes a
    /// leaf over its objects; otherwise the objects are partitioned by the
    /// split and two children are left pending, the left one first.
    #[verifier::rlimit(50)]
    pub fn process(&mut self, split: Option<Split>)
        requires
            old(self).inv(),
            old(self).spec_pending().len() > 0,
            split is Some ==> split->0.axis < 3,
        ensures
            final(self).inv(),
            final(self).spec_input() == old(self).spec_input(),
            ({
                let t = old(self).spec_pending().last();
                let nodes = final(self).spec_bvh().spec_nodes();
                let objs = final(self).spec_bvh().spec_objects();
                let n = old(self).spec_pending().len();
                let node = nodes[t.node as int];
                &&& node.aabb == union_of(old(self).spec_bvh().spec_objects(), t.first as int, t.last as int)
                &&& (t.last - t.first <= 4 || split is None) ==> final(self).spec_pending().len() == n - 1
                &&& final(self).spec_pending().len() == n - 1 ==> {
                    &&& final(self).spec_pending() == old(self).spec_pending().drop_last()
                    &&& node.children is None
                    &&& node.first_obj_idx == (if t.node == 0 { 0 } else { t.first })
                    &&& node.last_obj_idx == t.last
                }
                &&& final(self).spec_pending().len() != n - 1 ==> {
                    let left = final(self).spec_pending()[n as int];
                    let right = final(self).spec_pending()[n - 1];
                    &&& final(self).spec_pending().len() == n + 1
                    &&& final(self).spec_pending().subrange(0, n - 1) == old(self).spec_pending().drop_last()
                    &&& node.children == Some((left.node, right.node))
                    &&& right.node == left.node + 1
                    &&& left.first == t.first && left.last == right.first && right.last == t.last
                    &&& t.first < left.last < t.last
                    &&& forall|i: int| left.first <= i < left.last ==> rule_holds(SplitRule::Below(split->0), #[trigger] objs[i].1)
                    &&& forall|i: int| right.first <= i < right.last ==> !rule_holds(SplitRule::Below(split->0), #[trigger] objs[i].1)
                    &&& left.node == old(self).spec_bvh().spec_nodes().len()
                }
            }),
            ({
                let t = old(self).spec_pending().last();
                let n = old(self).spec_pending().len();
                let objs0 = old(self).spec_bvh().spec_objects();
                let objs = final(self).spec_bvh().spec_objects();
                let nodes0 = old(self).spec_bvh().spec_nodes();
                let nodes = final(self).spec_bvh().spec_nodes();
                &&& objs.len() == objs0.len()
                &&& forall|i: int| 0 <= i < objs0.len() && !(t.first <= i < t.last) ==> #[trigger] objs[i] == objs0[i]
                &&& objs.subrange(t.first as int, t.last as int).to_multiset()
                    == objs0.subrange(t.first as int, t.last as int).to_multiset()
                &&& forall|j: int| 0 <= j < nodes0.len() && j != t.node ==> #[trigger] nodes[j] == nodes0[j]
                &&& final(self).spec_pending().len() == n - 1 ==> nodes.len() == nodes0.len()
                &&& final(self).spec_pending().len() != n - 1 ==> nodes.len() == nodes0.len() + 2
                &&& (split is Some && t.last - t.first > 4 && nodes0.len() + 2 <= usize::MAX
                    && (exists|i: int| t.first <= i < t.last && rule_holds(SplitRule::Below(split->0), #[trigger] objs0[i].1))
                    && (exists|i: int| t.first <= i < t.last && !rule_holds(SplitRule::Below(split->0), #[trigger] objs0[i].1)))
                    ==> final(self).spec_pending().len() == n + 1
            }),
    {
        let ghost pre = *self;
        let ghost nodes0 = self.bvh.nodes@;
        let ghost objs0 = self.bvh.objects@;
        let ghost o0 = self.owner@;
        let ghost pend0 = self.pending@;
        let ghost k0 = pend0.len() - 1;
        let task = self.pending.pop().unwrap();
        let first = task.first;
        let last = task.last;
        let x = task.node;
        proof {
            assert(task == pend0[k0]);
            assert(self.pending@ == pend0.drop_last());
        }
        let acc = self.bvh.range_box(first, last);
        proof {
            lemma_union_of_bounds(objs0, first as int, last as int, Aabb::spec_empty());
            assert forall|j: int| 0 <= j < nodes0.len() && #[trigger] is_child(nodes0[j], x as int)
                implies nodes0[j].aabb.spec_contains(&acc) by {
                assert forall|i: int| first <= i < last implies nodes0[j].aabb.spec_contains(
                    &(#[trigger] objs0[i]).1.aabb,
                ) by {
                    assert(in_task(pend0[k0], i));
                }
                lemma_union_of_bounds(objs0, first as int, last as int, nodes0[j].aabb);
            }
        }
        let count = last - first;
        let mut mid = first;
        let mut is_leaf = true;
        if let Some(s) = split {
            if count > 4 && self.bvh.nodes.len() < usize::MAX - 1 {
                let k = partition_range(&mut self.bvh.objects, first, last, SplitRule::Below(s));
                proof {
                    let objs = self.bvh.objects@;
                    let rule = SplitRule::Below(s);
                    if exists|m: int| first <= m < last && rule_holds(rule, #[trigger] objs0[m].1) {
                        let m = choose|m: int| first <= m < last && rule_holds(rule, #[trigger] objs0[m].1);
                        let j = lemma_permuted_member(objs, objs0, first as int, last as int, m);
                        assert(rule_holds(rule, objs[j].1));
                        assert(k > 0);
                    }
                    if exists|m: int| first <= m < last && !rule_holds(rule, #[trigger] objs0[m].1) {
                        let m = choose|m: int| first <= m < last && !rule_holds(rule, #[trigger] objs0[m].1);
                        let j = lemma_permuted_member(objs, objs0, first as int, last as int, m);
                        assert(!rule_holds(rule, objs[j].1));
                        assert(k < count);
                    }
                }
                if k > 0 && k < count {
                    is_leaf = false;
                    mid = first + k;
                }
            }
        }
        let ghost objs1 = self.bvh.objects@;
        proof {
            if objs1 != objs0 {
                lemma_permuted_whole(objs0, objs1, first as int, last as int);
            }
            assert forall|i: int| first <= i < last implies acc.spec_contains(&(#[trigger] objs1[i]).1.aabb) by {
                if objs1 != objs0 {
                    let m = lemma_permuted_member(objs0, objs1, first as int, last as int, i);
                    assert(acc.spec_contains(&objs0[m].1.aabb));
                }
            }
            assert(self.bvh.n_unbounded <= first);
            assert forall|i: int| 0 <= i < objs1.len()
                implies (i < self.bvh.n_unbounded <==> (#[trigger] objs1[i]).1.unbounded) by {
                if first <= i < last {
                    if objs1 != objs0 {
                        let m = lemma_permuted_member(objs0, objs1, first as int, last as int, i);
                        assert(!objs0[m].1.unbounded);
                    } else {
                        assert(!objs0[i].1.unbounded);
                    }
                } else {
                    assert(objs1[i] == objs0[i]);
                }
            }
        }
        proof {
            assert(self.taken_from(pre, task, acc));
        }
        if is_leaf {
            let f = if x == 0 { 0 } else { first };
            self.bvh.nodes[x] = Node { aabb: acc, children: None, first_obj_idx: f, last_obj_idx: last };
            let n_nodes = self.bvh.nodes.len();
            assert(self.bvh.leaves_cnt < n_nodes);
            self.bvh.leaves_cnt = self.bvh.leaves_cnt + 1;
            self.owner = Ghost(
                Seq::new(o0.len(), |i: int| if first <= i < last { Owner::Node(x as int) } else { o0[i] }),
            );
            proof {
                self.lemma_leaf_inv(pre, task, acc);
            }
        } else {
            let left_node_idx = self.bvh.nodes.len();
            self.bvh.nodes.push(Node { aabb: Aabb::empty(), children: None, first_obj_idx: 0, last_obj_idx: 0 });
            self.bvh.nodes.push(Node { aabb: Aabb::empty(), children: None, first_obj_idx: 0, last_obj_idx: 0 });
            let old_node = self.bvh.nodes[x];
            self.bvh.nodes[x] = Node {
                aabb: acc,
                children: Some((left_node_idx, left_node_idx + 1)),
                first_obj_idx: old_node.first_obj_idx,
                last_obj_idx: old_node.last_obj_idx,
            };
            self.pending.push(Task { node: left_node_idx + 1, first: mid, last });
            self.pending.push(Task { node: left_node_idx, first, last: mid });
            self.owner = Ghost(
                Seq::new(
                    o0.len(),
                    |i: int|
                        if first <= i < mid {
                            Owner::Task(k0 + 1)
                        } else if mid <= i < last {
                            Owner::Task(k0)
                        } else {
                            o0[i]
                        },
                ),
            );
            proof {
                self.lemma_split_inv(pre, task, acc, mid);
                assert(self.pending@.subrange(0, k0) =~= pend0.drop_last());
            }
        }
    }

    /// What holds after the last pending task was taken off `pre` and its
    /// objects were perhaps permuted, `acc` being the union of their boxes.
    spec fn taken_from(&self, pre: BvhBuilder<G>, task: Task, acc: Aabb) -> bool {
        let nodes0 = pre.bvh.nodes@;
        let objs0 = pre.bvh.objects@;
        let objs1 = self.bvh.objects@;
        &&& pre.inv()
        &&& pre.pending@.len() > 0
        &&& task == pre.pending@.last()
        &&& self.bvh.root == pre.bvh.root
        &&& self.bvh.n_unbounded == pre.bvh.n_unbounded
        &&& self.input == pre.input
        &&& objs1.len() == objs0.len()
        &&& objs1.to_multiset() == self.input@.to_multiset()
        &&& forall|i: int| 0 <= i < objs1.len()
            ==> (i < self.bvh.n_unbounded <==> (#[trigger] objs1[i]).1.unbounded)
        &&& forall|i: int| 0 <= i < objs0.len() && !(task.first <= i < task.last) ==> #[trigger] objs1[i] == objs0[i]
        &&& forall|i: int| task.first <= i < task.last ==> acc.spec_contains(&(#[trigger] objs1[i]).1.aabb)
        &&& forall|j: int| 0 <= j < nodes0.len() && #[trigger] is_child(nodes0[j], task.node as int)
            ==> nodes0[j].aabb.spec_contains(&acc)
    }

    #[verifier::rlimit(50)]
    proof fn lemma_leaf_inv(&self, pre: BvhBuilder<G>, task: Task, acc: Aabb)
        requires
            self.taken_from(pre, task, acc),
            self.pending@ == pre.pending@.drop_last(),
            self.bvh.leaves_cnt == pre.bvh.leaves_cnt + 1,
            self.bvh.nodes@ == pre.bvh.nodes@.update(
                task.node as int,
                Node {
                    aabb: acc,
                    children: None,
                    first_obj_idx: if task.node == 0 { 0 } else { task.first },
                    last_obj_idx: task.last,
                },
            ),
            self.owner@ == Seq::new(
                pre.owner@.len(),
                |i: int| if task.first <= i < task.last { Owner::Node(task.node as int) } else { pre.owner@[i] },
            ),
        ensures
            self.inv(),
    {
        let nodes0 = pre.bvh.nodes@;
        let objs0 = pre.bvh.objects@;
        let o0 = pre.owner@;
        let pend0 = pre.pending@;
        let k0 = pend0.len() - 1;
        let x = task.node as int;
        let nodes = self.bvh.nodes@;
        let objs = self.bvh.objects@;
        let o = self.owner@;
        let pend = self.pending@;
        assert(pend0[k0] == task);
        assert forall|j: int, i: int| 0 <= j < nodes.len() && #[trigger] in_range(nodes[j], i)
            implies 0 <= i < objs.len() && o[i] == Owner::Node(j) by {
            if j == x {
                if !(task.first <= i < task.last) {
                    assert(x == 0);
                    assert(in_range(nodes0[0], i));
                }
            } else {
                assert(in_range(nodes0[j], i));
                if task.first <= i < task.last {
                    assert(in_task(pend0[k0], i));
                }
            }
        }
        assert forall|k: int, i: int| 0 <= k < pend.len() && #[trigger] in_task(pend[k], i)
            implies o[i] == Owner::Task(k) by {
            assert(pend[k] == pend0[k]);
            assert(in_task(pend0[k], i));
            if task.first <= i < task.last {
                assert(in_task(pend0[k0], i));
            }
        }
        assert forall|i: int| 0 <= i < objs.len() implies #[trigger] owner_ok(o[i], i, nodes, pend) by {
            assert(owner_ok(o0[i], i, nodes0, pend0));
            if !(task.first <= i < task.last) {
                match o0[i] {
                    Owner::Node(j) => {
                        if j == x {
                            assert(in_range(nodes0[x], i));
                            assert(pend0[k0].node == x);
                        }
                    },
                    Owner::Task(k) => {
                        assert(k != k0);
                        assert(pend[k] == pend0[k]);
                    },
                }
            }
        }
        assert forall|k: int| 0 <= k < pend.len() implies {
            &&& nodes[(#[trigger] pend[k]).node as int].children is None
            &&& nodes[pend[k].node as int].aabb == Aabb::spec_empty()
            &&& pend[k].node == 0 ==> nodes[0].first_obj_idx == 0 && nodes[0].last_obj_idx == pend[k].first
                && pend[k].first == self.bvh.n_unbounded
            &&& pend[k].node != 0 ==> nodes[pend[k].node as int].first_obj_idx == nodes[pend[k].node as int].last_obj_idx
        } by {
            assert(pend[k] == pend0[k]);
            assert(pend0[k].node != pend0[k0].node);
        }
        assert forall|k1: int, k2: int| 0 <= k1 < pend.len() && 0 <= k2 < pend.len() && k1 != k2
            implies #[trigger] pend[k1].node != #[trigger] pend[k2].node by {
            assert(pend[k1] == pend0[k1]);
            assert(pend[k2] == pend0[k2]);
        }
        assert forall|j: int| 0 <= j < nodes.len() && (#[trigger] nodes[j]).children is Some implies {
            let (l, r) = nodes[j].children->0;
            &&& l < nodes.len() && r < nodes.len()
            &&& nodes[j].aabb.spec_contains(&nodes[l as int].aabb)
            &&& nodes[j].aabb.spec_contains(&nodes[r as int].aabb)
        } by {
            assert(nodes0[j].children is Some);
            let (l, r) = nodes0[j].children->0;
            if l == x {
                assert(is_child(nodes0[j], x));
            }
            if r == x {
                assert(is_child(nodes0[j], x));
            }
        }
        assert forall|j: int, i: int|
            0 <= j < nodes.len() && #[trigger] in_range(nodes[j], i) && self.bvh.n_unbounded <= i
                implies nodes[j].aabb.spec_contains(&objs[i].1.aabb) by {
            if j == x {
                if !(task.first <= i < task.last) {
                    assert(in_range(nodes0[0], i));
                }
            } else {
                assert(in_range(nodes0[j], i));
                if task.first <= i < task.last {
                    assert(in_task(pend0[k0], i));
                }
                assert(objs[i] == objs0[i]);
            }
        }
        assert forall|k: int, j: int, i: int|
            0 <= k < pend.len() && 0 <= j < nodes.len() && #[trigger] in_task(pend[k], i)
                && #[trigger] is_child(nodes[j], pend[k].node as int)
                implies nodes[j].aabb.spec_contains(&objs[i].1.aabb) by {
            assert(pend[k] == pend0[k]);
            assert(j != x);
            assert(is_child(nodes0[j], pend0[k].node as int));
            assert(in_task(pend0[k], i));
            if task.first <= i < task.last {
                assert(in_task(pend0[k0], i));
            }
            assert(objs[i] == objs0[i]);
        }
        assert(self.inv_owner());
        assert(self.inv_pending());
        assert(self.inv_boxes());
    }

    #[verifier::rlimit(50)]
    proof fn lemma_split_inv(&self, pre: BvhBuilder<G>, task: Task, acc: Aabb, mid: usize)
        requires
            self.taken_from(pre, task, acc),
            task.first < mid < task.last,
            pre.bvh.nodes@.len() + 2 <= usize::MAX,
            self.bvh.leaves_cnt == pre.bvh.leaves_cnt,
            self.bvh.nodes@ == ({
                let l = pre.bvh.nodes@.len();
                let e = Node { aabb: Aabb::spec_empty(), children: None, first_obj_idx: 0, last_obj_idx: 0 };
                pre.bvh.nodes@.push(e).push(e).update(
                    task.node as int,
                    Node {
                        aabb: acc,
                        children: Some((l as usize, (l + 1) as usize)),
                        first_obj_idx: pre.bvh.nodes@[task.node as int].first_obj_idx,
                        last_obj_idx: pre.bvh.nodes@[task.node as int].last_obj_idx,
                    },
                )
            }),
            self.pending@ == pre.pending@.drop_last().push(
                Task { node: (pre.bvh.nodes@.len() + 1) as usize, first: mid, last: task.last },
            ).push(Task { node: pre.bvh.nodes@.len() as usize, first: task.first, last: mid }),
            self.owner@ == Seq::new(
                pre.owner@.len(),
                |i: int|
                    if task.first <= i < mid {
                        Owner::Task(pre.pending@.len() as int)
                    } else if mid <= i < task.last {
                        Owner::Task(pre.pending@.len() - 1)
                    } else {
                        pre.owner@[i]
                    },
            ),
        ensures
            self.inv(),
    {
        let nodes0 = pre.bvh.nodes@;
        let objs0 = pre.bvh.objects@;
        let o0 = pre.owner@;
        let pend0 = pre.pending@;
        let k0 = pend0.len() - 1;
        let x = task.node as int;
        let l = nodes0.len() as int;
        let nodes = self.bvh.nodes@;
        let objs = self.bvh.objects@;
        let o = self.owner@;
        let pend = self.pending@;
        assert(pend0[k0] == task);
        assert(pend[k0] == Task { node: (l + 1) as usize, first: mid, last: task.last });
        assert(pend[k0 + 1] == Task { node: l as usize, first: task.first, last: mid });
        assert(nodes[l] == Node { aabb: Aabb::spec_empty(), children: None, first_obj_idx: 0, last_obj_idx: 0 });
        assert(nodes[l + 1] == Node { aabb: Aabb::spec_empty(), children: None, first_obj_idx: 0, last_obj_idx: 0 });
        assert forall|j: int, i: int| 0 <= j < nodes.len() && #[trigger] in_range(nodes[j], i)
            implies 0 <= i < objs.len() && o[i] == Owner::Node(j) by {
            assert(j < l);
            assert(in_range(nodes0[j], i));
            if task.first <= i < task.last {
                assert(in_task(pend0[k0], i));
            }
        }
        assert forall|k: int| 0 <= k < pend.len() implies {
            &&& (#[trigger] pend[k]).first <= pend[k].last <= objs.len()
            &&& pend[k].node < nodes.len()
        } by {
            if k < k0 {
                assert(pend[k] == pend0[k]);
            }
        }
        assert forall|k: int, i: int| 0 <= k < pend.len() && #[trigger] in_task(pend[k], i)
            implies o[i] == Owner::Task(k) by {
            if k < k0 {
                assert(pend[k] == pend0[k]);
                assert(in_task(pend0[k], i));
                if task.first <= i < task.last {
                    assert(in_task(pend0[k0], i));
                }
            }
        }
        assert forall|i: int| 0 <= i < objs.len() implies #[trigger] owner_ok(o[i], i, nodes, pend) by {
            assert(owner_ok(o0[i], i, nodes0, pend0));
            if task.first <= i < mid {
                assert(in_task(pend[k0 + 1], i));
            } else if mid <= i < task.last {
                assert(in_task(pend[k0], i));
            } else {
                match o0[i] {
                    Owner::Node(j) => {
                        assert(in_range(nodes0[j], i));
                    },
                    Owner::Task(k) => {
                        assert(k != k0);
                        assert(pend[k] == pend0[k]);
                    },
                }
            }
        }
        assert forall|k: int| 0 <= k < pend.len() implies {
            &&& nodes[(#[trigger] pend[k]).node as int].children is None
            &&& nodes[pend[k].node as int].aabb == Aabb::spec_empty()
            &&& pend[k].node == 0 ==> nodes[0].first_obj_idx == 0 && nodes[0].last_obj_idx == pend[k].first
                && pend[k].first == self.bvh.n_unbounded
            &&& pend[k].node != 0 ==> nodes[pend[k].node as int].first_obj_idx == nodes[pend[k].node as int].last_obj_idx
        } by {
            if k < k0 {
                assert(pend[k] == pend0[k]);
                assert(pend0[k].node != pend0[k0].node);
                if pend[k].node == 0 {
                    assert(x != 0);
                }
            }
        }
        assert forall|k1: int, k2: int| 0 <= k1 < pend.len() && 0 <= k2 < pend.len() && k1 != k2
            implies #[trigger] pend[k1].node != #[trigger] pend[k2].node by {
            if k1 < k0 {
                assert(pend[k1] == pend0[k1]);
            }
            if k2 < k0 {
                assert(pend[k2] == pend0[k2]);
            }
        }
        assert forall|j: int| 0 <= j < nodes.len() && (#[trigger] nodes[j]).children is Some implies {
            let (a, b) = nodes[j].children->0;
            &&& a < nodes.len() && b < nodes.len()
            &&& nodes[j].aabb.spec_contains(&nodes[a as int].aabb)
            &&& nodes[j].aabb.spec_contains(&nodes[b as int].aabb)
        } by {
            if j != x {
                assert(j < l);
                assert(nodes0[j].children is Some);
                let (a, b) = nodes0[j].children->0;
                if a == x {
                    assert(is_child(nodes0[j], x));
                }
                if b == x {
                    assert(is_child(nodes0[j], x));
                }
            }
        }
        assert forall|j: int, i: int|
            0 <= j < nodes.len() && #[trigger] in_range(nodes[j], i) && self.bvh.n_unbounded <= i
                implies nodes[j].aabb.spec_contains(&objs[i].1.aabb) by {
            assert(j < l);
            assert(in_range(nodes0[j], i));
            if task.first <= i < task.last {
                assert(in_task(pend0[k0], i));
            }
            if j == x {
                assert(i < task.first);
            }
            assert(objs[i] == objs0[i]);
        }
        assert forall|k: int, j: int, i: int|
            0 <= k < pend.len() && 0 <= j < nodes.len() && #[trigger] in_task(pend[k], i)
                && #[trigger] is_child(nodes[j], pend[k].node as int)
                implies nodes[j].aabb.spec_contains(&objs[i].1.aabb) by {
            if k < k0 {
                assert(pend[k] == pend0[k]);
                assert(j != x);
                assert(j < l);
                assert(is_child(nodes0[j], pend0[k].node as int));
                assert(in_task(pend0[k], i));
                if task.first <= i < task.last {
                    assert(in_task(pend0[k0], i));
                }
                assert(objs[i] == objs0[i]);
            } else {
                if j != x {
                    assert(j < l);
                    assert(is_child(nodes0[j], pend[k].node as int));
                }
            }
        }
        assert(self.inv_owner());
        assert(self.inv_pending());
        assert(self.inv_boxes());
    }

    /// The finished hierarchy.
    pub fn finish(self) -> (r: Bvh<G>)
        requires
            self.inv(),
            self.spec_pending().len() == 0,
        ensures
            r.wf(),
            r.leaves_cover(),
            r.nested_boxes(),
            r.unbounded_first(),
            r.internal_ranges(),
            r.leaves_partition(),
            r.spec_objects().to_multiset() == self.spec_input().to_multiset(),
    {
        let ghost nodes = self.bvh.nodes@;
        let ghost o = self.owner@;
        proof {
            assert forall|i: int| 0 <= i < self.bvh.objects@.len() implies #[trigger] self.bvh.is_covered(i) by {
                assert(owner_ok(o[i], i, nodes, self.pending@));
                match o[i] {
                    Owner::Node(j) => {
                        assert(in_range(self.bvh.spec_nodes()[j], i));
                    },
                    Owner::Task(k) => {
                    },
                }
            }
            assert forall|j: int, k: int, i: int|
                0 <= j < nodes.len() && 0 <= k < nodes.len()
                    && #[trigger] in_range(nodes[j], i) && #[trigger] in_range(nodes[k], i)
                    implies j == k by {
                assert(o[i] == Owner::Node(j));
                assert(o[i] == Owner::Node(k));
            }
        }
        proof {
            lemma_leaves_partition(&self.bvh);
        }
        self.bvh
    }
}

/// In a well-formed hierarchy every object with a finite box lies in
/// exactly one leaf, leaf ranges are disjoint and within the objects, and a
/// leaf's box holds the boxes of its bounded objects.
pub proof fn lemma_leaves_partition<G>(b: &Bvh<G>)
    requires
        b.wf(),
    ensures
        b.leaves_partition(),
{
    let nodes = b.spec_nodes();
    let objs = b.spec_objects();
    assert forall|i: int| 0 <= i < objs.len() && !objs[i].1.unbounded implies #[trigger] b.in_some_leaf(i) by {
        assert(b.is_covered(i));
        let j = choose|j: int| 0 <= j < nodes.len() && #[trigger] in_range(nodes[j], i);
        if nodes[j].children is Some {
            assert(objs[i].1.unbounded);
        }
        assert(in_range(nodes[j], i));
    }
}

} // verus!
