use vstd::prelude::*;
use crate::geometry::{Geometry, box_faces, is_cube_corner, lemma_box_counts, lemma_box_shape};
use crate::mesh::{
    MeshData, MeshError, Vertex, emit_faces, indices_in_range, lemma_counts_nonneg, lemma_emit_faces,
    lemma_emit_samples,
};
use crate::transform::Transform;

verus! {

/// What is needed to make an [`Object`]: everything but its place in a world.
pub struct ObjectConstructor<F> {
    pub name: String,
    pub transform: Transform<F>,
    pub geometry: Option<Geometry<F>>,
    pub color: [F; 4],
}

/// What a scene-graph node carries: its name, placement, shape and color.
pub struct Object<F> {
    pub name: String,
    pub transform: Transform<F>,
    pub geometry: Option<Geometry<F>>,
    /// RGBA; the alpha channel is carried but not written into vertices.
    pub color: [F; 4],
}

/// An object as a [`World`] holds it, with its links to other objects. Only
/// the world changes the links; callers change the object through
/// [`World::get_mut`], which hands out the object alone.
pub struct Node<F> {
    pub object: Object<F>,
    /// Ids of the children, in the order they were spawned.
    pub children: Vec<usize>,
    pub parent: Option<usize>,
}

/// A world operation named an id that holds no object.
#[derive(Clone, Copy, Debug, PartialEq, Eq, Structural)]
pub enum WorldError {
    /// `spawn_object` was given a parent id that holds no object.
    DanglingReference,
}

/// `s` with every occurrence of `x` taken out, order kept.
pub open spec fn remove_all(s: Seq<usize>, x: usize) -> Seq<usize>
    decreases s.len(),
{
    if s.len() == 0 {
        s
    } else {
        let r = remove_all(s.drop_last(), x);
        if s.last() == x {
            r
        } else {
            r.push(s.last())
        }
    }
}

pub proof fn lemma_remove_all_contains(s: Seq<usize>, x: usize)
    ensures
        forall|y: usize| #[trigger] remove_all(s, x).contains(y) <==> s.contains(y) && y != x,
    decreases s.len(),
{
    if s.len() > 0 {
        let d = s.drop_last();
        lemma_remove_all_contains(d, x);
        let r = remove_all(d, x);
        assert forall|y: usize| #[trigger] remove_all(s, x).contains(y) <==> s.contains(y) && y != x by {
            if s.contains(y) && y != x {
                let k = choose|k: int| 0 <= k < s.len() && s[k] == y;
                if k < d.len() {
                    assert(d[k] == y);
                    assert(d.contains(y));
                    assert(remove_all(d, x).contains(y));
                    if s.last() != x {
                        let w = choose|w: int| 0 <= w < r.len() && r[w] == y;
                        assert(r.push(s.last())[w] == y);
                    }
                } else {
                    assert(r.push(s.last())[r.len() as int] == y);
                }
            }
            if remove_all(s, x).contains(y) {
                if s.last() != x {
                    let w = choose|w: int| 0 <= w < r.len() + 1 && r.push(s.last())[w] == y;
                    if w < r.len() {
                        assert(r[w] == y);
                        assert(r.contains(y));
                        let k = choose|k: int| 0 <= k < d.len() && d[k] == y;
                        assert(s[k] == y);
                    } else {
                        assert(s[s.len() - 1] == y);
                    }
                } else {
                    assert(r.contains(y));
                    let k = choose|k: int| 0 <= k < d.len() && d[k] == y;
                    assert(s[k] == y);
                }
            }
        }
    }
}

/// Taking out a value that is not there changes nothing.
pub proof fn lemma_remove_absent(s: Seq<usize>, x: usize)
    requires
        !s.contains(x),
    ensures
        remove_all(s, x) == s,
    decreases s.len(),
{
    if s.len() > 0 {
        let d = s.drop_last();
        assert(!d.contains(x)) by {
            if d.contains(x) {
                let k = choose|k: int| 0 <= k < d.len() && d[k] == x;
                assert(s[k] == x);
            }
        }
        lemma_remove_absent(d, x);
        assert(s.last() != x) by {
            assert(s[s.len() - 1] == s.last());
        }
        assert(d.push(s.last()) =~= s);
    }
}

proof fn lemma_push_contains(s: Seq<usize>, x: usize)
    ensures
        forall|y: usize| #[trigger] s.push(x).contains(y) <==> s.contains(y) || y == x,
{
    assert forall|y: usize| #[trigger] s.push(x).contains(y) <==> s.contains(y) || y == x by {
        if s.contains(y) {
            let k = choose|k: int| 0 <= k < s.len() && s[k] == y;
            assert(s.push(x)[k] == y);
        }
        if y == x {
            assert(s.push(x)[s.len() as int] == y);
        }
        if s.push(x).contains(y) && y != x {
            let k = choose|k: int| 0 <= k < s.len() + 1 && s.push(x)[k] == y;
            assert(s[k] == y);
        }
    }
}

/// A copy of `v` without `x`.
fn without(v: &Vec<usize>, x: usize) -> (r: Vec<usize>)
    ensures
        r@ == remove_all(v@, x),
{
    let mut r: Vec<usize> = Vec::new();
    let mut k: usize = 0;
    while k < v.len()
        invariant
            k <= v@.len(),
            r@ == remove_all(v@.take(k as int), x),
        decreases v@.len() - k,
    {
        proof {
            assert(v@.take(k + 1).drop_last() =~= v@.take(k as int));
            assert(v@.take(k + 1).last() == v@[k as int]);
        }
        if v[k] != x {
            r.push(v[k]);
        }
        k = k + 1;
    }
    proof {
        assert(v@.take(v@.len() as int) =~= v@);
    }
    r
}

impl<F> Node<F> {
    /// The two nodes agree on everything but their children.
    pub open spec fn same_but_children(&self, other: &Node<F>) -> bool {
        &&& self.object == other.object
        &&& self.parent == other.parent
    }
}

impl<F> Object<F> {

    /// An object made of the given parts.
    pub fn new(config: ObjectConstructor<F>) -> (r: Self)
        ensures
            r.name == config.name,
            r.transform == config.transform,
            r.geometry == config.geometry,
            r.color == config.color,
    {
        Object {
            name: config.name,
            transform: config.transform,
            geometry: config.geometry,
            color: config.color,
        }
    }

    /// An object that carries a shape.
    pub fn from_geometry(name: &str, geometry: Geometry<F>, transform: Transform<F>, color: [F; 4]) -> (r: Self)
        ensures
            r.name@ == name@,
            r.transform == transform,
            r.geometry == Some(geometry),
            r.color == color,
    {
        Object {
            name: name.to_owned(),
            transform,
            geometry: Some(geometry),
            color,
        }
    }
}

/// A forest of objects held in an arena: the object with id `i` lives in slot
/// `i`, and a deleted object leaves its slot empty, so ids are never reused.
/// Links between objects are ids. A parent always has a smaller id than its
/// children, because it must exist when they are spawned.
pub struct World<F> {
    objects: Vec<Option<Node<F>>>,
    roots: Vec<usize>,
}

impl<F> World<F> {
    /// The arena: slot `i` holds the object with id `i`, if it is alive.
    pub closed spec fn slots(&self) -> Seq<Option<Node<F>>> {
        self.objects@
    }

    /// Ids of the objects without a parent, in the order they were spawned.
    pub closed spec fn root_ids(&self) -> Seq<usize> {
        self.roots@
    }

    /// The id the next spawned object gets.
    pub open spec fn next_id(&self) -> int {
        self.slots().len() as int
    }

    pub open spec fn alive(&self, i: int) -> bool {
        0 <= i < self.slots().len() && self.slots()[i] is Some
    }

    pub open spec fn obj(&self, i: int) -> Node<F> {
        self.slots()[i]->Some_0
    }

    /// The links of live object `i` agree with the rest of the world.
    pub open spec fn node_ok(&self, i: int) -> bool {
        let o = self.obj(i);
        &&& o.parent is None ==> self.root_ids().contains(i as usize)
        &&& o.parent matches Some(p) ==> {
            &&& p < i
            &&& self.alive(p as int)
            &&& self.obj(p as int).children@.contains(i as usize)
        }
        &&& forall|c: usize| #[trigger]
            o.children@.contains(c) ==> {
                &&& i < c
                &&& self.alive(c as int)
                &&& self.obj(c as int).parent == Some(i as usize)
            }
    }

    /// Every link names a live object and is mirrored on the other side;
    /// the roots are exactly the live objects without a parent.
    pub open spec fn wf(&self) -> bool {
        &&& forall|i: int| #[trigger] self.alive(i) ==> self.node_ok(i)
        &&& forall|r: usize| #[trigger]
            self.root_ids().contains(r) ==> self.alive(r as int) && self.obj(
                r as int,
            ).parent is None
    }

    /// Object `j` is object `id` or lies below it.
    pub open spec fn descends(&self, j: int, id: int) -> bool
        decreases j,
    {
        &&& self.alive(j)
        &&& (j == id || match self.obj(j).parent {
            Some(p) => 0 <= p < j && self.descends(p as int, id),
            None => false,
        })
    }

    /// An empty world.
    pub fn new() -> (r: Self)
        ensures
            r.wf(),
            r.next_id() == 0,
            r.root_ids().len() == 0,
    {
        World { objects: Vec::new(), roots: Vec::new() }
    }

    /// Whether `id` holds a live object.
    pub fn contains(&self, id: usize) -> (r: bool)
        ensures
            r == self.alive(id as int),
    {
        id < self.objects.len() && self.objects[id].is_some()
    }

    /// The object with this id, if it is alive.
    pub fn get(&self, id: usize) -> (r: Option<&Node<F>>)
        ensures
            r is Some <==> self.alive(id as int),
            r matches Some(o) ==> *o == self.obj(id as int),
    {
        if id < self.objects.len() {
            match &self.objects[id] {
                Some(o) => Some(o),
                None => None,
            }
        } else {
            None
        }
    }

    /// Ids of the objects without a parent.
    pub fn roots(&self) -> (r: &Vec<usize>)
        ensures
            r@ == self.root_ids(),
    {
        &self.roots
    }

    /// One past the largest id ever given out.
    pub fn id_bound(&self) -> (r: usize)
        ensures
            r == self.next_id(),
    {
        self.objects.len()
    }

    /// Adds `object` to the world under the next id, as a child of
    /// `parent_id` or, without one, as a root, with no children yet. Fails, changing nothing, where `parent_id` holds
    /// no live object.
    pub fn spawn_object(&mut self, object: Object<F>, parent_id: Option<usize>) -> (r: Result<
        usize,
        WorldError,
    >)
        requires
            old(self).wf(),
            old(self).next_id() < usize::MAX,
        ensures
            final(self).wf(),
            r is Err <==> (parent_id matches Some(p) && !old(self).alive(p as int)),
            r is Err ==> final(self).slots() == old(self).slots() && final(self).root_ids()
                == old(self).root_ids(),
            r matches Ok(id) ==> {
                &&& id == old(self).next_id()
                &&& final(self).next_id() == old(self).next_id() + 1
                &&& final(self).alive(id as int)
                &&& final(self).obj(id as int).object == object
                &&& final(self).obj(id as int).parent == parent_id
                &&& final(self).obj(id as int).children@.len() == 0
                &&& final(self).root_ids() == if parent_id is None {
                    old(self).root_ids().push(id)
                } else {
                    old(self).root_ids()
                }
                &&& forall|i: int|
                    #![trigger final(self).slots()[i]]
                    0 <= i < old(self).next_id() ==> {
                        &&& final(self).alive(i) == old(self).alive(i)
                        &&& final(self).alive(i) ==> final(self).obj(i).same_but_children(
                            &old(self).obj(i),
                        )
                        &&& final(self).alive(i) ==> final(self).obj(i).children@ == if parent_id
                            == Some(i as usize) {
                            old(self).obj(i).children@.push(id)
                        } else {
                            old(self).obj(i).children@
                        }
                    }
            },
    {
        if let Some(p) = parent_id {
            if !self.contains(p) {
                return Err(WorldError::DanglingReference);
            }
        }
        let id = self.objects.len();
        let ghost s0 = self.slots();
        let ghost r0 = self.root_ids();
        let node = Node { object, children: Vec::new(), parent: parent_id };
        match parent_id {
            Some(p) => {
                match &mut self.objects[p] {
                    Some(po) => {
                        po.children.push(id);
                    },
                    None => {},
                }
            },
            None => {
                self.roots.push(id);
            },
        }
        self.objects.push(Some(node));
        proof {
            let s1 = self.slots();
            assert(forall|i: int| 0 <= i < s0.len() ==> self.alive(i) == (0 <= i < s0.len() && s0[i] is Some));
            if let Some(p) = parent_id {
                lemma_push_contains(s0[p as int]->Some_0.children@, id);
            } else {
                lemma_push_contains(r0, id);
            }
            assert forall|i: int| #[trigger] self.alive(i) implies self.node_ok(i) by {
                if i < id {
                    let o = self.obj(i);
                    assert(old(self).alive(i));
                    assert(old(self).node_ok(i));
                    if o.parent is None && parent_id is None {
                        assert(r0.contains(i as usize));
                    }
                    assert forall|c: usize| #[trigger] o.children@.contains(c) implies {
                        &&& i < c
                        &&& self.alive(c as int)
                        &&& self.obj(c as int).parent == Some(i as usize)
                    } by {
                        if c != id {
                            assert(old(self).obj(i).children@.contains(c));
                        }
                    }
                }
            }
            assert forall|r: usize| #[trigger] self.root_ids().contains(r) implies self.alive(r as int)
                && self.obj(r as int).parent is None by {
                if r != id {
                    assert(r0.contains(r));
                }
            }
        }
        Ok(id)
    }

    /// Object `j` lies in the subtree of `id`, so `id` is alive and not above `j`.
    pub proof fn lemma_descends_below(&self, j: int, id: int)
        requires
            self.descends(j, id),
        ensures
            self.alive(id),
            id <= j,
        decreases j,
    {
        if j != id {
            let p = self.obj(j).parent->Some_0;
            self.lemma_descends_below(p as int, id);
        }
    }

    /// Deleting an id that holds no object has nothing to take out.
    proof fn lemma_unchanged_by_dead(&self, id: usize)
        requires
            self.wf(),
            !self.alive(id as int),
        ensures
            forall|j: int| !#[trigger] self.descends(j, id as int),
            forall|j: int| #[trigger]
                self.alive(j) ==> remove_all(self.obj(j).children@, id) == self.obj(j).children@
                    && !self.obj(j).children@.contains(id),
            remove_all(self.root_ids(), id) == self.root_ids(),
    {
        assert forall|j: int| !#[trigger] self.descends(j, id as int) by {
            if self.descends(j, id as int) {
                self.lemma_descends_below(j, id as int);
            }
        }
        assert forall|j: int| #[trigger] self.alive(j) implies remove_all(self.obj(j).children@, id)
            == self.obj(j).children@ && !self.obj(j).children@.contains(id) by {
            assert(self.node_ok(j));
            lemma_remove_absent(self.obj(j).children@, id);
        }
        lemma_remove_absent(self.root_ids(), id);
    }

    /// Deletes object `id` and every object below it, and takes `id` out of
    /// its parent's children (or out of the roots). Nothing happens where
    /// `id` holds no live object. Ids are not given out again.
    pub fn delete(&mut self, id: usize)
        requires
            old(self).wf(),
        ensures
            final(self).wf(),
            final(self).next_id() == old(self).next_id(),
            forall|j: int|
                #![trigger final(self).alive(j)]
                #![trigger old(self).descends(j, id as int)]
                final(self).alive(j) <==> old(self).alive(j) && !old(self).descends(j, id as int),
            forall|j: int| #[trigger]
                final(self).alive(j) ==> final(self).obj(j).same_but_children(&old(self).obj(j))
                    && final(self).obj(j).children@ == remove_all(old(self).obj(j).children@, id),
            forall|j: int| #[trigger] final(self).alive(j) ==> !final(self).obj(j).children@.contains(id),
            final(self).root_ids() == remove_all(old(self).root_ids(), id),
    {
        let ghost s0 = self.slots();
        let ghost r0 = self.root_ids();
        if id >= self.objects.len() || self.objects[id].is_none() {
            proof {
                self.lemma_unchanged_by_dead(id);
            }
            return;
        }
        let parent = match &self.objects[id] {
            Some(o) => o.parent,
            None => None,
        };
        proof {
            assert(self.alive(id as int));
            assert(self.node_ok(id as int));
        }
        match parent {
            Some(p) => {
                match &mut self.objects[p] {
                    Some(po) => {
                        let kept = without(&po.children, id);
                        po.children = kept;
                    },
                    None => {},
                }
            },
            None => {
                let kept = without(&self.roots, id);
                self.roots = kept;
            },
        }
        let ghost s1 = self.slots();
        let ghost r1 = self.root_ids();
        proof {
            assert forall|x: int| 0 <= x < s0.len() && #[trigger] s0[x] is Some implies {
                &&& s1[x] is Some
                &&& s1[x]->Some_0.same_but_children(&s0[x]->Some_0)
                &&& s1[x]->Some_0.children@ == remove_all(s0[x]->Some_0.children@, id)
            } by {
                assert(old(self).alive(x));
                assert(old(self).node_ok(x));
                if parent != Some(x as usize) {
                    if s0[x]->Some_0.children@.contains(id) {
                        assert(old(self).obj(id as int).parent == Some(x as usize));
                    }
                    lemma_remove_absent(s0[x]->Some_0.children@, id);
                }
            }
            if parent is Some {
                if r0.contains(id) {
                    assert(old(self).obj(id as int).parent is None);
                }
                lemma_remove_absent(r0, id);
            }
            assert(r1 == remove_all(r0, id));
        }
        let len = self.objects.len();
        let mut doomed: Vec<bool> = Vec::new();
        let mut j: usize = id;
        while j < len
            invariant
                old(self).wf(),
                s0 == old(self).slots(),
                len == s0.len(),
                len == s1.len(),
                self.slots().len() == len,
                id < len,
                id <= j <= len,
                doomed@.len() == j - id,
                forall|k: int|
                    0 <= k < doomed@.len() ==> #[trigger] doomed@[k] == old(self).descends(
                        id + k,
                        id as int,
                    ),
                forall|x: int| 0 <= x < len ==> (#[trigger] s1[x] is Some) == (s0[x] is Some),
                forall|x: int|
                    0 <= x < len && #[trigger] s0[x] is Some ==> s1[x]->Some_0.parent
                        == s0[x]->Some_0.parent,
                forall|x: int|
                    0 <= x < len ==> #[trigger] self.slots()[x] == if id <= x < j
                        && old(self).descends(x, id as int) {
                        None
                    } else {
                        s1[x]
                    },
                self.root_ids() == r1,
            decreases len - j,
        {
            proof {
                let jj = j as int;
                assert(self.slots()[jj] == s1[jj]);
                if s0[jj] is Some {
                    assert(old(self).alive(jj));
                    assert(old(self).node_ok(jj));
                    assert(s1[jj]->Some_0.parent == s0[jj]->Some_0.parent);
                }
            }
            let here = match &self.objects[j] {
                Some(o) => j == id || match o.parent {
                    Some(q) => q >= id && doomed[q - id],
                    None => false,
                },
                None => false,
            };
            proof {
                let jj = j as int;
                assert(s1[jj] is Some == s0[jj] is Some);
                if s0[jj] is Some {
                    assert(old(self).alive(jj));
                    assert(old(self).node_ok(jj));
                    if let Some(q) = s0[jj]->Some_0.parent {
                        if (q as int) < id {
                            if old(self).descends(q as int, id as int) {
                                old(self).lemma_descends_below(q as int, id as int);
                            }
                        } else {
                            assert(doomed@[q - id] == old(self).descends(id + (q - id), id as int));
                        }
                    }
                }
                assert(here == old(self).descends(jj, id as int));
            }
            doomed.push(here);
            if here {
                self.objects.set(j, None);
            }
            j = j + 1;
        }
        proof {
            let ghost w = old(self);
            assert(w.descends(id as int, id as int));
            assert forall|x: int| #[trigger]
                self.alive(x) <==> w.alive(x) && !w.descends(x, id as int) by {
                if 0 <= x < len {
                    assert(self.slots()[x] == if id <= x && w.descends(x, id as int) {
                        None
                    } else {
                        s1[x]
                    });
                    assert(s1[x] is Some == s0[x] is Some);
                    if w.descends(x, id as int) {
                        w.lemma_descends_below(x, id as int);
                    }
                }
            }
            assert forall|x: int| #[trigger] self.alive(x) implies self.obj(x).same_but_children(&w.obj(x))
                && self.obj(x).children@ == remove_all(w.obj(x).children@, id)
                && !self.obj(x).children@.contains(id) by {
                assert(self.slots()[x] == s1[x]);
                assert(s0[x] is Some);
                lemma_remove_all_contains(w.obj(x).children@, id);
            }
            lemma_remove_all_contains(w.root_ids(), id);
            assert forall|i: int| #[trigger] self.alive(i) implies self.node_ok(i) by {
                assert(w.alive(i));
                assert(w.node_ok(i));
                assert(self.obj(i).same_but_children(&w.obj(i)));
                let oi = w.obj(i);
                lemma_remove_all_contains(oi.children@, id);
                if let Some(q) = oi.parent {
                    assert(w.alive(q as int));
                    if w.descends(q as int, id as int) {
                        assert(w.descends(i, id as int));
                    }
                    assert(self.alive(q as int));
                    lemma_remove_all_contains(w.obj(q as int).children@, id);
                    assert(self.obj(q as int).children@ == remove_all(w.obj(q as int).children@, id));
                }
                assert forall|c: usize| #[trigger] self.obj(i).children@.contains(c) implies {
                    &&& i < c
                    &&& self.alive(c as int)
                    &&& self.obj(c as int).parent == Some(i as usize)
                } by {
                    assert(oi.children@.contains(c) && c != id);
                    assert(w.alive(c as int));
                    assert(w.obj(c as int).parent == Some(i as usize));
                    if w.descends(c as int, id as int) {
                        assert(w.descends(i, id as int));
                    }
                    assert(self.alive(c as int));
                    assert(self.obj(c as int).same_but_children(&w.obj(c as int)));
                }
            }
            assert forall|r: usize| #[trigger] self.root_ids().contains(r) implies self.alive(r as int)
                && self.obj(r as int).parent is None by {
                assert(w.root_ids().contains(r) && r != id);
                assert(w.alive(r as int));
                assert(!w.descends(r as int, id as int));
                assert(self.alive(r as int));
                assert(self.obj(r as int).same_but_children(&w.obj(r as int)));
            }
        }
    }

    /// Worlds with the same live ids, links and roots are whole together:
    /// changing objects in place through [`World::get_mut`] keeps a world whole.
    pub proof fn lemma_same_links(&self, other: &World<F>)
        requires
            self.wf(),
            other.root_ids() == self.root_ids(),
            forall|j: int| #[trigger] other.alive(j) == self.alive(j),
            forall|j: int| #[trigger]
                other.alive(j) ==> other.obj(j).children == self.obj(j).children && other.obj(
                    j,
                ).parent == self.obj(j).parent,
        ensures
            other.wf(),
    {
        assert forall|i: int| #[trigger] other.alive(i) implies other.node_ok(i) by {
            assert(self.alive(i));
            assert(self.node_ok(i));
            if let Some(p) = other.obj(i).parent {
                assert(other.alive(p as int));
            }
            assert forall|c: usize| #[trigger] other.obj(i).children@.contains(c) implies {
                &&& i < c
                &&& other.alive(c as int)
                &&& other.obj(c as int).parent == Some(i as usize)
            } by {
                assert(self.obj(i).children@.contains(c));
                assert(self.alive(c as int));
            }
        }
        assert forall|r: usize| #[trigger] other.root_ids().contains(r) implies other.alive(r as int)
            && other.obj(r as int).parent is None by {
            assert(self.root_ids().contains(r));
            assert(self.alive(r as int));
        }
    }

    /// The object with this id, for changing it in place, if it is alive.
    /// Its links stay with the world, so changing it keeps the world whole.
    pub fn get_mut(&mut self, id: usize) -> (r: Option<&mut Object<F>>)
        ensures
            r is Some <==> old(self).alive(id as int),
            final(self).root_ids() == old(self).root_ids(),
            final(self).slots().len() == old(self).slots().len(),
            forall|j: int| #[trigger]
                final(self).alive(j) == old(self).alive(j),
            forall|j: int|
                #![trigger final(self).slots()[j]]
                0 <= j < old(self).slots().len() && j != id ==> final(self).slots()[j]
                    == old(self).slots()[j],
            forall|j: int| #[trigger]
                final(self).alive(j) ==> final(self).obj(j).children == old(self).obj(j).children
                    && final(self).obj(j).parent == old(self).obj(j).parent,
            r matches Some(o) ==> *o == old(self).obj(id as int).object,
            r matches Some(o) ==> final(self).obj(id as int).object == *final(o),
            r is None ==> final(self).slots() == old(self).slots(),
    {
        if id < self.objects.len() {
            match &mut self.objects[id] {
                Some(n) => Some(&mut n.object),
                None => None,
            }
        } else {
            None
        }
    }

    /// The order objects are drawn in: every live object once, by increasing
    /// id, so a parent comes before its children and siblings come in the
    /// order they were spawned. Unlike a depth-first walk from the roots, a
    /// subtree's objects need not be drawn one after the other: objects
    /// spawned later under another root fall in between. Only the draw order
    /// depends on this, not the geometry drawn.
    pub fn draw_order(&self) -> (r: Vec<usize>)
        requires
            self.wf(),
        ensures
            forall|k: int| 0 <= k < r@.len() ==> self.alive(#[trigger] r@[k] as int),
            forall|a: int, b: int| 0 <= a < b < r@.len() ==> r@[a] < r@[b],
            forall|i: int| #[trigger] self.alive(i) ==> r@.contains(i as usize),
            forall|k: int|
                #![trigger r@[k]]
                0 <= k < r@.len() && self.obj(r@[k] as int).parent is Some ==> exists|a: int|
                    0 <= a < k && r@[a] == self.obj(r@[k] as int).parent->Some_0,
    {
        let mut r: Vec<usize> = Vec::new();
        let mut i: usize = 0;
        while i < self.objects.len()
            invariant
                i <= self.slots().len(),
                forall|k: int| 0 <= k < r@.len() ==> self.alive(#[trigger] r@[k] as int),
                forall|k: int| 0 <= k < r@.len() ==> #[trigger] r@[k] < i,
                forall|a: int, b: int| 0 <= a < b < r@.len() ==> r@[a] < r@[b],
                forall|x: int| 0 <= x < i && #[trigger] self.alive(x) ==> r@.contains(x as usize),
            decreases self.slots().len() - i,
        {
            if self.objects[i].is_some() {
                let ghost before = r@;
                r.push(i);
                proof {
                    assert forall|x: int| 0 <= x < i + 1 && #[trigger] self.alive(x) implies r@.contains(
                        x as usize,
                    ) by {
                        if x == i {
                            assert(r@[r@.len() - 1] == x);
                        } else {
                            assert(before.contains(x as usize));
                            let w = choose|w: int| 0 <= w < before.len() && before[w] == x;
                            assert(r@[w] == x);
                        }
                    }
                }
            }
            i = i + 1;
        }
        proof {
            assert forall|k: int|
                #![trigger r@[k]]
                0 <= k < r@.len() && self.obj(r@[k] as int).parent is Some implies exists|a: int|
                    0 <= a < k && r@[a] == self.obj(r@[k] as int).parent->Some_0 by {
                let c = r@[k] as int;
                assert(self.alive(c));
                assert(self.node_ok(c));
                let p = self.obj(c).parent->Some_0;
                assert(self.alive(p as int));
                assert(r@.contains(p));
                let a = choose|a: int| 0 <= a < r@.len() && r@[a] == p;
                if a >= k {
                    assert(r@[k] <= r@[a]);
                }
            }
        }
        r
    }

    /// The buffers of the first `k` slots: for each live object carrying a
    /// shape, by increasing id, the shape's primitives as vertices of that
    /// object.
    pub open spec fn flat_model(&self, k: int) -> (Seq<Vertex>, Seq<u32>)
        decreases k,
    {
        if k <= 0 {
            (seq![], seq![])
        } else {
            let m = self.flat_model(k - 1);
            if self.alive(k - 1) && self.obj(k - 1).object.geometry is Some {
                emit_faces(m, (k - 1) as usize, self.obj(k - 1).object.geometry->Some_0.faces())
            } else {
                m
            }
        }
    }

    /// Number of vertices of the shapes in the first `k` slots.
    pub open spec fn flat_count(&self, k: int) -> int
        decreases k,
    {
        if k <= 0 {
            0
        } else {
            self.flat_count(k - 1) + if self.alive(k - 1) && self.obj(k - 1).object.geometry is Some {
                self.obj(k - 1).object.geometry->Some_0.vertex_count()
            } else {
                0
            }
        }
    }

    /// Vertex counts only grow along the slots.
    pub proof fn lemma_flat_count_grows(&self, a: int, b: int)
        requires
            a <= b,
        ensures
            self.flat_count(a) <= self.flat_count(b),
        decreases b - a,
    {
        if a < b {
            self.lemma_flat_count_grows(a, b - 1);
            if self.alive(b - 1) && self.obj(b - 1).object.geometry is Some {
                lemma_counts_nonneg(self.obj(b - 1).object.geometry->Some_0.faces());
            }
        }
    }

    /// Flattens the world into one vertex/index buffer: the shapes of the
    /// live objects in [`World::draw_order`] (by increasing id, parents
    /// first), each as vertices of its object. Fails
    /// where the buffer would hold more vertices than `u32` indices address.
    pub fn flatten(&self) -> (r: Result<MeshData, MeshError>)
        ensures
            r is Ok <==> self.flat_count(self.next_id()) <= 0x1_0000_0000,
            r matches Ok(m) ==> m@ == self.flat_model(self.next_id()) && m.wf(),
    {
        let mut mesh = MeshData::new();
        proof {
            assert(mesh@ =~= self.flat_model(0));
        }
        let mut k: usize = 0;
        while k < self.objects.len()
            invariant
                k <= self.slots().len(),
                mesh.wf(),
                mesh@ == self.flat_model(k as int),
                mesh@.0.len() == self.flat_count(k as int),
                self.flat_count(k as int) <= 0x1_0000_0000,
            decreases self.slots().len() - k,
        {
            match &self.objects[k] {
                Some(o) => match &o.object.geometry {
                    Some(g) => {
                        let ghost before = mesh@;
                        match g.generate_mesh_data(&mut mesh, k) {
                            Ok(()) => {
                                proof {
                                    lemma_emit_faces(before, k, g.faces());
                                }
                            },
                            Err(e) => {
                                proof {
                                    self.lemma_flat_count_grows(k + 1, self.next_id());
                                }
                                return Err(e);
                            },
                        }
                    },
                    None => {},
                },
                None => {},
            }
            k = k + 1;
        }
        Ok(mesh)
    }

    /// With `id` the only live object, the slots up to `k` flatten to nothing
    /// before `id` and to the shape of `id` from there on.
    proof fn lemma_flat_single(&self, id: int, k: int)
        requires
            self.alive(id),
            forall|j: int| #[trigger] self.alive(j) ==> j == id,
            self.obj(id).object.geometry is Some,
        ensures
            self.flat_model(k) == if k <= id {
                (Seq::<Vertex>::empty(), Seq::<u32>::empty())
            } else {
                emit_faces(
                    (Seq::<Vertex>::empty(), Seq::<u32>::empty()),
                    id as usize,
                    self.obj(id).object.geometry->Some_0.faces(),
                )
            },
        decreases k,
    {
        if k > 0 {
            self.lemma_flat_single(id, k - 1);
            assert(self.alive(k - 1) ==> k - 1 == id);
            if k <= id {
                assert(self.flat_model(0) =~= (Seq::<Vertex>::empty(), Seq::<u32>::empty()));
            }
        } else {
            assert(self.flat_model(k) =~= (Seq::<Vertex>::empty(), Seq::<u32>::empty()));
        }
    }

    /// A world whose only live object is a cube flattens to the cube alone:
    /// 24 vertices of that object, each at a corner of `{-1, 1}^3` (in units of
    /// half the cube's edge), and 36 indices, each below 24.
    pub proof fn lemma_lone_cube(&self, id: int)
        requires
            self.wf(),
            self.alive(id),
            forall|j: int| #[trigger] self.alive(j) ==> j == id,
            self.obj(id).object.geometry matches Some(g) && g is Cube,
        ensures
            self.flat_count(self.next_id()) == 24,
            self.flat_model(self.next_id()).0.len() == 24,
            self.flat_model(self.next_id()).1.len() == 36,
            forall|k: int|
                0 <= k < 36 ==> (#[trigger] self.flat_model(self.next_id()).1[k]) < 24,
            forall|k: int|
                0 <= k < 24 ==> {
                    &&& (#[trigger] self.flat_model(self.next_id()).0[k]).object == id
                    &&& is_cube_corner(self.flat_model(self.next_id()).0[k].sample)
                },
    {
        let e = (Seq::<Vertex>::empty(), Seq::<u32>::empty());
        self.lemma_flat_single(id, self.next_id());
        self.lemma_flat_count_single(id, self.next_id());
        lemma_box_counts();
        lemma_box_shape(self.obj(id).object.geometry->Some_0);
        lemma_emit_faces(e, id as usize, box_faces());
        lemma_emit_samples(e, id as usize, box_faces(), |s| is_cube_corner(s));
        let m = self.flat_model(self.next_id());
        assert(indices_in_range(m));
        assert forall|k: int| 0 <= k < 36 implies (#[trigger] m.1[k]) < 24 by {
            assert((m.1[k] as int) < m.0.len());
        }
    }

    proof fn lemma_flat_count_single(&self, id: int, k: int)
        requires
            self.alive(id),
            forall|j: int| #[trigger] self.alive(j) ==> j == id,
            self.obj(id).object.geometry is Some,
        ensures
            self.flat_count(k) == if k <= id {
                0
            } else {
                self.obj(id).object.geometry->Some_0.vertex_count()
            },
        decreases k,
    {
        if k > 0 {
            self.lemma_flat_count_single(id, k - 1);
            assert(self.alive(k - 1) ==> k - 1 == id);
        }
    }
}

} // verus!
