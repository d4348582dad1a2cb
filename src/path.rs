//! Path graphs: vertices and edges kept in two arenas and addressed by
//! dense integer handles. An edge records where it starts and, unless the
//! extension was terminated, the vertex it created.
use vstd::prelude::*;

verus! {

pub type VertexID = usize;

pub type EdgeID = usize;

/// What a vertex stands for on a light-carrying path.
#[derive(PartialEq, Eq, Structural, Clone, Copy, Debug)]
pub enum VertexKind {
    Sensor,
    Surface,
    Volume,
    Emitter,
}

/// A vertex: its kind, the edge that created it (none for a root), the edges
/// sampled from it in order, and what the integrator stores with it.
pub struct Vertex<V> {
    pub kind: VertexKind,
    pub edge_in: Option<EdgeID>,
    pub edge_out: Vec<EdgeID>,
    pub data: V,
}

/// An edge: the vertex it leaves, the vertex it reached (none when the
/// extension was terminated), and what the integrator stores with it.
pub struct Edge<E> {
    pub from: VertexID,
    pub to: Option<VertexID>,
    pub data: E,
}

/// Arena of vertices and edges, built monotonically.
pub struct Path<V, E> {
    vertices: Vec<Vertex<V>>,
    edges: Vec<Edge<E>>,
}

impl<V, E> Path<V, E> {
    pub closed spec fn vertex_seq(&self) -> Seq<Vertex<V>> {
        self.vertices@
    }

    pub closed spec fn edge_seq(&self) -> Seq<Edge<E>> {
        self.edges@
    }

    pub open spec fn nv(&self) -> nat {
        self.vertex_seq().len()
    }

    pub open spec fn ne(&self) -> nat {
        self.edge_seq().len()
    }

    /// Outgoing edges of vertex `v`, in the order they were sampled.
    pub open spec fn out(&self, v: int) -> Seq<EdgeID> {
        self.vertex_seq()[v].edge_out@
    }

    /// Edge `e` is consistent with both of its ends: it leaves an older
    /// vertex that lists it, and the vertex it reached, created after its
    /// origin, names it as its incoming edge.
    pub open spec fn edge_wf(&self, e: int) -> bool {
        let ed = self.edge_seq()[e];
        &&& ed.from < self.nv()
        &&& self.out(ed.from as int).contains(e as usize)
        &&& (ed.to matches Some(w) ==> ed.from < w && w < self.nv()
            && self.vertex_seq()[w as int].edge_in == Some(e as usize))
    }

    /// Vertex `v` is consistent with its edges: the incoming edge reaches it,
    /// the outgoing ones leave it, and none is listed twice.
    pub open spec fn vertex_wf(&self, v: int) -> bool {
        let vx = self.vertex_seq()[v];
        &&& (vx.edge_in matches Some(e) ==> e < self.ne() && self.edge_seq()[e as int].to
            == Some(v as usize))
        &&& forall|j: int|
            0 <= j < vx.edge_out@.len() ==> {
                &&& #[trigger] vx.edge_out@[j] < self.ne()
                &&& self.edge_seq()[vx.edge_out@[j] as int].from == v
            }
        &&& vx.edge_out@.no_duplicates()
    }

    pub open spec fn wf(&self) -> bool {
        &&& self.nv() <= usize::MAX
        &&& self.ne() <= usize::MAX
        &&& forall|e: int| 0 <= e < self.ne() ==> #[trigger] self.edge_wf(e)
        &&& forall|v: int| 0 <= v < self.nv() ==> #[trigger] self.vertex_wf(v)
    }

    /// Whether `v` starts a tree of the forest.
    pub open spec fn is_root(&self, v: int) -> bool {
        self.vertex_seq()[v].edge_in is None
    }

    /// The edges from the root of `v`'s tree down to `v`, in order.
    pub open spec fn root_chain(&self, v: nat) -> Seq<EdgeID>
        decreases v,
    {
        if v < self.nv() {
            match self.vertex_seq()[v as int].edge_in {
                Some(e) => if e < self.ne() && self.edge_seq()[e as int].from < v {
                    self.root_chain(self.edge_seq()[e as int].from as nat).push(e)
                } else {
                    Seq::empty()
                },
                None => Seq::empty(),
            }
        } else {
            Seq::empty()
        }
    }

    /// The root of the tree that holds `v`.
    pub open spec fn root_of(&self, v: nat) -> nat {
        let c = self.root_chain(v);
        if c.len() == 0 {
            v
        } else {
            self.edge_seq()[c[0] as int].from as nat
        }
    }

    /// Depth of a vertex: 1 for a root, one more for each edge below it.
    pub open spec fn depth(&self, v: nat) -> nat {
        self.root_chain(v).len() + 1
    }

    /// The vertex that the incoming edge of `v` leaves.
    pub open spec fn parent(&self, v: nat) -> nat {
        self.edge_seq()[self.vertex_seq()[v as int].edge_in.unwrap() as int].from as nat
    }

    /// Whether `a` is `x` or lies above it in its tree.
    pub open spec fn is_ancestor(&self, a: nat, x: nat) -> bool
        decreases x,
    {
        if x == a {
            true
        } else if x < self.nv() && !self.is_root(x as int) && self.parent(x) < x {
            self.is_ancestor(a, self.parent(x))
        } else {
            false
        }
    }

    /// A vertex that is not a root lies below its parent.
    pub proof fn lemma_parent(&self, x: nat)
        requires
            self.wf(),
            x < self.nv(),
            !self.is_root(x as int),
        ensures
            self.parent(x) < x,
            self.out(self.parent(x) as int).contains(self.vertex_seq()[x as int].edge_in.unwrap()),
            self.edge_seq()[self.vertex_seq()[x as int].edge_in.unwrap() as int].to == Some(x as usize),
    {
        assert(self.vertex_wf(x as int));
        assert(self.edge_wf(self.vertex_seq()[x as int].edge_in.unwrap() as int));
    }

    pub proof fn lemma_ancestor_le(&self, a: nat, x: nat)
        requires
            self.is_ancestor(a, x),
        ensures
            a <= x,
        decreases x,
    {
        if x != a {
            self.lemma_ancestor_le(a, self.parent(x));
        }
    }

    pub proof fn lemma_ancestor_trans(&self, a: nat, b: nat, c: nat)
        requires
            self.is_ancestor(a, b),
            self.is_ancestor(b, c),
        ensures
            self.is_ancestor(a, c),
        decreases c,
    {
        if c != b {
            self.lemma_ancestor_trans(a, b, self.parent(c));
        }
    }

    /// The ancestors of a vertex form a chain.
    pub proof fn lemma_ancestors_ordered(&self, a: nat, b: nat, x: nat)
        requires
            self.is_ancestor(a, x),
            self.is_ancestor(b, x),
        ensures
            self.is_ancestor(a, b) || self.is_ancestor(b, a),
        decreases x,
    {
        if x != a && x != b {
            self.lemma_ancestors_ordered(a, b, self.parent(x));
        }
    }

    /// The root of a vertex's tree lies above it.
    pub proof fn lemma_root_is_ancestor(&self, x: nat)
        requires
            self.wf(),
            x < self.nv(),
        ensures
            self.is_ancestor(self.root_of(x), x),
            self.is_root(self.root_of(x) as int),
            self.root_of(x) < self.nv(),
        decreases x,
    {
        self.lemma_root_chain_links(x);
        if !self.is_root(x as int) {
            self.lemma_parent(x);
            let f = self.parent(x);
            self.lemma_root_is_ancestor(f);
            let c = self.root_chain(x);
            let cf = self.root_chain(f);
            assert(c == cf.push(self.vertex_seq()[x as int].edge_in.unwrap()));
            if cf.len() > 0 {
                assert(c[0] == cf[0]);
            } else {
                assert(self.root_of(x) == f);
            }
        }
    }

    /// `self` holds `old` unchanged, but for edges appended to the outgoing
    /// lists of its vertices.
    pub open spec fn extends(&self, old: &Path<V, E>) -> bool {
        &&& old.nv() <= self.nv()
        &&& old.ne() <= self.ne()
        &&& forall|e: int| 0 <= e < old.ne() ==> #[trigger] self.edge_seq()[e] == old.edge_seq()[e]
        &&& forall|v: int|
            0 <= v < old.nv() ==> {
                &&& #[trigger] self.vertex_seq()[v].kind == old.vertex_seq()[v].kind
                &&& self.vertex_seq()[v].edge_in == old.vertex_seq()[v].edge_in
                &&& self.vertex_seq()[v].data == old.vertex_seq()[v].data
                &&& old.out(v).is_prefix_of(self.out(v))
            }
    }

    /// An empty arena.
    pub fn new() -> (r: Path<V, E>)
        ensures
            r.wf(),
            r.nv() == 0,
            r.ne() == 0,
    {
        Path { vertices: Vec::new(), edges: Vec::new() }
    }

    pub fn nb_vertices(&self) -> (r: usize)
        ensures
            r == self.nv(),
    {
        self.vertices.len()
    }

    pub fn nb_edges(&self) -> (r: usize)
        ensures
            r == self.ne(),
    {
        self.edges.len()
    }

    pub fn vertex(&self, id: VertexID) -> (r: &Vertex<V>)
        requires
            id < self.nv(),
        ensures
            *r == self.vertex_seq()[id as int],
    {
        &self.vertices[id]
    }

    /// Adds a root: a vertex that no edge reaches.
    pub fn register_vertex(&mut self, kind: VertexKind, data: V) -> (r: VertexID)
        requires
            old(self).wf(),
            old(self).nv() < usize::MAX,
        ensures
            final(self).wf(),
            r == old(self).nv(),
            final(self).nv() == old(self).nv() + 1,
            final(self).ne() == old(self).ne(),
            final(self).extends(old(self)),
            final(self).vertex_seq()[r as int].kind == kind,
            final(self).vertex_seq()[r as int].edge_in is None,
            final(self).out(r as int).len() == 0,
            final(self).vertex_seq()[r as int].data == data,
    {
        let r = self.vertices.len();
        self.vertices.push(Vertex { kind, edge_in: None, edge_out: Vec::new(), data });
        proof {
            let o = old(self);
            assert forall|e: int| 0 <= e < self.ne() implies #[trigger] self.edge_wf(e) by {
                assert(o.edge_wf(e));
                assert(self.out(self.edge_seq()[e].from as int) == o.out(o.edge_seq()[e].from as int));
            }
            assert forall|v: int| 0 <= v < self.nv() implies #[trigger] self.vertex_wf(v) by {
                if v < o.nv() {
                    assert(o.vertex_wf(v));
                }
            }
            assert forall|v: int| 0 <= v < o.nv() implies old(self).out(v).is_prefix_of(self.out(v)) by {
                assert(o.out(v) =~= self.out(v));
            }
        }
        r
    }

    /// Records a terminated extension from `from`: an edge that reached no vertex.
    pub fn register_edge(&mut self, from: VertexID, data: E) -> (r: EdgeID)
        requires
            old(self).wf(),
            from < old(self).nv(),
            old(self).ne() < usize::MAX,
        ensures
            final(self).wf(),
            r == old(self).ne(),
            final(self).nv() == old(self).nv(),
            final(self).ne() == old(self).ne() + 1,
            final(self).extends(old(self)),
            final(self).edge_seq()[r as int] == (Edge { from, to: None, data }),
            final(self).out(from as int) == old(self).out(from as int).push(r),
            forall|v: int|
                0 <= v < old(self).nv() && v != from ==> #[trigger] final(self).out(v) == old(self).out(v),
    {
        let r = self.edges.len();
        let ghost d = data;
        self.edges.push(Edge { from, to: None, data });
        self.vertices[from].edge_out.push(r);
        proof {
            self.lemma_append_edge(old(self), from, r, d);
        }
        r
    }

    /// Records an extension from `from` that created a vertex: the new edge
    /// and the new vertex, which the edge reaches.
    pub fn register_extension(&mut self, from: VertexID, kind: VertexKind, vdata: V, edata: E) -> (r: (EdgeID, VertexID))
        requires
            old(self).wf(),
            from < old(self).nv(),
            old(self).ne() < usize::MAX,
            old(self).nv() < usize::MAX,
        ensures
            final(self).wf(),
            r.0 == old(self).ne(),
            r.1 == old(self).nv(),
            final(self).nv() == old(self).nv() + 1,
            final(self).ne() == old(self).ne() + 1,
            final(self).extends(old(self)),
            final(self).edge_seq()[r.0 as int] == (Edge { from, to: Some(r.1), data: edata }),
            final(self).vertex_seq()[r.1 as int].kind == kind,
            final(self).vertex_seq()[r.1 as int].edge_in == Some(r.0),
            final(self).out(r.1 as int).len() == 0,
            final(self).vertex_seq()[r.1 as int].data == vdata,
            final(self).out(from as int) == old(self).out(from as int).push(r.0),
            forall|v: int|
                0 <= v < old(self).nv() && v != from ==> #[trigger] final(self).out(v) == old(self).out(v),
            final(self).root_chain(r.1 as nat) == final(self).root_chain(from as nat).push(r.0),
    {
        let e = self.edges.len();
        let w = self.vertices.len();
        self.edges.push(Edge { from, to: Some(w), data: edata });
        self.vertices[from].edge_out.push(e);
        self.vertices.push(Vertex { kind, edge_in: Some(e), edge_out: Vec::new(), data: vdata });
        proof {
            let o = old(self);
            assert forall|x: int| 0 <= x < self.ne() implies #[trigger] self.edge_wf(x) by {
                if x < o.ne() {
                    assert(o.edge_wf(x));
                    let f = o.edge_seq()[x].from as int;
                    if f == from {
                        assert(self.out(f) == o.out(f).push(e));
                        assert(o.out(f).contains(x as usize));
                        let j = choose|j: int| 0 <= j < o.out(f).len() && o.out(f)[j] == x as usize;
                        assert(self.out(f)[j] == x as usize);
                    } else {
                        assert(self.out(f) == o.out(f));
                    }
                } else {
                    assert(self.out(from as int)[o.out(from as int).len() as int] == e);
                }
            }
            assert forall|v: int| 0 <= v < self.nv() implies #[trigger] self.vertex_wf(v) by {
                if v < o.nv() {
                    assert(o.vertex_wf(v));
                    if v == from {
                        assert(self.out(v) == o.out(v).push(e));
                        assert forall|j: int| 0 <= j < self.out(v).len() implies #[trigger] self.out(v)[j] < self.ne()
                            && self.edge_seq()[self.out(v)[j] as int].from == v by {
                            if j < o.out(v).len() {
                                assert(self.out(v)[j] == o.out(v)[j]);
                                assert(o.out(v)[j] < o.ne());
                            }
                        }
                        assert forall|j: int, k: int| 0 <= j < k < self.out(v).len() implies self.out(v)[j] != self.out(v)[k] by {
                            if k < o.out(v).len() {
                                assert(o.out(v)[j] != o.out(v)[k]);
                            } else {
                                assert(o.out(v)[j] < o.ne());
                            }
                        }
                    } else {
                        assert(self.out(v) == o.out(v));
                    }
                }
            }
            assert forall|v: int| 0 <= v < o.nv() implies old(self).out(v).is_prefix_of(self.out(v)) by {
                if v == from {
                    assert(o.out(v) =~= self.out(v).subrange(0, o.out(v).len() as int));
                } else {
                    assert(o.out(v) =~= self.out(v));
                }
            }
            assert(self.root_chain(w as nat) == self.root_chain(from as nat).push(e));
        }
        (e, w)
    }

    proof fn lemma_append_edge(&self, o: &Path<V, E>, from: VertexID, e: EdgeID, data: E)
        requires
            o.wf(),
            from < o.nv(),
            e == o.ne(),
            o.ne() < usize::MAX,
            self.nv() == o.nv(),
            self.edge_seq() == o.edge_seq().push(Edge { from, to: None, data }),
            self.out(from as int) == o.out(from as int).push(e),
            forall|v: int| 0 <= v < o.nv() ==> {
                &&& (#[trigger] self.vertex_seq()[v]).kind == o.vertex_seq()[v].kind
                &&& self.vertex_seq()[v].edge_in == o.vertex_seq()[v].edge_in
                &&& self.vertex_seq()[v].data == o.vertex_seq()[v].data
                &&& (v != from ==> self.out(v) == o.out(v))
            },
        ensures
            self.wf(),
            self.extends(o),
    {
        assert forall|x: int| 0 <= x < self.ne() implies #[trigger] self.edge_wf(x) by {
            if x < o.ne() {
                assert(o.edge_wf(x));
                let f = o.edge_seq()[x].from as int;
                assert(self.edge_seq()[x] == o.edge_seq()[x]);
                if f == from {
                    assert(o.out(f).contains(x as usize));
                    let j = choose|j: int| 0 <= j < o.out(f).len() && o.out(f)[j] == x as usize;
                    assert(self.out(f)[j] == x as usize);
                }
                if let Some(w) = o.edge_seq()[x].to {
                    assert(w < o.nv());
                    assert(self.vertex_seq()[w as int].edge_in == o.vertex_seq()[w as int].edge_in);
                }
            } else {
                assert(self.out(from as int)[o.out(from as int).len() as int] == e);
            }
        }
        assert forall|v: int| 0 <= v < self.nv() implies #[trigger] self.vertex_wf(v) by {
            assert(o.vertex_wf(v));
            if let Some(x) = o.vertex_seq()[v].edge_in {
                assert(self.edge_seq()[x as int] == o.edge_seq()[x as int]);
            }
            if v == from {
                assert forall|j: int| 0 <= j < self.out(v).len() implies #[trigger] self.out(v)[j] < self.ne()
                    && self.edge_seq()[self.out(v)[j] as int].from == v by {
                    if j < o.out(v).len() {
                        assert(self.out(v)[j] == o.out(v)[j]);
                        assert(o.out(v)[j] < o.ne());
                    }
                }
                assert forall|j: int, k: int| 0 <= j < k < self.out(v).len() implies self.out(v)[j] != self.out(v)[k] by {
                    if k < o.out(v).len() {
                        assert(o.out(v)[j] != o.out(v)[k]);
                    } else {
                        assert(o.out(v)[j] < o.ne());
                    }
                }
            } else {
                assert forall|j: int| 0 <= j < self.out(v).len() implies #[trigger] self.out(v)[j] < self.ne()
                    && self.edge_seq()[self.out(v)[j] as int].from == v by {
                    assert(self.out(v)[j] == o.out(v)[j]);
                    assert(o.out(v)[j] < o.ne());
                }
            }
        }
        assert forall|v: int| 0 <= v < o.nv() implies o.out(v).is_prefix_of(self.out(v)) by {
            if v == from {
                assert(o.out(v) =~= self.out(v).subrange(0, o.out(v).len() as int));
            } else {
                assert(o.out(v) =~= self.out(v));
            }
        }
    }

    /// Replaces what the integrator stores with vertex `id`.
    pub fn set_vertex_data(&mut self, id: VertexID, data: V)
        requires
            old(self).wf(),
            id < old(self).nv(),
        ensures
            final(self).wf(),
            final(self).nv() == old(self).nv(),
            final(self).edge_seq() == old(self).edge_seq(),
            final(self).vertex_seq()[id as int].data == data,
            final(self).vertex_seq()[id as int].kind == old(self).vertex_seq()[id as int].kind,
            final(self).vertex_seq()[id as int].edge_in == old(self).vertex_seq()[id as int].edge_in,
            final(self).out(id as int) == old(self).out(id as int),
            forall|v: int|
                0 <= v < old(self).nv() && v != id ==> #[trigger] final(self).vertex_seq()[v] == old(self).vertex_seq()[v],
    {
        self.vertices[id].data = data;
        proof {
            let o = old(self);
            assert forall|x: int| 0 <= x < self.ne() implies #[trigger] self.edge_wf(x) by {
                assert(o.edge_wf(x));
                let f = o.edge_seq()[x].from as int;
                assert(self.out(f) == o.out(f));
            }
            assert forall|v: int| 0 <= v < self.nv() implies #[trigger] self.vertex_wf(v) by {
                assert(o.vertex_wf(v));
                assert(self.out(v) == o.out(v));
            }
        }
    }

    pub proof fn lemma_extends_trans(&self, mid: &Path<V, E>, o: &Path<V, E>)
        requires
            self.extends(mid),
            mid.extends(o),
        ensures
            self.extends(o),
    {
        assert forall|v: int| 0 <= v < o.nv() implies o.out(v).is_prefix_of(self.out(v)) by {
            assert(mid.vertex_seq()[v].kind == o.vertex_seq()[v].kind);
            assert(self.vertex_seq()[v].kind == mid.vertex_seq()[v].kind);
            assert(o.out(v).is_prefix_of(mid.out(v)));
            assert(mid.out(v).is_prefix_of(self.out(v)));
            assert forall|j: int| 0 <= j < o.out(v).len() implies o.out(v)[j] == self.out(v)[j] by {
                assert(o.out(v)[j] == mid.out(v)[j]);
            }
        }
        assert forall|e: int| 0 <= e < o.ne() implies #[trigger] self.edge_seq()[e] == o.edge_seq()[e] by {
            assert(mid.edge_seq()[e] == o.edge_seq()[e]);
        }
        assert forall|v: int| 0 <= v < o.nv() implies #[trigger] self.vertex_seq()[v].kind == o.vertex_seq()[v].kind by {
            assert(mid.vertex_seq()[v].kind == o.vertex_seq()[v].kind);
        }
    }

    pub proof fn lemma_extends_refl(&self)
        ensures
            self.extends(self),
    {
        assert forall|v: int| 0 <= v < self.nv() implies self.out(v).is_prefix_of(self.out(v)) by {
            assert(self.out(v) =~= self.out(v).subrange(0, self.out(v).len() as int));
        }
    }

    /// Vertices that existed before keep their chain to the root.
    pub proof fn lemma_chain_kept(&self, o: &Path<V, E>, v: nat)
        requires
            o.wf(),
            self.extends(o),
            v < o.nv(),
        ensures
            self.root_chain(v) == o.root_chain(v),
            self.root_of(v) == o.root_of(v),
        decreases v,
    {
        o.lemma_root_chain_links(v);
        let c = o.root_chain(v);
        if c.len() > 0 {
            assert(c[0] < o.ne());
        }
        assert(self.vertex_seq()[v as int].kind == o.vertex_seq()[v as int].kind);
        assert(o.vertex_wf(v as int));
        if let Some(e) = o.vertex_seq()[v as int].edge_in {
            assert(self.edge_seq()[e as int] == o.edge_seq()[e as int]);
            let f = o.edge_seq()[e as int].from;
            assert(o.edge_wf(e as int));
            if f < v {
                self.lemma_chain_kept(o, f as nat);
            }
        }
    }

    /// The chain of `v` is a connected walk: it leaves a root, each edge ends
    /// where the next begins, and the last one reaches `v`. With no edge, `v`
    /// is itself a root.
    pub proof fn lemma_root_chain_links(&self, v: nat)
        requires
            self.wf(),
            v < self.nv(),
        ensures
            ({
                let c = self.root_chain(v);
                &&& c.len() == 0 ==> self.is_root(v as int)
                &&& c.len() > 0 ==> self.is_root(self.edge_seq()[c[0] as int].from as int)
                &&& c.len() > 0 ==> self.edge_seq()[c.last() as int].to == Some(v as usize)
                &&& forall|i: int| 0 <= i < c.len() ==> #[trigger] c[i] < self.ne()
                &&& forall|i: int|
                    0 <= i < c.len() - 1 ==> self.edge_seq()[#[trigger] c[i] as int].to == Some(
                        self.edge_seq()[c[i + 1] as int].from,
                    )
            }),
        decreases v,
    {
        assert(self.vertex_wf(v as int));
        if let Some(e) = self.vertex_seq()[v as int].edge_in {
            assert(self.edge_wf(e as int));
            let f = self.edge_seq()[e as int].from;
            self.lemma_root_chain_links(f as nat);
            let c = self.root_chain(v);
            let cf = self.root_chain(f as nat);
            assert(c == cf.push(e));
            if cf.len() > 0 {
                assert(self.edge_seq()[cf.last() as int].to == Some(f));
                assert(c[0] == cf[0]);
            }
            assert forall|i: int| 0 <= i < c.len() - 1 implies self.edge_seq()[#[trigger] c[i] as int].to == Some(
                self.edge_seq()[c[i + 1] as int].from,
            ) by {
                assert(c[i] == cf[i]);
                if i < cf.len() - 1 {
                    assert(c[i + 1] == cf[i + 1]);
                } else {
                    assert(cf[i] == cf.last());
                }
            }
            assert forall|i: int| 0 <= i < c.len() implies #[trigger] c[i] < self.ne() by {
                if i < cf.len() {
                    assert(c[i] == cf[i]);
                }
            }
        }
    }

    /// The edges from the root of `v`'s tree down to `v`, in order: the
    /// factors whose product is what the path carries to `v`.
    pub fn chain_to_root(&self, v: VertexID) -> (r: Vec<EdgeID>)
        requires
            self.wf(),
            v < self.nv(),
        ensures
            r@ == self.root_chain(v as nat),
    {
        let mut rev: Vec<EdgeID> = Vec::new();
        let mut cur: VertexID = v;
        proof {
            self.lemma_root_chain_links(v as nat);
        }
        while self.vertices[cur].edge_in.is_some()
            invariant
                self.wf(),
                cur < self.nv(),
                self.root_chain(v as nat) == self.root_chain(cur as nat) + rev@.reverse(),
            decreases cur,
        {
            let e = self.vertices[cur].edge_in.unwrap();
            proof {
                assert(self.vertex_wf(cur as int));
                assert(self.edge_wf(e as int));
            }
            let f = self.edges[e].from;
            proof {
                let old_rev = rev@;
                assert(self.root_chain(cur as nat) == self.root_chain(f as nat).push(e));
                assert(old_rev.push(e).reverse() =~= seq![e] + old_rev.reverse());
                assert(self.root_chain(f as nat).push(e) + old_rev.reverse() =~= self.root_chain(f as nat)
                    + (seq![e] + old_rev.reverse()));
            }
            rev.push(e);
            cur = f;
        }
        let mut r: Vec<EdgeID> = Vec::new();
        let mut i: usize = rev.len();
        while i > 0
            invariant
                i <= rev.len(),
                r@ == rev@.subrange(i as int, rev.len() as int).reverse(),
            decreases i,
        {
            i = i - 1;
            r.push(rev[i]);
            assert(r@ =~= rev@.subrange(i as int, rev.len() as int).reverse());
        }
        assert(rev@.subrange(0, rev.len() as int) =~= rev@);
        assert(self.root_chain(cur as nat) =~= Seq::<EdgeID>::empty());
        assert(self.root_chain(v as nat) =~= rev@.reverse());
        r
    }

    pub fn edge(&self, id: EdgeID) -> (r: &Edge<E>)
        requires
            id < self.ne(),
        ensures
            *r == self.edge_seq()[id as int],
    {
        &self.edges[id]
    }
}

} // verus!
