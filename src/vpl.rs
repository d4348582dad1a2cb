//! Virtual point lights: the order in which a light path's vertices become
//! VPLs, and the first pass that shoots light paths until enough VPLs exist.
use vstd::prelude::*;
use crate::generator::{flatten, generate, recorded, runs_of, within, Event, Extension, Technique};
use crate::path::{Path, VertexID, VertexKind};

verus! {

/// Vertices of the tree below `v` that become VPLs, depth first: `v` itself,
/// then, edge by edge in sampling order, the tree below the vertex each edge
/// reached. A sensor vertex gives none and is not descended.
pub open spec fn subtree_order<V, E>(p: &Path<V, E>, v: nat) -> Seq<VertexID>
    decreases p.nv() - v, p.out(v as int).len() + 1,
{
    if v < p.nv() && p.vertex_seq()[v as int].kind != VertexKind::Sensor {
        seq![v as usize] + edges_order(p, v, 0)
    } else {
        Seq::empty()
    }
}

/// The part of `subtree_order(p, v)` below the edges of `v` from the `k`-th on.
pub open spec fn edges_order<V, E>(p: &Path<V, E>, v: nat, k: nat) -> Seq<VertexID>
    decreases p.nv() - v, p.out(v as int).len() - k,
{
    if v < p.nv() && k < p.out(v as int).len() {
        let e = p.out(v as int)[k as int];
        let rest = edges_order(p, v, k + 1);
        if e < p.ne() {
            match p.edge_seq()[e as int].to {
                Some(w) => if v < w && w < p.nv() {
                    subtree_order(p, w as nat) + rest
                } else {
                    rest
                },
                None => rest,
            }
        } else {
            rest
        }
    } else {
        Seq::empty()
    }
}

/// The vertices below `root` that become VPLs, in emission order.
pub fn emission_order<V, E>(path: &Path<V, E>, root: VertexID) -> (r: Vec<VertexID>)
    requires
        path.wf(),
        root < path.nv(),
    ensures
        r@ == subtree_order(path, root as nat),
{
    let mut r: Vec<VertexID> = Vec::new();
    push_subtree(path, root, &mut r);
    assert(r@ =~= subtree_order(path, root as nat));
    r
}

fn push_subtree<V, E>(path: &Path<V, E>, v: VertexID, out: &mut Vec<VertexID>)
    requires
        path.wf(),
        v < path.nv(),
    ensures
        final(out)@ == old(out)@ + subtree_order(path, v as nat),
    decreases path.nv() - v, path.out(v as int).len() + 1,
{
    if path.vertex(v).kind != VertexKind::Sensor {
        out.push(v);
        push_edges(path, v, 0, out);
        assert(final(out)@ =~= old(out)@ + subtree_order(path, v as nat));
    } else {
        assert(final(out)@ =~= old(out)@ + subtree_order(path, v as nat));
    }
}

fn push_edges<V, E>(path: &Path<V, E>, v: VertexID, k: usize, out: &mut Vec<VertexID>)
    requires
        path.wf(),
        v < path.nv(),
        k <= path.out(v as int).len(),
    ensures
        final(out)@ == old(out)@ + edges_order(path, v as nat, k as nat),
    decreases path.nv() - v, path.out(v as int).len() - k,
{
    let vx = path.vertex(v);
    if k < vx.edge_out.len() {
        let e = vx.edge_out[k];
        proof {
            assert(path.vertex_wf(v as int));
            assert(path.out(v as int)[k as int] < path.ne());
        }
        let ed = path.edge(e);
        match ed.to {
            Some(w) => {
                if v < w && w < path.nb_vertices() {
                    push_subtree(path, w, out);
                }
            },
            None => {},
        }
        push_edges(path, v, k + 1, out);
        assert(final(out)@ =~= old(out)@ + edges_order(path, v as nat, k as nat));
    } else {
        assert(final(out)@ =~= old(out)@ + edges_order(path, v as nat, k as nat));
    }
}

/// The vertex that the `j`-th outgoing edge of `v` reached, when it is one
/// that the emission order descends to.
pub open spec fn child_via<V, E>(p: &Path<V, E>, v: nat, j: int) -> Option<nat> {
    let e = p.out(v as int)[j];
    if e < p.ne() {
        match p.edge_seq()[e as int].to {
            Some(w) => if v < w && w < p.nv() {
                Some(w as nat)
            } else {
                None
            },
            None => None,
        }
    } else {
        None
    }
}

/// What the edges of `v` from the `k`-th on contribute comes from the
/// subtree of one of the vertices they reached.
proof fn lemma_edges_member<V, E>(p: &Path<V, E>, v: nat, k: nat, y: VertexID)
    requires
        v < p.nv(),
        edges_order(p, v, k).contains(y),
    ensures
        exists|j: int, w: nat|
            k <= j < p.out(v as int).len() && #[trigger] child_via(p, v, j) == Some(w) && #[trigger] subtree_order(
                p,
                w,
            ).contains(y),
    decreases p.out(v as int).len() - k,
{
    if k < p.out(v as int).len() {
        let rest = edges_order(p, v, k + 1);
        match child_via(p, v, k as int) {
            Some(w) => {
                assert(edges_order(p, v, k) == subtree_order(p, w) + rest);
                if subtree_order(p, w).contains(y) {
                    assert(k <= k as int && child_via(p, v, k as int) == Some(w));
                } else {
                    assert(rest.contains(y));
                    lemma_edges_member(p, v, k + 1, y);
                }
            },
            None => {
                assert(edges_order(p, v, k) == rest);
                lemma_edges_member(p, v, k + 1, y);
            },
        }
    }
}

/// A child reached through an edge has `v` as its parent.
proof fn lemma_child_parent<V, E>(p: &Path<V, E>, v: nat, j: int, w: nat)
    requires
        p.wf(),
        v < p.nv(),
        0 <= j < p.out(v as int).len(),
        child_via(p, v, j) == Some(w),
    ensures
        p.is_ancestor(v, w),
        !p.is_root(w as int),
        p.parent(w) == v,
        p.vertex_seq()[w as int].edge_in == Some(p.out(v as int)[j]),
{
    let e = p.out(v as int)[j];
    assert(p.vertex_wf(v as int));
    assert(p.edge_wf(e as int));
    assert(p.is_ancestor(v, v));
}

/// Everything the emission order lists below `v` lies below `v`.
proof fn lemma_subtree_sound<V, E>(p: &Path<V, E>, v: nat, y: VertexID)
    requires
        p.wf(),
        subtree_order(p, v).contains(y),
    ensures
        p.is_ancestor(v, y as nat),
        y < p.nv(),
    decreases p.nv() - v,
{
    if y as nat != v {
        assert(v < p.nv());
        let s = subtree_order(p, v);
        let i = choose|i: int| 0 <= i < s.len() && s[i] == y;
        assert(s[0] == v as usize);
        assert(i > 0);
        assert(edges_order(p, v, 0)[i - 1] == y);
        lemma_edges_member(p, v, 0, y);
        let (j, w) = choose|j: int, w: nat|
            0 <= j < p.out(v as int).len() && #[trigger] child_via(p, v, j) == Some(w) && #[trigger] subtree_order(
                p,
                w,
            ).contains(y);
        lemma_subtree_sound(p, w, y);
        lemma_child_parent(p, v, j, w);
        p.lemma_ancestor_trans(v, w, y as nat);
    } else {
        assert(subtree_order(p, v)[0] == y);
    }
}

proof fn lemma_concat_no_dup(a: Seq<VertexID>, b: Seq<VertexID>)
    requires
        a.no_duplicates(),
        b.no_duplicates(),
        forall|y: VertexID| a.contains(y) ==> !b.contains(y),
    ensures
        (a + b).no_duplicates(),
{
    let c = a + b;
    assert forall|i: int, j: int| 0 <= i < c.len() && 0 <= j < c.len() && i != j implies c[i] != c[j] by {
        if i < a.len() && j >= a.len() {
            assert(a.contains(c[i]));
            assert(b[j - a.len()] == c[j]);
        } else if j < a.len() && i >= a.len() {
            assert(a.contains(c[j]));
            assert(b[i - a.len()] == c[i]);
        } else if i >= a.len() {
            assert(b[i - a.len()] == c[i] && b[j - a.len()] == c[j]);
        }
    }
}

/// Two different children of `v` have disjoint subtrees.
proof fn lemma_children_disjoint<V, E>(p: &Path<V, E>, v: nat, j1: int, w1: nat, j2: int, w2: nat, y: VertexID)
    requires
        p.wf(),
        v < p.nv(),
        0 <= j1 < p.out(v as int).len(),
        0 <= j2 < p.out(v as int).len(),
        j1 != j2,
        child_via(p, v, j1) == Some(w1),
        child_via(p, v, j2) == Some(w2),
        subtree_order(p, w1).contains(y),
    ensures
        !subtree_order(p, w2).contains(y),
{
    if subtree_order(p, w2).contains(y) {
        lemma_subtree_sound(p, w1, y);
        lemma_subtree_sound(p, w2, y);
        lemma_child_parent(p, v, j1, w1);
        lemma_child_parent(p, v, j2, w2);
        assert(p.vertex_wf(v as int));
        assert(p.out(v as int)[j1] != p.out(v as int)[j2]);
        assert(w1 != w2);
        p.lemma_ancestors_ordered(w1, w2, y as nat);
        if p.is_ancestor(w1, w2) {
            assert(p.is_ancestor(w1, p.parent(w2)));
            p.lemma_ancestor_le(w1, v);
        } else {
            assert(p.is_ancestor(w2, p.parent(w1)));
            p.lemma_ancestor_le(w2, v);
        }
    }
}

proof fn lemma_subtree_no_dup<V, E>(p: &Path<V, E>, v: nat)
    requires
        p.wf(),
    ensures
        subtree_order(p, v).no_duplicates(),
    decreases p.nv() - v, p.out(v as int).len() + 1,
{
    if v < p.nv() && p.vertex_seq()[v as int].kind != VertexKind::Sensor {
        lemma_edges_no_dup(p, v, 0);
        assert forall|y: VertexID| seq![v as usize].contains(y) implies !edges_order(p, v, 0).contains(y) by {
            if edges_order(p, v, 0).contains(y) {
                lemma_edges_member(p, v, 0, y);
                let (j, w) = choose|j: int, w: nat|
                    0 <= j < p.out(v as int).len() && #[trigger] child_via(p, v, j) == Some(w) && #[trigger] subtree_order(
                        p,
                        w,
                    ).contains(y);
                lemma_subtree_sound(p, w, y);
                p.lemma_ancestor_le(w, y as nat);
                assert(seq![v as usize][0] == v as usize);
            }
        }
        lemma_concat_no_dup(seq![v as usize], edges_order(p, v, 0));
    }
}

proof fn lemma_edges_no_dup<V, E>(p: &Path<V, E>, v: nat, k: nat)
    requires
        p.wf(),
        v < p.nv(),
    ensures
        edges_order(p, v, k).no_duplicates(),
    decreases p.nv() - v, p.out(v as int).len() - k,
{
    if k < p.out(v as int).len() {
        lemma_edges_no_dup(p, v, k + 1);
        let rest = edges_order(p, v, k + 1);
        match child_via(p, v, k as int) {
            Some(w) => {
                lemma_subtree_no_dup(p, w);
                assert forall|y: VertexID| subtree_order(p, w).contains(y) implies !rest.contains(y) by {
                    if rest.contains(y) {
                        lemma_edges_member(p, v, k + 1, y);
                        let (j, w2) = choose|j: int, w2: nat|
                            k + 1 <= j < p.out(v as int).len() && #[trigger] child_via(p, v, j) == Some(w2)
                                && #[trigger] subtree_order(p, w2).contains(y);
                        lemma_children_disjoint(p, v, k as int, w, j, w2, y);
                    }
                }
                lemma_concat_no_dup(subtree_order(p, w), rest);
            },
            None => {},
        }
    }
}

/// The subtree of a child is listed among the edges of its parent.
proof fn lemma_child_listed<V, E>(p: &Path<V, E>, v: nat, j: int, k: nat, w: nat, y: VertexID)
    requires
        v < p.nv(),
        k <= j < p.out(v as int).len(),
        child_via(p, v, j) == Some(w),
        subtree_order(p, w).contains(y),
    ensures
        edges_order(p, v, k).contains(y),
    decreases j - k,
{
    let rest = edges_order(p, v, k + 1);
    if j == k {
        assert(edges_order(p, v, k) == subtree_order(p, w) + rest);
        let i = choose|i: int| 0 <= i < subtree_order(p, w).len() && subtree_order(p, w)[i] == y;
        assert(edges_order(p, v, k)[i] == y);
    } else {
        lemma_child_listed(p, v, j, k + 1, w, y);
        let i = choose|i: int| 0 <= i < rest.len() && rest[i] == y;
        match child_via(p, v, k as int) {
            Some(w0) => {
                assert(edges_order(p, v, k) == subtree_order(p, w0) + rest);
                assert(edges_order(p, v, k)[subtree_order(p, w0).len() + i] == y);
            },
            None => {
                assert(edges_order(p, v, k) == rest);
            },
        }
    }
}

/// The emission order below `v` holds the whole order below any vertex it lists.
proof fn lemma_subtree_closed<V, E>(p: &Path<V, E>, v: nat, x: VertexID, y: VertexID)
    requires
        p.wf(),
        subtree_order(p, v).contains(x),
        subtree_order(p, x as nat).contains(y),
    ensures
        subtree_order(p, v).contains(y),
    decreases p.nv() - v,
{
    if x as nat != v {
        assert(v < p.nv());
        let s = subtree_order(p, v);
        let i = choose|i: int| 0 <= i < s.len() && s[i] == x;
        assert(s[0] == v as usize);
        assert(i > 0);
        assert(edges_order(p, v, 0)[i - 1] == x);
        lemma_edges_member(p, v, 0, x);
        let (j, w) = choose|j: int, w: nat|
            0 <= j < p.out(v as int).len() && #[trigger] child_via(p, v, j) == Some(w) && #[trigger] subtree_order(
                p,
                w,
            ).contains(x);
        lemma_subtree_closed(p, w, x, y);
        lemma_child_listed(p, v, j, 0, w, y);
        let i2 = choose|i2: int| 0 <= i2 < edges_order(p, v, 0).len() && edges_order(p, v, 0)[i2] == y;
        assert(s[i2 + 1] == y);
    }
}

/// Every vertex below `v` is listed, when no sensor vertex stands in the way.
proof fn lemma_subtree_complete<V, E>(p: &Path<V, E>, v: nat, y: nat)
    requires
        p.wf(),
        v < p.nv(),
        y < p.nv(),
        p.is_ancestor(v, y),
        forall|z: int| 0 <= z < p.nv() ==> #[trigger] p.vertex_seq()[z].kind != VertexKind::Sensor,
    ensures
        subtree_order(p, v).contains(y as usize),
    decreases y,
{
    assert(p.vertex_seq()[y as int].kind != VertexKind::Sensor);
    if y == v {
        assert(subtree_order(p, v)[0] == v as usize);
    } else {
        let x = p.parent(y);
        p.lemma_parent(y);
        assert(p.vertex_seq()[x as int].kind != VertexKind::Sensor);
        lemma_subtree_complete(p, v, x);
        let e = p.vertex_seq()[y as int].edge_in.unwrap();
        let j = choose|j: int| 0 <= j < p.out(x as int).len() && p.out(x as int)[j] == e;
        assert(p.vertex_wf(y as int));
        assert(child_via(p, x, j) == Some(y));
        assert(subtree_order(p, y)[0] == y as usize);
        lemma_child_listed(p, x, j, 0, y, y as usize);
        let i = choose|i: int| 0 <= i < edges_order(p, x, 0).len() && edges_order(p, x, 0)[i] == y as usize;
        assert(subtree_order(p, x)[i + 1] == y as usize);
        lemma_subtree_closed(p, v, x as usize, y as usize);
    }
}

/// One VPL per vertex: in a light path whose vertices all hang below the
/// root `r` and none of which is a sensor, the emission order lists every
/// vertex exactly once.
pub proof fn lemma_emission_once<V, E>(p: &Path<V, E>, r: nat)
    requires
        p.wf(),
        r < p.nv(),
        forall|x: nat| x < p.nv() ==> #[trigger] p.root_of(x) == r,
        forall|z: int| 0 <= z < p.nv() ==> #[trigger] p.vertex_seq()[z].kind != VertexKind::Sensor,
    ensures
        subtree_order(p, r).no_duplicates(),
        forall|x: nat| x < p.nv() ==> #[trigger] subtree_order(p, r).contains(x as usize),
        forall|i: int| 0 <= i < subtree_order(p, r).len() ==> #[trigger] subtree_order(p, r)[i] < p.nv(),
{
    lemma_subtree_no_dup(p, r);
    assert forall|x: nat| x < p.nv() implies #[trigger] subtree_order(p, r).contains(x as usize) by {
        p.lemma_root_is_ancestor(x);
        lemma_subtree_complete(p, r, x);
    }
    assert forall|i: int| 0 <= i < subtree_order(p, r).len() implies #[trigger] subtree_order(p, r)[i] < p.nv() by {
        lemma_subtree_sound(p, r, subtree_order(p, r)[i]);
    }
}

/// A light-side technique: besides its strategies, it samples the emitter
/// point that roots each light path and takes the VPLs a path yields.
pub trait LightTechnique<V, E>: Technique<V, E> {
    /// Samples a point on an emitter, the root of a new light path, and
    /// keeps the scaled flux that came with it.
    fn sample_root(&mut self) -> (r: V)
        ensures
            final(self).history()@ == old(self).history()@,
    ;

    /// Receives a light path and the vertices that become VPLs, in order.
    fn convert(&mut self, path: &Path<V, E>, order: &Vec<VertexID>)
        ensures
            final(self).history()@ == old(self).history()@.push(Event::Converted(*order)),
    ;
}

/// One light path of the first pass: the path with its emitter root alone,
/// the path grown from it, what generation offered and sampled, and the
/// emission order handed over.
pub ghost struct LightRun<V, E> {
    pub base: Path<V, E>,
    pub path: Path<V, E>,
    pub offered: Seq<VertexID>,
    pub groups: Seq<Seq<Extension<V, E>>>,
    pub order: Vec<VertexID>,
}

/// A light path grown by generation from its emitter root alone.
pub open spec fn grown_light_run<V, E>(run: LightRun<V, E>, max_depth: Option<u32>) -> bool {
    &&& run.base.wf()
    &&& run.base.nv() == 1
    &&& run.base.ne() == 0
    &&& run.base.vertex_seq()[0].kind == VertexKind::Emitter
    &&& run.base.is_root(0)
    &&& run.groups.len() == run.offered.len()
    &&& recorded(&run.path, &run.base, flatten(run.offered, run.groups))
    &&& light_path(&run.path, max_depth)
    &&& run.order@ == subtree_order(&run.path, 0)
}

/// What the light paths asked of the technique, in order: for each, its
/// strategy runs, then the conversion of its emission order.
pub open spec fn all_runs<V, E>(runs: Seq<LightRun<V, E>>) -> Seq<Event>
    decreases runs.len(),
{
    if runs.len() == 0 {
        Seq::empty()
    } else {
        all_runs(runs.drop_last()) + runs_of(runs.last().offered, runs.last().groups).push(
            Event::Converted(runs.last().order),
        )
    }
}

/// How the first pass of the VPL integrator went.
#[derive(Clone, Copy, Debug, PartialEq, Eq, Structural)]
pub struct VplCounts {
    /// Light paths traced.
    pub nb_path_shot: usize,
    /// VPLs produced over all of them (saturated at `usize::MAX`).
    pub nb_vpl: usize,
}

/// A light path as the first pass grows it: vertex 0 is the emitter root,
/// every vertex hangs below it, and the vertices below it respect the
/// depth bound.
pub open spec fn light_path<V, E>(p: &Path<V, E>, max_depth: Option<u32>) -> bool {
    &&& p.wf()
    &&& p.nv() >= 1
    &&& p.vertex_seq()[0].kind == VertexKind::Emitter
    &&& p.is_root(0)
    &&& forall|v: nat| v < p.nv() ==> #[trigger] p.root_of(v) == 0
    &&& forall|v: nat| 1 <= v < p.nv() ==> within(max_depth, #[trigger] p.depth(v))
}

/// Number of VPLs that the light paths of `runs` yield, one per vertex of
/// their emission orders.
pub open spec fn vpl_total<V, E>(runs: Seq<LightRun<V, E>>) -> nat
    decreases runs.len(),
{
    if runs.len() == 0 {
        0
    } else {
        vpl_total(runs.drop_last()) + subtree_order(&runs.last().path, 0).len()
    }
}

/// Traces light paths until at least `nb_vpl` VPLs exist. Each path starts
/// at an emitter vertex, is grown by `generate` under `max_depth`, and hands
/// its VPLs to the technique in emission order. Shooting stops with the
/// first path that reaches the target. Gives back the counts and the light
/// paths shot.
pub fn generate_vpls<V, E, T: LightTechnique<V, E>>(
    technique: &mut T,
    nb_vpl: usize,
    max_depth: Option<u32>,
) -> (r: (VplCounts, Ghost<Seq<LightRun<V, E>>>))
    ensures
        r.1@.len() == r.0.nb_path_shot,
        forall|i: int| 0 <= i < r.1@.len() ==> grown_light_run(#[trigger] r.1@[i], max_depth),
        final(technique).history()@ == old(technique).history()@ + all_runs(r.1@),
        r.0.nb_vpl == (if vpl_total(r.1@) > usize::MAX {
            usize::MAX as nat
        } else {
            vpl_total(r.1@)
        }),
        vpl_total(r.1@) >= nb_vpl,
        r.0.nb_path_shot > 0 ==> vpl_total(r.1@.drop_last()) < nb_vpl,
        nb_vpl == 0 <==> r.0.nb_path_shot == 0,
{
    let mut count: usize = 0;
    let mut shot: usize = 0;
    let ghost mut runs: Seq<LightRun<V, E>> = Seq::empty();
    proof {
        assert(technique.history()@ =~= technique.history()@ + all_runs(runs));
    }
    while count < nb_vpl
        invariant
            shot <= count,
            shot <= nb_vpl,
            shot == 0 ==> count == 0,
            runs.len() == shot,
            forall|i: int| 0 <= i < runs.len() ==> grown_light_run(#[trigger] runs[i], max_depth),
            technique.history()@ == old(technique).history()@ + all_runs(runs),
            count == (if vpl_total(runs) > usize::MAX {
                usize::MAX as nat
            } else {
                vpl_total(runs)
            }),
            shot > 0 ==> vpl_total(runs.drop_last()) < nb_vpl,
        decreases nb_vpl - shot,
    {
        let mut path: Path<V, E> = Path::new();
        let data = technique.sample_root();
        let root = path.register_vertex(VertexKind::Emitter, data);
        let mut roots: Vec<VertexID> = Vec::new();
        roots.push(root);
        let ghost base = path;
        let (offered, Ghost(groups)) = generate(&mut path, &roots, technique, max_depth);
        proof {
            assert(roots@ =~= seq![0usize]);
            assert(path.vertex_seq()[0].kind == base.vertex_seq()[0].kind);
            assert forall|v: nat| v < path.nv() implies #[trigger] path.root_of(v) == 0 by {
                if v >= 1 {
                    assert(path.vertex_seq()[v as int].edge_in is Some);
                    assert(roots@.contains(path.root_of(v) as usize));
                } else {
                    path.lemma_root_chain_links(0);
                }
            }
            assert forall|v: nat| 1 <= v < path.nv() implies within(max_depth, #[trigger] path.depth(v)) by {
                assert(path.vertex_seq()[v as int].edge_in is Some);
            }
        }
        let order = emission_order(&path, root);
        proof {
            assert(order@.len() >= 1);
        }
        technique.convert(&path, &order);
        let n = order.len();
        let ghost before = runs;
        proof {
            let run = LightRun { base, path, offered: offered@, groups, order };
            runs = runs.push(run);
            assert(runs.drop_last() =~= before);
            assert(grown_light_run(run, max_depth));
            assert forall|i: int| 0 <= i < runs.len() implies grown_light_run(#[trigger] runs[i], max_depth) by {
                if i < before.len() {
                    assert(runs[i] == before[i]);
                }
            }
            assert(technique.history()@ =~= old(technique).history()@ + all_runs(runs));
        }
        if n > usize::MAX - count {
            count = usize::MAX;
        } else {
            count = count + n;
        }
        shot = shot + 1;
    }
    (VplCounts { nb_path_shot: shot, nb_vpl: count }, Ghost(runs))
}

} // verus!
