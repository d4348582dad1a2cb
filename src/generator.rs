//! Breadth-first path generation: from a set of roots, each vertex of the
//! frontier that may still be extended is offered to every sampling
//! strategy of a technique, in the technique's order, one depth at a time.
use vstd::prelude::*;
use crate::path::{Edge, EdgeID, Path, VertexID, VertexKind};

verus! {

/// What one sampling strategy produced from a vertex.
pub enum Extension<V, E> {
    /// A new vertex of the given kind, reached through a new edge.
    Reached(VertexKind, V, E),
    /// An edge that reached no vertex: a miss, or a Russian-roulette kill.
    Terminated(E),
    /// No extension at all.
    Nothing,
}

/// The shape of what a strategy produced.
#[derive(PartialEq, Eq, Structural, Clone, Copy, Debug)]
pub enum Sampled {
    Reached(VertexKind),
    Terminated,
    Nothing,
}

pub open spec fn shape_of<V, E>(ext: Extension<V, E>) -> Sampled {
    match ext {
        Extension::Reached(kind, _, _) => Sampled::Reached(kind),
        Extension::Terminated(_) => Sampled::Terminated,
        Extension::Nothing => Sampled::Nothing,
    }
}

impl<V, E> Extension<V, E> {
    /// The shape of this result.
    pub fn shape(&self) -> (r: Sampled)
        ensures
            r == shape_of(*self),
    {
        match self {
            Extension::Reached(kind, _, _) => Sampled::Reached(*kind),
            Extension::Terminated(_) => Sampled::Terminated,
            Extension::Nothing => Sampled::Nothing,
        }
    }
}

/// What a technique was asked to do: run a strategy from a vertex (with the
/// shape of the result), or take the VPLs of a light path in emission order.
#[derive(Clone, Debug)]
pub enum Event {
    Sampled(VertexID, usize, Sampled),
    Converted(Vec<VertexID>),
}

/// A way of building paths: which strategies extend a vertex, and what each
/// of them samples. The sampling itself (tracing rays, evaluating BSDFs)
/// belongs to the implementor.
pub trait Technique<V, E> {
    /// What the technique was asked to do so far, in order.
    spec fn history(&self) -> Vec<Event>;

    /// Number of strategies tried at `vertex`.
    fn nb_strategies(&self, path: &Path<V, E>, vertex: VertexID) -> usize;

    /// Runs strategy `strategy` from `vertex`.
    fn sample(&mut self, path: &Path<V, E>, vertex: VertexID, strategy: usize) -> (r: Extension<V, E>)
        ensures
            final(self).history()@ == old(self).history()@.push(Event::Sampled(vertex, strategy, shape_of(r))),
    ;
}

/// The strategy runs that the results `g`, sampled from `v`, stand for.
#[verifier::opaque]
pub open spec fn group_runs<V, E>(v: VertexID, g: Seq<Extension<V, E>>) -> Seq<Event> {
    Seq::new(g.len(), |j: int| Event::Sampled(v, j as usize, shape_of(g[j])))
}

/// The strategy runs that the groups of results stand for, group `i`
/// sampled from `offered[i]`.
#[verifier::opaque]
pub open spec fn runs_of<V, E>(offered: Seq<VertexID>, groups: Seq<Seq<Extension<V, E>>>) -> Seq<Event>
    decreases groups.len(),
{
    if groups.len() == 0 {
        Seq::empty()
    } else {
        runs_of(offered, groups.drop_last()) + group_runs(offered[groups.len() - 1], groups.last())
    }
}

proof fn lemma_runs_prefix<V, E>(o1: Seq<VertexID>, o2: Seq<VertexID>, groups: Seq<Seq<Extension<V, E>>>)
    requires
        groups.len() <= o1.len(),
        groups.len() <= o2.len(),
        forall|i: int| 0 <= i < groups.len() ==> o1[i] == o2[i],
    ensures
        runs_of(o1, groups) == runs_of(o2, groups),
    decreases groups.len(),
{
    reveal(runs_of);
    if groups.len() > 0 {
        lemma_runs_prefix(o1, o2, groups.drop_last());
    }
}

/// Unfolding steps of the runs: an empty group, one more result, one more group.
proof fn lemma_runs_steps<V, E>(offered: Seq<VertexID>, groups: Seq<Seq<Extension<V, E>>>, v: VertexID, cur: Seq<Extension<V, E>>, g: Extension<V, E>)
    requires
        groups.len() < offered.len(),
        offered[groups.len() as int] == v,
    ensures
        group_runs(v, Seq::<Extension<V, E>>::empty()) == Seq::<Event>::empty(),
        group_runs(v, cur.push(g)) == group_runs(v, cur).push(Event::Sampled(v, cur.len() as usize, shape_of(g))),
        runs_of(offered, groups.push(cur)) == runs_of(offered, groups) + group_runs(v, cur),
        runs_of(offered, Seq::<Seq<Extension<V, E>>>::empty()) == Seq::<Event>::empty(),
{
    reveal(group_runs);
    reveal(runs_of);
    assert(group_runs(v, Seq::<Extension<V, E>>::empty()) =~= Seq::<Event>::empty());
    assert(group_runs(v, cur.push(g)) =~= group_runs(v, cur).push(Event::Sampled(v, cur.len() as usize, shape_of(g))));
    assert(groups.push(cur).drop_last() =~= groups);
}

/// Whether a vertex at `depth` is extended under the bound `max_depth`.
pub open spec fn expands(max_depth: Option<u32>, depth: nat) -> bool {
    match max_depth {
        Some(m) => depth < m,
        None => true,
    }
}

/// Whether `depth` respects the bound `max_depth`.
pub open spec fn within(max_depth: Option<u32>, depth: nat) -> bool {
    match max_depth {
        Some(m) => depth <= m,
        None => true,
    }
}

/// Whether a vertex at `depth` may be extended: always without a bound,
/// else only below it.
pub fn expand(max_depth: Option<u32>, depth: u32) -> (r: bool)
    ensures
        r == expands(max_depth, depth as nat),
{
    match max_depth {
        Some(m) => depth < m,
        None => true,
    }
}

/// Adds what a strategy produced from `from` to the path: a new vertex and
/// the edge reaching it, a terminated edge, or nothing. Returns the new
/// vertex, if any.
pub fn record_extension<V, E>(path: &mut Path<V, E>, from: VertexID, ext: Extension<V, E>) -> (r: Option<VertexID>)
    requires
        old(path).wf(),
        from < old(path).nv(),
        old(path).nv() < usize::MAX,
        old(path).ne() < usize::MAX,
    ensures
        final(path).wf(),
        final(path).extends(old(path)),
        forall|v: int| 0 <= v < old(path).nv() && v != from ==> #[trigger] final(path).out(v) == old(path).out(v),
        match ext {
            Extension::Reached(kind, vdata, edata) => {
                &&& r == Some(old(path).nv() as usize)
                &&& final(path).nv() == old(path).nv() + 1
                &&& final(path).ne() == old(path).ne() + 1
                &&& final(path).edge_seq().last() == (Edge { from, to: Some(old(path).nv() as usize), data: edata })
                &&& final(path).vertex_seq().last().kind == kind
                &&& final(path).vertex_seq().last().data == vdata
                &&& final(path).vertex_seq().last().edge_in == Some(old(path).ne() as usize)
                &&& final(path).out(old(path).nv() as int).len() == 0
                &&& final(path).out(from as int) == old(path).out(from as int).push(old(path).ne() as usize)
            },
            Extension::Terminated(edata) => {
                &&& r is None
                &&& final(path).nv() == old(path).nv()
                &&& final(path).ne() == old(path).ne() + 1
                &&& final(path).edge_seq().last() == (Edge { from, to: None, data: edata })
                &&& final(path).out(from as int) == old(path).out(from as int).push(old(path).ne() as usize)
            },
            Extension::Nothing => {
                &&& r is None
                &&& final(path).nv() == old(path).nv()
                &&& final(path).ne() == old(path).ne()
                &&& final(path).out(from as int) == old(path).out(from as int)
            },
        },
{
    match ext {
        Extension::Reached(kind, vdata, edata) => {
            let (_e, w) = path.register_extension(from, kind, vdata, edata);
            Some(w)
        },
        Extension::Terminated(edata) => {
            path.register_edge(from, edata);
            None
        },
        Extension::Nothing => {
            proof {
                path.lemma_extends_refl();
            }
            None
        },
    }
}

/// What recording the strategy results `log`, each with the vertex it was
/// sampled from, adds to a path of `nv0` vertices and `ne0` edges: the new
/// edges, and the kind, incoming edge and data of each new vertex, in order.
/// A result is dropped once either arena is full.
pub open spec fn replay_log<V, E>(nv0: nat, ne0: nat, log: Seq<(VertexID, Extension<V, E>)>) -> (
    Seq<Edge<E>>,
    Seq<(VertexKind, EdgeID, V)>,
)
    decreases log.len(),
{
    if log.len() == 0 {
        (Seq::empty(), Seq::empty())
    } else {
        let prev = replay_log(nv0, ne0, log.drop_last());
        let es = prev.0;
        let vs = prev.1;
        let from = log.last().0;
        let nv = nv0 + vs.len();
        let ne = ne0 + es.len();
        if nv < usize::MAX && ne < usize::MAX {
            match log.last().1 {
                Extension::Reached(kind, vdata, edata) => (
                    es.push(Edge { from, to: Some(nv as usize), data: edata }),
                    vs.push((kind, ne as usize, vdata)),
                ),
                Extension::Terminated(edata) => (es.push(Edge { from, to: None, data: edata }), vs),
                Extension::Nothing => (es, vs),
            }
        } else {
            (es, vs)
        }
    }
}

/// Handles of the edges of `es` that leave `v`, in order, where `es[i]`
/// has handle `base + i`.
pub open spec fn outs_from<E>(es: Seq<Edge<E>>, v: nat, base: nat) -> Seq<EdgeID>
    decreases es.len(),
{
    if es.len() == 0 {
        Seq::empty()
    } else {
        let s = outs_from(es.drop_last(), v, base);
        if es.last().from == v {
            s.push((base + es.len() - 1) as usize)
        } else {
            s
        }
    }
}

/// `p` is `o` with the strategy results `log` recorded, in order.
#[verifier::opaque]
pub open spec fn recorded<V, E>(p: &Path<V, E>, o: &Path<V, E>, log: Seq<(VertexID, Extension<V, E>)>) -> bool {
    let es = replay_log(o.nv(), o.ne(), log).0;
    let vs = replay_log(o.nv(), o.ne(), log).1;
    &&& p.edge_seq() == o.edge_seq() + es
    &&& p.nv() == o.nv() + vs.len()
    &&& forall|v: int|
        0 <= v < o.nv() ==> {
            &&& (#[trigger] p.vertex_seq()[v]).kind == o.vertex_seq()[v].kind
            &&& p.vertex_seq()[v].edge_in == o.vertex_seq()[v].edge_in
            &&& p.vertex_seq()[v].data == o.vertex_seq()[v].data
        }
    &&& forall|i: int|
        0 <= i < vs.len() ==> {
            &&& (#[trigger] p.vertex_seq()[o.nv() + i]).kind == vs[i].0
            &&& p.vertex_seq()[o.nv() + i].edge_in == Some(vs[i].1)
            &&& p.vertex_seq()[o.nv() + i].data == vs[i].2
        }
    &&& forall|v: int|
        0 <= v < p.nv() ==> #[trigger] p.out(v) == (if v < o.nv() {
            o.out(v)
        } else {
            Seq::empty()
        }) + outs_from(es, v as nat, o.ne())
}

/// Replayed generation builds the same path: two runs from the same path
/// that receive the same strategy results, in the same order, end with the
/// same edges, the same vertices and the same outgoing lists.
pub proof fn lemma_recorded_unique<V, E>(p: &Path<V, E>, q: &Path<V, E>, o: &Path<V, E>, log: Seq<(VertexID, Extension<V, E>)>)
    requires
        recorded(p, o, log),
        recorded(q, o, log),
    ensures
        p.edge_seq() == q.edge_seq(),
        p.nv() == q.nv(),
        forall|v: int|
            0 <= v < p.nv() ==> {
                &&& (#[trigger] p.vertex_seq()[v]).kind == q.vertex_seq()[v].kind
                &&& p.vertex_seq()[v].edge_in == q.vertex_seq()[v].edge_in
                &&& p.vertex_seq()[v].data == q.vertex_seq()[v].data
                &&& p.out(v) == q.out(v)
            },
{
    reveal(recorded);
    let vs = replay_log(o.nv(), o.ne(), log).1;
    assert forall|v: int| 0 <= v < p.nv() implies {
        &&& (#[trigger] p.vertex_seq()[v]).kind == q.vertex_seq()[v].kind
        &&& p.vertex_seq()[v].edge_in == q.vertex_seq()[v].edge_in
        &&& p.vertex_seq()[v].data == q.vertex_seq()[v].data
        &&& p.out(v) == q.out(v)
    } by {
        if v < o.nv() {
            assert(q.vertex_seq()[v].kind == o.vertex_seq()[v].kind);
        } else {
            let i = v - o.nv();
            assert(p.vertex_seq()[o.nv() + i].kind == vs[i].0);
            assert(q.vertex_seq()[o.nv() + i].kind == vs[i].0);
        }
        assert(q.out(v) == (if v < o.nv() {
            o.out(v)
        } else {
            Seq::empty()
        }) + outs_from(replay_log(o.nv(), o.ne(), log).0, v as nat, o.ne()));
    }
}

/// The results of strategies, group `i` sampled from vertex `offered[i]`.
pub open spec fn flatten<V, E>(offered: Seq<VertexID>, groups: Seq<Seq<Extension<V, E>>>) -> Seq<
    (VertexID, Extension<V, E>),
>
    decreases groups.len(),
{
    if groups.len() == 0 {
        Seq::empty()
    } else {
        flatten(offered, groups.drop_last()) + pairs(offered[groups.len() - 1], groups.last())
    }
}

pub open spec fn pairs<V, E>(v: VertexID, g: Seq<Extension<V, E>>) -> Seq<(VertexID, Extension<V, E>)> {
    g.map_values(|x: Extension<V, E>| (v, x))
}

proof fn lemma_flatten_prefix<V, E>(o1: Seq<VertexID>, o2: Seq<VertexID>, groups: Seq<Seq<Extension<V, E>>>)
    requires
        groups.len() <= o1.len(),
        groups.len() <= o2.len(),
        forall|i: int| 0 <= i < groups.len() ==> o1[i] == o2[i],
    ensures
        flatten(o1, groups) == flatten(o2, groups),
    decreases groups.len(),
{
    if groups.len() > 0 {
        lemma_flatten_prefix(o1, o2, groups.drop_last());
    }
}

proof fn lemma_outs_none<E>(es: Seq<Edge<E>>, v: nat, base: nat)
    requires
        forall|i: int| 0 <= i < es.len() ==> (#[trigger] es[i]).from != v,
    ensures
        outs_from(es, v, base) == Seq::<EdgeID>::empty(),
    decreases es.len(),
{
    if es.len() > 0 {
        lemma_outs_none(es.drop_last(), v, base);
        assert(es[es.len() - 1].from != v);
    }
}

/// Recording one more result keeps `recorded`.
proof fn lemma_record_step<V, E>(
    p2: &Path<V, E>,
    p1: &Path<V, E>,
    o: &Path<V, E>,
    log: Seq<(VertexID, Extension<V, E>)>,
    from: VertexID,
    ext: Extension<V, E>,
    applied: bool,
)
    requires
        o.wf(),
        p1.wf(),
        p2.wf(),
        recorded(p1, o, log),
        from < p1.nv(),
        applied == (p1.nv() < usize::MAX && p1.ne() < usize::MAX),
        !applied ==> p2 == p1,
        applied ==> {
            &&& p2.extends(p1)
            &&& forall|v: int| 0 <= v < p1.nv() && v != from ==> #[trigger] p2.out(v) == p1.out(v)
            &&& match ext {
                Extension::Reached(kind, vdata, edata) => {
                    &&& p2.nv() == p1.nv() + 1
                    &&& p2.ne() == p1.ne() + 1
                    &&& p2.edge_seq().last() == (Edge { from, to: Some(p1.nv() as usize), data: edata })
                    &&& p2.vertex_seq().last().kind == kind
                    &&& p2.vertex_seq().last().data == vdata
                    &&& p2.vertex_seq().last().edge_in == Some(p1.ne() as usize)
                    &&& p2.out(p1.nv() as int).len() == 0
                    &&& p2.out(from as int) == p1.out(from as int).push(p1.ne() as usize)
                },
                Extension::Terminated(edata) => {
                    &&& p2.nv() == p1.nv()
                    &&& p2.ne() == p1.ne() + 1
                    &&& p2.edge_seq().last() == (Edge { from, to: None, data: edata })
                    &&& p2.out(from as int) == p1.out(from as int).push(p1.ne() as usize)
                },
                Extension::Nothing => {
                    &&& p2.nv() == p1.nv()
                    &&& p2.ne() == p1.ne()
                    &&& p2.out(from as int) == p1.out(from as int)
                },
            }
        },
    ensures
        recorded(p2, o, log.push((from, ext))),
{
    reveal(recorded);
    let log2 = log.push((from, ext));
    assert(log2.drop_last() =~= log);
    let es = replay_log(o.nv(), o.ne(), log).0;
    let vs = replay_log(o.nv(), o.ne(), log).1;
    let es2 = replay_log(o.nv(), o.ne(), log2).0;
    let vs2 = replay_log(o.nv(), o.ne(), log2).1;
    assert(p1.ne() == o.ne() + es.len()) by {
        assert(p1.edge_seq().len() == (o.edge_seq() + es).len());
    }
    if applied {
        assert(p2.edge_seq() =~= o.edge_seq() + es2) by {
            assert forall|i: int| 0 <= i < p1.ne() implies p2.edge_seq()[i] == p1.edge_seq()[i] by {
                assert(p2.edge_seq()[i] == p1.edge_seq()[i]);
            }
        }
        assert forall|v: int| 0 <= v < o.nv() implies {
            &&& (#[trigger] p2.vertex_seq()[v]).kind == o.vertex_seq()[v].kind
            &&& p2.vertex_seq()[v].edge_in == o.vertex_seq()[v].edge_in
            &&& p2.vertex_seq()[v].data == o.vertex_seq()[v].data
        } by {
            assert(p1.vertex_seq()[v].kind == o.vertex_seq()[v].kind);
            assert(p2.vertex_seq()[v].kind == p1.vertex_seq()[v].kind);
        }
        assert forall|i: int| 0 <= i < vs2.len() implies {
            &&& (#[trigger] p2.vertex_seq()[o.nv() + i]).kind == vs2[i].0
            &&& p2.vertex_seq()[o.nv() + i].edge_in == Some(vs2[i].1)
            &&& p2.vertex_seq()[o.nv() + i].data == vs2[i].2
        } by {
            if i < vs.len() {
                assert(vs2[i] == vs[i]);
                assert(p1.vertex_seq()[o.nv() + i].kind == vs[i].0);
                assert(p2.vertex_seq()[o.nv() + i].kind == p1.vertex_seq()[o.nv() + i].kind);
            }
        }
        assert forall|v: int| 0 <= v < p2.nv() implies #[trigger] p2.out(v) == (if v < o.nv() {
            o.out(v)
        } else {
            Seq::empty()
        }) + outs_from(es2, v as nat, o.ne()) by {
            if v < p1.nv() {
                assert(p1.out(v) == (if v < o.nv() {
                    o.out(v)
                } else {
                    Seq::empty()
                }) + outs_from(es, v as nat, o.ne()));
                if !(ext is Nothing) {
                    assert(es2.drop_last() =~= es);
                }
            } else {
                assert(v == p1.nv());
                assert forall|i: int| 0 <= i < es2.len() implies (#[trigger] es2[i]).from != v by {
                    if i < es.len() {
                        assert(es2[i] == es[i]);
                        assert(p1.edge_seq()[o.ne() + i] == es[i]);
                        assert(p1.edge_wf(o.ne() + i));
                    }
                }
                lemma_outs_none(es2, v as nat, o.ne());
                assert(p2.out(v) =~= Seq::<EdgeID>::empty());
            }
        }
    } else {
        assert(es2 == es && vs2 == vs);
    }
}

/// `p` is `o` grown by generation from `roots` under `max_depth`: every new
/// vertex hangs below one of the roots, within the depth bound, and a new
/// vertex that may not be extended has no outgoing edge.
pub open spec fn grown_from<V, E>(p: &Path<V, E>, o: &Path<V, E>, roots: Seq<VertexID>, max_depth: Option<u32>) -> bool {
    &&& p.wf()
    &&& p.extends(o)
    &&& forall|v: int| o.nv() <= v < p.nv() ==> {
        &&& #[trigger] p.vertex_seq()[v].edge_in is Some
        &&& roots.contains(p.root_of(v as nat) as usize)
        &&& within(max_depth, p.depth(v as nat))
        &&& p.depth(v as nat) <= u32::MAX
        &&& !expands(max_depth, p.depth(v as nat)) ==> p.out(v).len() == 0
    }
}

/// New vertices come in breadth-first order: none is deeper than one created
/// after it, and none is deeper than `bound`.
pub open spec fn breadth_first<V, E>(p: &Path<V, E>, o: &Path<V, E>, bound: nat) -> bool {
    &&& forall|v: int, w: int|
        o.nv() <= v < w < p.nv() ==> #[trigger] p.depth(v as nat) <= #[trigger] p.depth(w as nat)
    &&& forall|v: int| o.nv() <= v < p.nv() ==> #[trigger] p.depth(v as nat) <= bound
}

/// Whether generation extends a vertex at `depth`: the bound lets it, and
/// the depth counter has not reached its limit.
pub open spec fn extended_at(max_depth: Option<u32>, depth: nat) -> bool {
    expands(max_depth, depth) && depth < u32::MAX
}

/// The handles `lo`, `lo + 1`, ..., `hi - 1`.
pub open spec fn handles(lo: nat, hi: nat) -> Seq<VertexID> {
    Seq::new((hi - lo) as nat, |j: int| (lo + j) as usize)
}

/// The vertices among `lo .. hi` that generation extends, in order.
pub open spec fn expandable<V, E>(p: &Path<V, E>, max_depth: Option<u32>, lo: nat, hi: nat) -> Seq<VertexID>
    decreases hi,
{
    if hi <= lo {
        Seq::empty()
    } else {
        let s = expandable(p, max_depth, lo, (hi - 1) as nat);
        if extended_at(max_depth, p.depth((hi - 1) as nat)) {
            s.push((hi - 1) as usize)
        } else {
            s
        }
    }
}

/// Growing the path does not change which of its older vertices are extended.
proof fn lemma_expandable_kept<V, E>(p2: &Path<V, E>, p1: &Path<V, E>, max_depth: Option<u32>, lo: nat, hi: nat)
    requires
        p1.wf(),
        p2.extends(p1),
        hi <= p1.nv(),
    ensures
        expandable(p2, max_depth, lo, hi) == expandable(p1, max_depth, lo, hi),
    decreases hi,
{
    if hi > lo {
        lemma_expandable_kept(p2, p1, max_depth, lo, (hi - 1) as nat);
        p2.lemma_chain_kept(p1, (hi - 1) as nat);
    }
}

/// A wave of vertices at one depth is extended whole or not at all.
proof fn lemma_expandable_wave<V, E>(p: &Path<V, E>, max_depth: Option<u32>, lo: nat, mid: nat, hi: nat, d: nat)
    requires
        lo <= mid <= hi,
        forall|v: nat| mid <= v < hi ==> #[trigger] p.depth(v) == d,
    ensures
        expandable(p, max_depth, lo, hi) == expandable(p, max_depth, lo, mid) + (if extended_at(max_depth, d) {
            handles(mid, hi)
        } else {
            Seq::empty()
        }),
    decreases hi,
{
    if hi > mid {
        lemma_expandable_wave(p, max_depth, lo, mid, (hi - 1) as nat, d);
        assert(p.depth((hi - 1) as nat) == d);
        if extended_at(max_depth, d) {
            assert(handles(mid, (hi - 1) as nat).push((hi - 1) as usize) =~= handles(mid, hi));
        }
    } else {
        assert(handles(mid, hi) =~= Seq::<VertexID>::empty());
        assert(expandable(p, max_depth, lo, mid) + Seq::<VertexID>::empty() =~= expandable(p, max_depth, lo, mid));
    }
}

/// The frontier: vertices at one depth, each below one of the roots.
pub open spec fn frontier_ok<V, E>(p: &Path<V, E>, curr: Seq<VertexID>, roots: Seq<VertexID>, depth: nat) -> bool {
    forall|j: int| 0 <= j < curr.len() ==> {
        &&& #[trigger] curr[j] < p.nv()
        &&& p.depth(curr[j] as nat) == depth
        &&& roots.contains(p.root_of(curr[j] as nat) as usize)
    }
}

/// One registration keeps what generation has established so far.
proof fn lemma_grown_step<V, E>(
    p2: &Path<V, E>,
    p1: &Path<V, E>,
    o: &Path<V, E>,
    roots: Seq<VertexID>,
    max_depth: Option<u32>,
    v: VertexID,
    added: bool,
    curr: Seq<VertexID>,
    next: Seq<VertexID>,
    depth: nat,
)
    requires
        o.wf(),
        grown_from(p1, o, roots, max_depth),
        p2.wf(),
        p2.extends(p1),
        v < p1.nv(),
        expands(max_depth, depth),
        depth < u32::MAX,
        p1.depth(v as nat) == depth,
        roots.contains(p1.root_of(v as nat) as usize),
        forall|x: int| 0 <= x < p1.nv() && x != v ==> #[trigger] p2.out(x) == p1.out(x),
        !added ==> p2.nv() == p1.nv(),
        added ==> p2.nv() == p1.nv() + 1 && p2.out(p1.nv() as int).len() == 0
            && p2.vertex_seq()[p1.nv() as int].edge_in is Some
            && p2.edge_seq()[p2.vertex_seq()[p1.nv() as int].edge_in.unwrap() as int].from == v,
        frontier_ok(p1, curr, roots, depth),
        frontier_ok(p1, next, roots, depth + 1),
        breadth_first(p1, o, depth + 1),
    ensures
        grown_from(p2, o, roots, max_depth),
        breadth_first(p2, o, depth + 1),
        frontier_ok(p2, curr, roots, depth),
        frontier_ok(p2, next, roots, depth + 1),
        added ==> p2.depth(p1.nv()) == depth + 1 && roots.contains(p2.root_of(p1.nv()) as usize),
{
    p2.lemma_extends_trans(p1, o);
    assert forall|x: nat| x < p1.nv() implies #[trigger] p2.root_chain(x) == p1.root_chain(x)
        && p2.root_of(x) == p1.root_of(x) by {
        p2.lemma_chain_kept(p1, x);
    }
    if added {
        let w = p1.nv();
        let e = p2.vertex_seq()[w as int].edge_in.unwrap();
        assert(p2.vertex_wf(w as int));
        assert(p2.edge_wf(e as int));
        assert(v < w);
        let cv = p2.root_chain(v as nat);
        let cw = p2.root_chain(w);
        assert(cw == cv.push(e));
        if cv.len() > 0 {
            assert(cw[0] == cv[0]);
        }
    }
    assert forall|x: int| o.nv() <= x < p2.nv() implies {
        &&& #[trigger] p2.vertex_seq()[x].edge_in is Some
        &&& roots.contains(p2.root_of(x as nat) as usize)
        &&& within(max_depth, p2.depth(x as nat))
        &&& p2.depth(x as nat) <= u32::MAX
        &&& !expands(max_depth, p2.depth(x as nat)) ==> p2.out(x).len() == 0
    } by {
        if x < p1.nv() {
            assert(p1.vertex_seq()[x].edge_in is Some);
            assert(p2.vertex_seq()[x].kind == p1.vertex_seq()[x].kind);
            assert(p2.root_chain(x as nat) == p1.root_chain(x as nat));
            if x != v {
                assert(p2.out(x) == p1.out(x));
            }
        }
    }
    assert forall|x: int, y: int| o.nv() <= x < y < p2.nv() implies #[trigger] p2.depth(x as nat)
        <= #[trigger] p2.depth(y as nat) by {
        assert(p2.root_chain(x as nat) == p1.root_chain(x as nat));
        if y < p1.nv() {
            assert(p2.root_chain(y as nat) == p1.root_chain(y as nat));
        }
    }
    assert forall|x: int| o.nv() <= x < p2.nv() implies #[trigger] p2.depth(x as nat) <= depth + 1 by {
        if x < p1.nv() {
            assert(p2.root_chain(x as nat) == p1.root_chain(x as nat));
        }
    }
    assert forall|j: int| 0 <= j < curr.len() implies {
        &&& #[trigger] curr[j] < p2.nv()
        &&& p2.depth(curr[j] as nat) == depth
        &&& roots.contains(p2.root_of(curr[j] as nat) as usize)
    } by {
        assert(curr[j] < p1.nv());
        assert(p2.root_chain(curr[j] as nat) == p1.root_chain(curr[j] as nat));
    }
    assert forall|j: int| 0 <= j < next.len() implies {
        &&& #[trigger] next[j] < p2.nv()
        &&& p2.depth(next[j] as nat) == depth + 1
        &&& roots.contains(p2.root_of(next[j] as nat) as usize)
    } by {
        assert(next[j] < p1.nv());
        assert(p2.root_chain(next[j] as nat) == p1.root_chain(next[j] as nat));
    }
}

/// After a wave: what was offered is the head and the extended vertices up
/// to the end of the wave, the roots' wave or the one from `ws` to `wave_start`.
proof fn lemma_wave_done<V, E>(
    p: &Path<V, E>,
    p_start: &Path<V, E>,
    roots: Seq<VertexID>,
    max_depth: Option<u32>,
    n0: nat,
    ws: nat,
    wave_start: nat,
    depth: nat,
    curr: Seq<VertexID>,
    offered0: Seq<VertexID>,
    offered: Seq<VertexID>,
    head: Seq<VertexID>,
    grow: bool,
)
    requires
        p_start.wf(),
        p.extends(p_start),
        wave_start == p_start.nv(),
        n0 <= ws <= wave_start,
        1 <= depth < u32::MAX,
        grow == expands(max_depth, depth),
        head == (if expands(max_depth, 1) {
            roots
        } else {
            Seq::empty()
        }),
        depth == 1 ==> curr == roots && offered0 == Seq::<VertexID>::empty() && wave_start == n0,
        depth > 1 ==> curr == handles(ws, wave_start) && offered0 == head + expandable(p_start, max_depth, n0, ws),
        frontier_ok(p, curr, roots, depth),
        offered == offered0 + (if grow {
            curr
        } else {
            Seq::empty()
        }),
    ensures
        offered == head + expandable(p, max_depth, n0, wave_start),
{
    lemma_expandable_kept(p, p_start, max_depth, n0, ws);
    if depth == 1 {
        assert(expandable(p, max_depth, n0, n0) =~= Seq::<VertexID>::empty());
        if grow {
            assert(offered =~= roots);
        } else {
            assert(offered =~= Seq::<VertexID>::empty());
        }
        assert(offered =~= head + expandable(p, max_depth, n0, n0));
    } else {
        assert forall|x: nat| ws <= x < wave_start implies #[trigger] p.depth(x) == depth by {
            let j = (x - ws) as int;
            assert(curr[j] == x as usize);
        }
        lemma_expandable_wave(p, max_depth, n0, ws, wave_start, depth);
        let a = expandable(p, max_depth, n0, ws);
        if grow {
            assert(offered =~= head + (a + handles(ws, wave_start)));
        } else {
            assert(offered =~= head + (a + Seq::<VertexID>::empty()));
        }
    }
}

/// Offers vertex `v` of the frontier at `depth` to each strategy of the
/// technique, in order, and records the results; new vertices join `next`.
/// Returns the results.
fn offer_vertex<V, E, T: Technique<V, E>>(
    path: &mut Path<V, E>,
    technique: &mut T,
    next: &mut Vec<VertexID>,
    v: VertexID,
    o: Ghost<Path<V, E>>,
    roots: Ghost<Seq<VertexID>>,
    max_depth: Option<u32>,
    depth: u32,
    curr: Ghost<Seq<VertexID>>,
    iv: Ghost<int>,
    wave_start: Ghost<nat>,
    p_start: Ghost<Path<V, E>>,
    log0: Ghost<Seq<(VertexID, Extension<V, E>)>>,
    hist0: Ghost<Seq<Event>>,
) -> (cur: Ghost<Seq<Extension<V, E>>>)
    requires
        o@.wf(),
        grown_from(old(path), &o@, roots@, max_depth),
        frontier_ok(old(path), curr@, roots@, depth as nat),
        frontier_ok(old(path), old(next)@, roots@, depth as nat + 1),
        breadth_first(old(path), &o@, depth as nat + 1),
        expands(max_depth, depth as nat),
        depth < u32::MAX,
        0 <= iv@ < curr@.len(),
        curr@[iv@] == v,
        recorded(old(path), &o@, log0@),
        old(technique).history()@ == hist0@,
        wave_start@ <= old(path).nv(),
        old(path).nv() <= usize::MAX,
        old(path).extends(&p_start@),
        p_start@.wf(),
        old(next)@ == handles(wave_start@, old(path).nv()),
    ensures
        grown_from(final(path), &o@, roots@, max_depth),
        frontier_ok(final(path), curr@, roots@, depth as nat),
        frontier_ok(final(path), final(next)@, roots@, depth as nat + 1),
        breadth_first(final(path), &o@, depth as nat + 1),
        recorded(final(path), &o@, log0@ + pairs(v, cur@)),
        final(technique).history()@ == hist0@ + group_runs(v, cur@),
        wave_start@ <= final(path).nv(),
        final(path).nv() <= usize::MAX,
        final(path).extends(&p_start@),
        final(next)@ == handles(wave_start@, final(path).nv()),
{
    let ghost mut cur: Seq<Extension<V, E>> = Seq::empty();
    proof {
        lemma_runs_steps(seq![v], Seq::<Seq<Extension<V, E>>>::empty(), v, Seq::empty(), Extension::Nothing);
        assert(hist0@ + group_runs(v, cur) =~= hist0@);
        assert(log0@ + pairs(v, cur) =~= log0@);
    }
    let n = technique.nb_strategies(path, v);
    let mut s: usize = 0;
    while s < n
        invariant
            o@.wf(),
            grown_from(path, &o@, roots@, max_depth),
            frontier_ok(path, curr@, roots@, depth as nat),
            frontier_ok(path, next@, roots@, depth as nat + 1),
            breadth_first(path, &o@, depth as nat + 1),
            expands(max_depth, depth as nat),
            depth < u32::MAX,
            0 <= iv@ < curr@.len(),
            curr@[iv@] == v,
            recorded(path, &o@, log0@ + pairs(v, cur)),
            cur.len() == s,
            technique.history()@ == hist0@ + group_runs(v, cur),
            wave_start@ <= path.nv(),
            path.nv() <= usize::MAX,
            path.extends(&p_start@),
            p_start@.wf(),
            next@ == handles(wave_start@, path.nv()),
        decreases n - s,
    {
        let ext = technique.sample(path, v, s);
        assert(v < path.nv() && path.depth(v as nat) == depth && roots@.contains(path.root_of(v as nat) as usize))
            by {
            assert(curr@[iv@] < path.nv());
        }
        let ghost g = ext;
        let ghost p0 = *path;
        let ghost log = log0@ + pairs(v, cur);
        if path.nb_vertices() < usize::MAX && path.nb_edges() < usize::MAX {
            let ghost p1 = *path;
            let ghost reached = ext is Reached;
            let w = record_extension(path, v, ext);
            proof {
                lemma_record_step(path, &p1, &o@, log, v, g, true);
                path.lemma_extends_trans(&p1, &p_start@);
                lemma_grown_step(path, &p1, &o@, roots@, max_depth, v, reached, curr@, next@, depth as nat);
            }
            if let Some(w) = w {
                next.push(w);
                proof {
                    assert(next@ =~= handles(wave_start@, path.nv()));
                    assert forall|j: int| 0 <= j < next@.len() implies {
                        &&& #[trigger] next@[j] < path.nv()
                        &&& path.depth(next@[j] as nat) == depth as nat + 1
                        &&& roots@.contains(path.root_of(next@[j] as nat) as usize)
                    } by {
                        if j < next@.len() - 1 {
                            assert(next@[j] == next@.drop_last()[j]);
                        }
                    }
                }
            }
        }
        proof {
            if !(p0.nv() < usize::MAX && p0.ne() < usize::MAX) {
                lemma_record_step(path, &p0, &o@, log, v, g, false);
            }
            assert(log.push((v, g)) =~= log0@ + pairs(v, cur.push(g)));
            lemma_runs_steps(seq![v], Seq::<Seq<Extension<V, E>>>::empty(), v, cur, g);
            assert(technique.history()@ =~= hist0@ + group_runs(v, cur.push(g)));
            cur = cur.push(g);
        }
        s = s + 1;
    }
    Ghost(cur)
}

/// Grows `path` from `roots`, breadth first: every vertex of the frontier
/// at a depth that `max_depth` lets expand is offered to the technique's
/// strategies in order, and each new vertex joins the next frontier. Roots
/// are at depth 1. Returns the vertices offered, in the order they were,
/// and for each of them what its strategies produced, in strategy order:
/// the path grows by exactly those results, recorded in that order.
#[verifier::spinoff_prover]
pub fn generate<V, E, T: Technique<V, E>>(
    path: &mut Path<V, E>,
    roots: &Vec<VertexID>,
    technique: &mut T,
    max_depth: Option<u32>,
) -> (r: (Vec<VertexID>, Ghost<Seq<Seq<Extension<V, E>>>>))
    requires
        old(path).wf(),
        forall|i: int|
            0 <= i < roots.len() ==> #[trigger] roots[i] < old(path).nv() && old(path).is_root(
                roots[i] as int,
            ),
    ensures
        grown_from(final(path), old(path), roots@, max_depth),
        breadth_first(final(path), old(path), u32::MAX as nat),
        r.0@ == (if expands(max_depth, 1) {
            roots@
        } else {
            Seq::empty()
        }) + expandable(final(path), max_depth, old(path).nv(), final(path).nv()),
        r.1@.len() == r.0@.len(),
        recorded(final(path), old(path), flatten(r.0@, r.1@)),
        final(technique).history()@ == old(technique).history()@ + runs_of(r.0@, r.1@),
{
    proof {
        path.lemma_extends_refl();
    }
    let ghost o0 = *path;
    let ghost n0 = path.nv();
    let ghost head: Seq<VertexID> = if expands(max_depth, 1) {
        roots@
    } else {
        Seq::empty()
    };
    let mut offered: Vec<VertexID> = Vec::new();
    let ghost mut groups: Seq<Seq<Extension<V, E>>> = Seq::empty();
    proof {
        reveal(runs_of);
        assert(technique.history()@ =~= technique.history()@ + runs_of(offered@, groups));
        reveal(recorded);
        assert(replay_log(path.nv(), path.ne(), flatten(offered@, groups)).0 =~= Seq::<Edge<E>>::empty());
        assert(path.edge_seq() =~= path.edge_seq() + Seq::<Edge<E>>::empty());
        assert forall|v: int| 0 <= v < path.nv() implies #[trigger] path.out(v) == path.out(v) + outs_from(
            Seq::<Edge<E>>::empty(),
            v as nat,
            path.ne(),
        ) by {
            assert(path.out(v) =~= path.out(v) + Seq::<EdgeID>::empty());
        }
    }
    let mut curr: Vec<VertexID> = Vec::new();
    let mut k: usize = 0;
    while k < roots.len()
        invariant
            k <= roots.len(),
            path == old(path),
            path.wf(),
            curr@ == roots@.subrange(0, k as int),
            forall|i: int|
                0 <= i < roots.len() ==> #[trigger] roots[i] < old(path).nv() && old(path).is_root(
                    roots[i] as int,
                ),
        decreases roots.len() - k,
    {
        curr.push(roots[k]);
        k = k + 1;
        assert(curr@ =~= roots@.subrange(0, k as int));
    }
    proof {
        assert(curr@ =~= roots@);
        assert forall|j: int| 0 <= j < curr@.len() implies {
            &&& #[trigger] curr@[j] < path.nv()
            &&& path.depth(curr@[j] as nat) == 1
            &&& roots@.contains(path.root_of(curr@[j] as nat) as usize)
        } by {
            assert(roots[j] < path.nv() && path.is_root(roots[j] as int));
        }
    }
    let mut depth: u32 = 1;
    let ghost ws: nat = n0;
    while curr.len() > 0 && depth < u32::MAX
        invariant
            old(path).wf(),
            o0 == *old(path),
            n0 == old(path).nv(),
            grown_from(path, old(path), roots@, max_depth),
            frontier_ok(path, curr@, roots@, depth as nat),
            breadth_first(path, old(path), depth as nat),
            1 <= depth,
            n0 <= ws <= path.nv(),
            path.nv() <= usize::MAX,
            depth == 1 ==> curr@ == roots@ && offered@ == Seq::<VertexID>::empty() && path.nv() == n0,
            depth > 1 ==> curr@ == handles(ws, path.nv()) && offered@ == head + expandable(
                path,
                max_depth,
                n0,
                ws,
            ),
            head == (if expands(max_depth, 1) {
                roots@
            } else {
                Seq::empty()
            }),
            groups.len() == offered@.len(),
            recorded(path, old(path), flatten(offered@, groups)),
            technique.history()@ == old(technique).history()@ + runs_of(offered@, groups),
        decreases u32::MAX - depth,
    {
        let mut next: Vec<VertexID> = Vec::new();
        let ghost wave_start = path.nv();
        let ghost offered0 = offered@;
        let ghost p_start = *path;
        proof {
            path.lemma_extends_refl();
        }
        proof {
            assert forall|v: int| old(path).nv() <= v < path.nv() implies #[trigger] path.depth(v as nat)
                <= depth as nat + 1 by {
            }
            assert(next@ =~= handles(wave_start, path.nv()));
        }
        let grow = expand(max_depth, depth);
        if grow {
            let mut i: usize = 0;
            while i < curr.len()
                invariant
                    old(path).wf(),
                    o0 == *old(path),
                    grown_from(path, old(path), roots@, max_depth),
                    frontier_ok(path, curr@, roots@, depth as nat),
                    frontier_ok(path, next@, roots@, depth as nat + 1),
                    breadth_first(path, old(path), depth as nat + 1),
                    expands(max_depth, depth as nat),
                    depth < u32::MAX,
                    i <= curr.len(),
                    wave_start <= path.nv(),
                    path.nv() <= usize::MAX,
                    path.extends(&p_start),
                    p_start.wf(),
                    next@ == handles(wave_start, path.nv()),
                    offered@ == offered0 + curr@.subrange(0, i as int),
                    groups.len() == offered@.len(),
                    recorded(path, old(path), flatten(offered@, groups)),
                    technique.history()@ == old(technique).history()@ + runs_of(offered@, groups),
                decreases curr.len() - i,
            {
                let v = curr[i];
                let ghost offered_before = offered@;
                offered.push(v);
                proof {
                    lemma_flatten_prefix(offered_before, offered@, groups);
                    lemma_runs_prefix(offered_before, offered@, groups);
                    lemma_runs_steps(offered@, groups, v, Seq::empty(), Extension::Nothing);
                    assert(runs_of(offered@, groups) + group_runs(v, Seq::<Extension<V, E>>::empty()) =~= runs_of(
                        offered@,
                        groups,
                    ));
                    assert(flatten(offered@, groups) + pairs(v, Seq::empty()) =~= flatten(offered@, groups));
                }
                let Ghost(cur) = offer_vertex(
                    path,
                    technique,
                    &mut next,
                    v,
                    Ghost(o0),
                    Ghost(roots@),
                    max_depth,
                    depth,
                    Ghost(curr@),
                    Ghost(i as int),
                    Ghost(wave_start),
                    Ghost(p_start),
                    Ghost(flatten(offered@, groups)),
                    Ghost(old(technique).history()@ + runs_of(offered@, groups)),
                );
                proof {
                    let groups2 = groups.push(cur);
                    assert(groups2.drop_last() =~= groups);
                    lemma_runs_steps(offered@, groups, v, cur, Extension::Nothing);
                    assert(technique.history()@ =~= old(technique).history()@ + runs_of(offered@, groups2));
                    groups = groups2;
                }
                i = i + 1;
                assert(offered@ =~= offered0 + curr@.subrange(0, i as int));
            }
            assert(curr@.subrange(0, curr@.len() as int) =~= curr@);
        }
        proof {
            if !grow {
                assert(offered@ =~= offered0 + Seq::<VertexID>::empty());
            }
            lemma_wave_done(path, &p_start, roots@, max_depth, n0, ws, wave_start, depth as nat, curr@, offered0, offered@, head, grow);
        }
        curr = next;
        depth = depth + 1;
        proof {
            ws = wave_start;
        }
    }
    proof {
        let p_end = *path;
        if depth > 1 {
            assert forall|x: nat| ws <= x < path.nv() implies #[trigger] path.depth(x) == depth as nat by {
                let j = (x - ws) as int;
                assert(curr@[j] == x as usize);
            }
            lemma_expandable_wave(&p_end, max_depth, n0, ws, path.nv(), depth as nat);
            if curr.len() == 0 {
                assert(handles(ws, path.nv()).len() == 0);
            }
            assert(expandable(path, max_depth, n0, path.nv()) =~= expandable(path, max_depth, n0, ws));
        } else {
            assert(roots@.len() == 0);
            assert(head =~= Seq::<VertexID>::empty());
            assert(offered@ =~= head + expandable(path, max_depth, n0, path.nv()));
        }
    }
    (offered, Ghost(groups))
}

} // verus!
