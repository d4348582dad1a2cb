use rustlight::generator::{expand, generate, record_extension, Event, Extension, Sampled, Technique};
use rustlight::path::{Path, VertexID, VertexKind};
use rustlight::sampler::{IndependentSampler, ReplaySampler, UNIT};

/// Every vertex gets `fanout` strategies; strategy 0 always reaches a new
/// surface vertex, the others terminate.
struct Fan {
    fanout: usize,
    calls: Vec<(VertexID, usize)>,
    history: Vec<Event>,
}

impl Technique<u32, u32> for Fan {
    fn history(&self) -> Vec<Event> {
        self.history.clone()
    }
    fn nb_strategies(&self, _path: &Path<u32, u32>, _vertex: VertexID) -> usize {
        self.fanout
    }
    fn sample(&mut self, path: &Path<u32, u32>, vertex: VertexID, strategy: usize) -> Extension<u32, u32> {
        self.calls.push((vertex, strategy));
        let r = if strategy == 0 {
            Extension::Reached(VertexKind::Surface, path.vertex(vertex).data + 1, strategy as u32)
        } else {
            Extension::Terminated(strategy as u32)
        };
        self.history.push(Event::Sampled(vertex, strategy, r.shape()));
        r
    }
}

/// Offers three strategies, none of which extends the path.
struct Nothing {
    history: Vec<Event>,
}

impl Technique<u32, u32> for Nothing {
    fn history(&self) -> Vec<Event> {
        self.history.clone()
    }
    fn nb_strategies(&self, _path: &Path<u32, u32>, _vertex: VertexID) -> usize {
        3
    }
    fn sample(&mut self, _path: &Path<u32, u32>, vertex: VertexID, strategy: usize) -> Extension<u32, u32> {
        self.history.push(Event::Sampled(vertex, strategy, Sampled::Nothing));
        Extension::Nothing
    }
}

fn fan(fanout: usize) -> Fan {
    Fan { fanout, calls: vec![], history: vec![] }
}

#[test]
fn expand_respects_bound() {
    assert!(expand(None, 1_000_000));
    assert!(expand(Some(5), 4));
    assert!(!expand(Some(5), 5));
    assert!(!expand(Some(0), 1));
}

#[test]
fn generate_chain_up_to_max_depth() {
    let mut p: Path<u32, u32> = Path::new();
    let root = p.register_vertex(VertexKind::Sensor, 1);
    let mut t = fan(1);
    let (offered, _) = generate(&mut p, &vec![root], &mut t, Some(4));
    // depths 1, 2, 3 expand; the vertex at depth 4 does not
    assert_eq!(offered, vec![0, 1, 2]);
    assert_eq!(p.nb_vertices(), 4);
    assert_eq!(p.nb_edges(), 3);
    assert_eq!(p.vertex(3).data, 4);
    assert!(p.vertex(3).edge_out.is_empty());
    assert_eq!(t.calls, vec![(0, 0), (1, 0), (2, 0)]);
}

#[test]
fn generate_max_depth_one_keeps_root_alone() {
    let mut p: Path<u32, u32> = Path::new();
    let root = p.register_vertex(VertexKind::Emitter, 1);
    let mut t = fan(2);
    let (offered, _) = generate(&mut p, &vec![root], &mut t, Some(1));
    assert!(offered.is_empty());
    assert_eq!(p.nb_vertices(), 1);
    assert_eq!(p.nb_edges(), 0);
    assert!(t.calls.is_empty());
}

#[test]
fn generate_follows_strategy_order_breadth_first() {
    let mut p: Path<u32, u32> = Path::new();
    let a = p.register_vertex(VertexKind::Sensor, 0);
    let b = p.register_vertex(VertexKind::Sensor, 10);
    let mut t = fan(2);
    let (offered, _) = generate(&mut p, &vec![a, b], &mut t, Some(2));
    assert_eq!(offered, vec![a, b]);
    assert_eq!(t.calls, vec![(0, 0), (0, 1), (1, 0), (1, 1)]);
    // each root: one new vertex and one terminated edge
    assert_eq!(p.nb_vertices(), 4);
    assert_eq!(p.nb_edges(), 4);
    assert_eq!(p.vertex(a).edge_out, vec![0, 1]);
    assert_eq!(p.edge(1).to, None);
    assert_eq!(p.vertex(b).edge_out, vec![2, 3]);
    assert_eq!(p.vertex(3).data, 11);
    let shapes: Vec<String> = t.history.iter().map(|e| format!("{:?}", e)).collect();
    assert_eq!(
        shapes,
        vec![
            "Sampled(0, 0, Reached(Surface))",
            "Sampled(0, 1, Terminated)",
            "Sampled(1, 0, Reached(Surface))",
            "Sampled(1, 1, Terminated)"
        ]
    );
}

#[test]
fn generate_with_no_extension() {
    let mut p: Path<u32, u32> = Path::new();
    let root = p.register_vertex(VertexKind::Sensor, 0);
    let mut t = Nothing { history: vec![] };
    let (offered, _) = generate(&mut p, &vec![root], &mut t, None);
    assert_eq!(offered, vec![root]);
    assert_eq!(p.nb_vertices(), 1);
    assert_eq!(p.nb_edges(), 0);
    assert_eq!(t.history.len(), 3);
}

#[test]
fn record_each_kind_of_extension() {
    let mut p: Path<u32, u32> = Path::new();
    let root = p.register_vertex(VertexKind::Sensor, 0);
    assert_eq!(record_extension(&mut p, root, Extension::Nothing), None);
    assert_eq!(p.nb_edges(), 0);
    assert_eq!(record_extension(&mut p, root, Extension::Terminated(7)), None);
    assert_eq!(p.nb_edges(), 1);
    assert_eq!(p.edge(0).to, None);
    assert_eq!(p.edge(0).data, 7);
    let w = record_extension(&mut p, root, Extension::Reached(VertexKind::Volume, 3, 8));
    assert_eq!(w, Some(1));
    assert_eq!(p.vertex(1).kind, VertexKind::Volume);
    assert_eq!(p.vertex(1).data, 3);
    assert_eq!(p.vertex(1).edge_in, Some(1));
    assert_eq!(p.edge(1).to, Some(1));
    assert_eq!(p.vertex(root).edge_out, vec![0, 1]);
}

/// A binary tree: strategies 0 and 1 both reach new vertices.
struct Binary {
    history: Vec<Event>,
}

impl Technique<u32, ()> for Binary {
    fn history(&self) -> Vec<Event> {
        self.history.clone()
    }
    fn nb_strategies(&self, _path: &Path<u32, ()>, _vertex: VertexID) -> usize {
        2
    }
    fn sample(&mut self, path: &Path<u32, ()>, vertex: VertexID, strategy: usize) -> Extension<u32, ()> {
        self.history.push(Event::Sampled(vertex, strategy, Sampled::Reached(VertexKind::Surface)));
        Extension::Reached(VertexKind::Surface, path.vertex(vertex).data + 1, ())
    }
}

#[test]
fn generate_offers_vertices_breadth_first() {
    let mut p: Path<u32, ()> = Path::new();
    let root = p.register_vertex(VertexKind::Sensor, 1);
    let (offered, _) = generate(&mut p, &vec![root], &mut Binary { history: vec![] }, Some(3));
    // depth 1: the root; depth 2: its two children; depth 3 is not extended
    assert_eq!(offered, vec![0, 1, 2]);
    assert_eq!(p.nb_vertices(), 7);
    for v in 0..7 {
        let d = p.vertex(v).data;
        assert_eq!(d as usize, p.chain_to_root(v).len() + 1);
        if v > 0 {
            assert!(p.vertex(v - 1).data <= d);
        }
    }
    assert_eq!(p.vertex(1).edge_out, vec![2, 3]);
    assert_eq!(p.vertex(2).edge_out, vec![4, 5]);
}

/// Extends while the draw is below two thirds, carrying the draw.
struct Replayed<'a> {
    sampler: &'a mut ReplaySampler,
    history: Vec<Event>,
}

impl<'a> Technique<u32, u32> for Replayed<'a> {
    fn history(&self) -> Vec<Event> {
        self.history.clone()
    }
    fn nb_strategies(&self, _path: &Path<u32, u32>, _vertex: VertexID) -> usize {
        2
    }
    fn sample(&mut self, _path: &Path<u32, u32>, vertex: VertexID, strategy: usize) -> Extension<u32, u32> {
        let u = self.sampler.next();
        let r = if u < UNIT / 3 * 2 {
            Extension::Reached(VertexKind::Surface, u, strategy as u32)
        } else {
            Extension::Terminated(u)
        };
        self.history.push(Event::Sampled(vertex, strategy, r.shape()));
        r
    }
}

fn grow(sampler: &mut ReplaySampler) -> Path<u32, u32> {
    let mut p: Path<u32, u32> = Path::new();
    let root = p.register_vertex(VertexKind::Sensor, 0);
    generate(&mut p, &vec![root], &mut Replayed { sampler, history: vec![] }, Some(5));
    p
}

#[test]
fn rewound_generation_rebuilds_the_same_path() {
    let mut s = ReplaySampler::new(IndependentSampler::for_pixel(4, 9));
    let a = grow(&mut s);
    let tape = s.tape_len();
    s.unregistered();
    s.rewind();
    let b = grow(&mut s);
    assert_eq!(s.tape_len(), tape);
    assert_eq!(a.nb_vertices(), b.nb_vertices());
    assert_eq!(a.nb_edges(), b.nb_edges());
    assert!(a.nb_vertices() > 1);
    for v in 0..a.nb_vertices() {
        assert_eq!(a.vertex(v).data, b.vertex(v).data);
        assert_eq!(a.vertex(v).edge_in, b.vertex(v).edge_in);
        assert_eq!(a.vertex(v).edge_out, b.vertex(v).edge_out);
    }
    for e in 0..a.nb_edges() {
        assert_eq!(a.edge(e).from, b.edge(e).from);
        assert_eq!(a.edge(e).to, b.edge(e).to);
        assert_eq!(a.edge(e).data, b.edge(e).data);
    }
}
