use rustlight::generator::{generate, Event, Extension, Sampled, Technique};
use rustlight::path::{Path, VertexID, VertexKind};
use rustlight::vpl::{emission_order, generate_vpls, LightTechnique};

#[test]
fn emission_order_is_depth_first() {
    let mut p: Path<(), ()> = Path::new();
    let r = p.register_vertex(VertexKind::Emitter, ());
    let (_, a) = p.register_extension(r, VertexKind::Surface, (), ());
    let (_, b) = p.register_extension(r, VertexKind::Volume, (), ());
    let (_, c) = p.register_extension(a, VertexKind::Surface, (), ());
    let _ = p.register_edge(b, ());
    let (_, d) = p.register_extension(b, VertexKind::Surface, (), ());
    assert_eq!(emission_order(&p, r), vec![r, a, c, b, d]);
    assert_eq!(emission_order(&p, b), vec![b, d]);
}

#[test]
fn sensor_vertices_give_no_vpl() {
    let mut p: Path<(), ()> = Path::new();
    let s = p.register_vertex(VertexKind::Sensor, ());
    let _ = p.register_extension(s, VertexKind::Surface, (), ());
    assert!(emission_order(&p, s).is_empty());
}

/// Light paths of a fixed length: the emitter and `bounces` surface vertices.
struct Lights {
    bounces: u32,
    roots: usize,
    received: Vec<usize>,
    history: Vec<Event>,
}

impl Technique<u32, ()> for Lights {
    fn history(&self) -> Vec<Event> {
        self.history.clone()
    }
    fn nb_strategies(&self, _path: &Path<u32, ()>, _vertex: VertexID) -> usize {
        1
    }
    fn sample(&mut self, path: &Path<u32, ()>, vertex: VertexID, strategy: usize) -> Extension<u32, ()> {
        let d = path.vertex(vertex).data;
        let r = if d < self.bounces {
            Extension::Reached(VertexKind::Surface, d + 1, ())
        } else {
            Extension::Terminated(())
        };
        self.history.push(Event::Sampled(vertex, strategy, r.shape()));
        r
    }
}

impl LightTechnique<u32, ()> for Lights {
    fn sample_root(&mut self) -> u32 {
        self.roots += 1;
        0
    }
    fn convert(&mut self, _path: &Path<u32, ()>, order: &Vec<VertexID>) {
        self.received.push(order.len());
        self.history.push(Event::Converted(order.clone()));
    }
}

#[test]
fn vpl_pass_counts_paths_not_vpls() {
    let mut t = Lights { bounces: 2, roots: 0, received: vec![], history: vec![] };
    let (c, _) = generate_vpls(&mut t, 10, None);
    // three VPLs per path: four paths reach ten
    assert_eq!(c.nb_path_shot, 4);
    assert_eq!(c.nb_vpl, 12);
    assert_eq!(t.roots, 4);
    assert_eq!(t.received, vec![3, 3, 3, 3]);
    // per path: one strategy run for each of its three vertices, then the conversion
    assert_eq!(t.history.len(), 16);
    assert!(matches!(t.history[3], Event::Converted(ref o) if o == &vec![0, 1, 2]));
}

#[test]
fn vpl_pass_respects_max_depth() {
    let mut t = Lights { bounces: 5, roots: 0, received: vec![], history: vec![] };
    let (c, _) = generate_vpls(&mut t, 4, Some(2));
    // max depth 2: the emitter and one bounce
    assert_eq!(c.nb_path_shot, 2);
    assert_eq!(c.nb_vpl, 4);
}

#[test]
fn vpl_pass_with_zero_target() {
    let mut t = Lights { bounces: 1, roots: 0, received: vec![], history: vec![] };
    let (c, _) = generate_vpls(&mut t, 0, None);
    assert_eq!(c.nb_path_shot, 0);
    assert_eq!(c.nb_vpl, 0);
    assert_eq!(t.roots, 0);
}

/// Two strategies: one reaches a surface, the other a volume vertex.
struct Split {
    history: Vec<Event>,
}

impl Technique<(), ()> for Split {
    fn history(&self) -> Vec<Event> {
        self.history.clone()
    }
    fn nb_strategies(&self, _path: &Path<(), ()>, _vertex: VertexID) -> usize {
        2
    }
    fn sample(&mut self, _path: &Path<(), ()>, vertex: VertexID, strategy: usize) -> Extension<(), ()> {
        let kind = if strategy == 0 { VertexKind::Surface } else { VertexKind::Volume };
        self.history.push(Event::Sampled(vertex, strategy, Sampled::Reached(kind)));
        Extension::Reached(kind, (), ())
    }
}

#[test]
fn every_light_path_vertex_gives_one_vpl() {
    let mut p: Path<(), ()> = Path::new();
    let root = p.register_vertex(VertexKind::Emitter, ());
    generate(&mut p, &vec![root], &mut Split { history: vec![] }, Some(4));
    assert_eq!(p.nb_vertices(), 15);
    let mut order = emission_order(&p, root);
    assert_eq!(order[..4].to_vec(), vec![0, 1, 3, 7]);
    order.sort();
    assert_eq!(order, (0..15).collect::<Vec<usize>>());
}
