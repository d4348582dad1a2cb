use rustlight::path::{Path, VertexKind};

#[test]
fn register_root_and_extensions() {
    let mut p: Path<u8, u16> = Path::new();
    assert_eq!(p.nb_vertices(), 0);
    let r = p.register_vertex(VertexKind::Sensor, 1);
    assert_eq!(r, 0);
    let (e, v) = p.register_extension(r, VertexKind::Surface, 2, 10);
    assert_eq!((e, v), (0, 1));
    assert_eq!(p.edge(e).from, 0);
    assert_eq!(p.edge(e).to, Some(1));
    assert_eq!(p.edge(e).data, 10);
    assert_eq!(p.vertex(v).edge_in, Some(0));
    assert_eq!(p.vertex(v).kind, VertexKind::Surface);
    assert_eq!(p.vertex(r).edge_out, vec![0]);
    let t = p.register_edge(v, 20);
    assert_eq!(t, 1);
    assert_eq!(p.edge(t).to, None);
    assert_eq!(p.vertex(v).edge_out, vec![1]);
    assert_eq!(p.nb_vertices(), 2);
    assert_eq!(p.nb_edges(), 2);
}

#[test]
fn chain_to_root_lists_edges_in_order() {
    let mut p: Path<(), ()> = Path::new();
    let r = p.register_vertex(VertexKind::Emitter, ());
    let (e0, a) = p.register_extension(r, VertexKind::Surface, (), ());
    let _miss = p.register_edge(r, ());
    let (e2, b) = p.register_extension(a, VertexKind::Volume, (), ());
    let (e3, c) = p.register_extension(b, VertexKind::Surface, (), ());
    assert_eq!(p.chain_to_root(r), Vec::<usize>::new());
    assert_eq!(p.chain_to_root(a), vec![e0]);
    assert_eq!(p.chain_to_root(c), vec![e0, e2, e3]);
}

#[test]
fn set_vertex_data_replaces_only_data() {
    let mut p: Path<i32, ()> = Path::new();
    let r = p.register_vertex(VertexKind::Sensor, 5);
    let (_, v) = p.register_extension(r, VertexKind::Surface, 6, ());
    p.set_vertex_data(v, 60);
    assert_eq!(p.vertex(v).data, 60);
    assert_eq!(p.vertex(r).data, 5);
    assert_eq!(p.vertex(v).edge_in, Some(0));
}
