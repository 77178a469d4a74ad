use algorist_grapht::fields::{AllocFailureKind, FieldsExtError};
use algorist_grapht::backend::arc::Arc;
use algorist_grapht::backend::{AllocErrorSrc, Graph, GraphCreationError};

#[test]
fn lib_it_works() {
    let mut graph = Graph::new(10).expect("a graph of ten vertices");
    let mut vertices = graph.iter_mut();
    while let Some(vertex) = vertices.next() {
        println!("initial state");
        let fields = vertex.chfield_string(3).unwrap();
        println!("{}\n{}\n{}\n---", fields[0], fields[1], fields[2]);
    }
    let mut vertices = graph.iter_mut();
    while let Some(vertex) = vertices.next() {
        println!("modification");
        let fields = vertex.chfield_string(3).unwrap();
        for field in fields.iter_mut().take(3) {
            field.reserve_exact("Something".len());
            field.push_str("Something");
        }
    }
    let mut vertices = graph.iter_mut();
    while let Some(vertex) = vertices.next() {
        println!("final state");
        let fields = vertex.chfield_string(3).unwrap();
        println!("{}\n{}\n{}\n---", fields[0], fields[1], fields[2]);
    }
}

#[test]
fn string_fields_persist_between_calls() {
    let mut graph = Graph::new(2).unwrap();
    let fields = graph.vertex_mut(1).chfield_string(3).unwrap();
    assert_eq!(fields.len(), 3);
    assert!(fields.iter().all(|f| f.is_empty()));
    fields[2].push_str("Something");
    let again = graph.vertex_mut(1).chfield_string(3).unwrap();
    assert_eq!(again.len(), 3);
    assert_eq!(again[2], "Something");
    assert_eq!(again[0], "");
    assert!(graph.vertex(0).fields.strings.is_none());
}

#[test]
fn usize_fields_grow_with_zeros() {
    let mut graph = Graph::new(1).unwrap();
    let fields = graph.vertex_mut(0).chfield_usize(2).unwrap();
    assert_eq!(fields.as_slice(), &[0, 0]);
    fields[0] = 7;
    let fields = graph.vertex_mut(0).chfield_usize(4).unwrap();
    assert_eq!(fields.as_slice(), &[7, 0, 0, 0]);
    let fields = graph.vertex_mut(0).chfield_usize(1).unwrap();
    assert_eq!(fields.as_slice(), &[7, 0, 0, 0]);
}

#[test]
fn fields_come_from_the_producer() {
    let mut graph = Graph::new(1).unwrap();
    let fields = graph.vertex_mut(0).chfield_with_usize(3, || Ok(5)).unwrap();
    assert_eq!(fields.as_slice(), &[5, 5, 5]);
    let fields = graph
        .vertex_mut(0)
        .chfield_with_string(2, || Ok(String::from("x")))
        .unwrap();
    assert_eq!(fields.as_slice(), &["x".to_string(), "x".to_string()]);
}

#[test]
fn new_graph_is_blank() {
    let graph = Graph::new(5).unwrap();
    assert_eq!(graph.order(), 5);
    assert_eq!(graph.get_id(), "");
    for i in 0..5 {
        let v = graph.vertex(i);
        assert!(v.arcs.is_empty());
        assert_eq!(v.get_id(), "");
        assert!(v.fields.usizes.is_none());
        assert!(v.fields.strings.is_none());
    }
    let empty = Graph::new(0).unwrap();
    assert_eq!(empty.order(), 0);
}

#[test]
fn new_graph_fails_when_the_arena_cannot_be_reserved() {
    match Graph::new(usize::MAX - 4) {
        Err(GraphCreationError::AllocError(AllocErrorSrc::ArenaAlloc)) => {}
        other => panic!("unexpected outcome: {:?}", other.map(|g| g.order())),
    }
    match Graph::new(usize::MAX) {
        Err(GraphCreationError::AllocError(AllocErrorSrc::ArenaAlloc)) => {}
        other => panic!("unexpected outcome: {:?}", other.map(|g| g.order())),
    }
}

#[test]
fn ids_read_back_what_was_written() {
    let mut graph = Graph::new(2).unwrap();
    graph.set_id("grid");
    assert_eq!(graph.get_id(), "grid");
    graph.vertex_mut(1).set_id("corner");
    assert_eq!(graph.vertex(1).get_id(), "corner");
    assert_eq!(graph.vertex(0).get_id(), "");
    graph.set_id_with(|| String::from("other"));
    assert_eq!(graph.get_id(), "other");
    graph.vertex_mut(0).set_id_with(|| String::from("v0"));
    assert_eq!(graph.vertex(0).get_id(), "v0");
}

#[test]
fn arcs_are_appended_to_their_source() {
    let mut graph = Graph::new(3).unwrap();
    graph.new_arc(0, 2).unwrap();
    graph.new_arc(0, 1).unwrap();
    assert_eq!(graph.vertex(0).arcs.len(), 2);
    assert_eq!(graph.vertex(0).arcs[0].tip, Some(2));
    assert_eq!(graph.vertex(0).arcs[1].tip, Some(1));
    assert!(graph.vertex(1).arcs.is_empty());
    assert_eq!(graph.vertex(0).arcs[0].get_id(), "");
}

#[test]
fn edges_are_two_arcs() {
    let mut graph = Graph::new(3).unwrap();
    graph.new_edge(1, 2).unwrap();
    assert_eq!(graph.vertex(1).arcs.len(), 1);
    assert_eq!(graph.vertex(1).arcs[0].tip, Some(2));
    assert_eq!(graph.vertex(2).arcs.len(), 1);
    assert_eq!(graph.vertex(2).arcs[0].tip, Some(1));
    graph.new_edge(0, 0).unwrap();
    assert_eq!(graph.vertex(0).arcs.len(), 2);
}

#[test]
fn arcs_are_equal_when_they_share_a_tip() {
    let a = Arc::new_to(3);
    let mut b = Arc::new_to(3);
    b.set_id("named");
    assert_eq!(b.get_id(), "named");
    assert!(a == b);
    assert!(a != Arc::new_to(4));
    let mut tipless = Arc::new_to(0);
    tipless.tip = None;
    assert!(tipless != tipless_copy(&tipless));
    assert!(a != tipless);
}

fn tipless_copy(a: &Arc) -> Arc {
    let mut c = Arc::new_to(0);
    c.tip = a.tip;
    c
}

#[test]
fn exclusive_cursor_hands_out_every_vertex_once() {
    let mut graph = Graph::new(4).unwrap();
    let mut seen = 0;
    let mut vertices = graph.iter_mut();
    while let Some(vertex) = vertices.next() {
        vertex.set_id(&seen.to_string());
        seen += 1;
    }
    assert!(vertices.next().is_none());
    assert_eq!(seen, 4);
    for i in 0..4 {
        assert_eq!(graph.vertex(i).get_id(), i.to_string());
    }
    let mut empty = Graph::new(0).unwrap();
    assert!(empty.iter_mut().next().is_none());
}

#[test]
fn shared_cursor_hands_out_every_vertex_in_order() {
    let graph = Graph::new(3).unwrap();
    let mut vertices = graph.iter();
    for i in 0..3 {
        let v = vertices.next().unwrap();
        assert!(std::ptr::eq(v, graph.vertex(i)));
    }
    assert!(vertices.next().is_none());
    assert!(vertices.next().is_none());
    let empty = Graph::new(0).unwrap();
    let mut vertices = empty.iter();
    assert!(vertices.next().is_none());
    assert_eq!(vertices.idx, None);
}

#[test]
fn shared_cursor_counts_every_vertex() {
    let graph = Graph::new(5).unwrap();
    assert_eq!(graph.iter().count(), 5);
    let mut vertices = graph.iter();
    vertices.next();
    vertices.next();
    assert_eq!(vertices.count(), 3);
    let empty = Graph::new(0).unwrap();
    assert_eq!(empty.iter().count(), 0);
}

#[test]
fn full_buckets_are_handed_out_without_asking_the_producer() {
    let mut graph = Graph::new(1).unwrap();
    let fields = graph.vertex_mut(0).chfield_with_usize(3, || Ok(5)).unwrap();
    fields[1] = 9;
    let failing = || Err(FieldsExtError(AllocFailureKind::Type("usize")));
    let fields = graph.vertex_mut(0).chfield_with_usize(3, failing).unwrap();
    assert_eq!(fields.as_slice(), &[5, 9, 5]);
    let fields = graph.vertex_mut(0).chfield_with_usize(2, failing).unwrap();
    assert_eq!(fields.as_slice(), &[5, 9, 5]);
}

#[test]
fn oversized_arenas_cannot_be_reserved() {
    match Graph::new(1usize << 62) {
        Err(GraphCreationError::AllocError(AllocErrorSrc::ArenaAlloc)) => {}
        other => panic!("unexpected outcome: {:?}", other.map(|g| g.order())),
    }
}
