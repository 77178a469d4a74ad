use algorist_grapht::backend::Graph;
use algorist_grapht::board::build_graph;
use algorist_grapht::board::moves::gen_moves;

fn tips(graph: &Graph, i: usize) -> Vec<usize> {
    graph.vertex(i).arcs.iter().map(|a| a.tip.unwrap()).collect()
}

#[test]
fn a_leaping_piece_adds_one_wrapped_arc() {
    let mut graph = build_graph(&[3, 3]).unwrap();
    let mut current = vec![-1isize, 4];
    gen_moves(&mut graph, 0, &mut current, &[0, 0], &[-1, 4], &[3, 3], &[true, true], true, 1)
        .unwrap();
    assert_eq!(current, vec![2, 1]);
    assert_eq!(tips(&graph, 0), vec![7]);
}

#[test]
fn coordinates_on_the_board_are_kept() {
    let mut graph = build_graph(&[3, 3]).unwrap();
    let mut current = vec![1isize, 5];
    gen_moves(&mut graph, 2, &mut current, &[0, 0], &[1, 5], &[3, 3], &[true, true], true, 1)
        .unwrap();
    assert_eq!(current, vec![1, 2]);
    assert_eq!(tips(&graph, 2), vec![5]);
    let mut graph = Graph::new(3).unwrap();
    let mut current = vec![1isize];
    gen_moves(&mut graph, 0, &mut current, &[0], &[1], &[3], &[false], true, 1).unwrap();
    assert_eq!(tips(&graph, 0), vec![1]);
    assert!(tips(&graph, 1).is_empty());
    assert!(tips(&graph, 2).is_empty());
}

#[test]
fn coordinates_wrap_modulo_the_size() {
    let mut graph = build_graph(&[3, 4]).unwrap();
    let mut current = vec![-3isize, 8];
    gen_moves(&mut graph, 1, &mut current, &[0, 0], &[0, 0], &[3, 4], &[true, true], true, 1)
        .unwrap();
    assert_eq!(current, vec![0, 0]);
    assert_eq!(tips(&graph, 1), vec![0]);
    let mut current = vec![7isize, -5];
    gen_moves(&mut graph, 1, &mut current, &[0, 0], &[0, 0], &[3, 4], &[true, true], true, 1)
        .unwrap();
    assert_eq!(current, vec![1, 3]);
    assert_eq!(tips(&graph, 1), vec![0, 7]);
}

#[test]
fn a_riding_piece_moves_on_until_it_stops() {
    let mut graph = build_graph(&[3, 3]).unwrap();
    let mut current = vec![-1isize, -1];
    gen_moves(&mut graph, 4, &mut current, &[0, 0], &[-1, -1], &[3, 3], &[true, true], true, -1)
        .unwrap();
    assert_eq!(current, vec![0, 0]);
    assert_eq!(tips(&graph, 4), vec![8, 4]);
    let mut graph = Graph::new(4).unwrap();
    let mut current = vec![1isize];
    gen_moves(&mut graph, 0, &mut current, &[0], &[1], &[4], &[false], true, -1).unwrap();
    assert_eq!(tips(&graph, 0), vec![1, 2, 3]);
    assert_eq!(current, vec![4]);
}

#[test]
fn a_riding_piece_back_on_its_prior_state_stops() {
    let mut graph = build_graph(&[3, 3]).unwrap();
    let mut current = vec![-1isize, -1];
    gen_moves(&mut graph, 4, &mut current, &[2, 2], &[-1, -1], &[3, 3], &[true, true], true, -1)
        .unwrap();
    assert_eq!(current, vec![2, 2]);
    assert!(graph.vertex(4).arcs.is_empty());
}

#[test]
fn unwrapped_coordinates_stop_the_moves() {
    let mut graph = build_graph(&[3, 3]).unwrap();
    let mut current = vec![-1isize, 4];
    gen_moves(&mut graph, 0, &mut current, &[0, 0], &[-1, 4], &[3, 3], &[false, true], true, 1)
        .unwrap();
    assert_eq!(current, vec![-1, 4]);
    assert!(graph.vertex(0).arcs.is_empty());
}

#[test]
fn an_undirected_move_adds_an_edge() {
    let mut graph = Graph::new(3).unwrap();
    let mut current = vec![2isize];
    gen_moves(&mut graph, 0, &mut current, &[0], &[2], &[3], &[false], false, 1).unwrap();
    assert_eq!(tips(&graph, 0), vec![2]);
    assert_eq!(tips(&graph, 2), vec![0]);
    assert!(tips(&graph, 1).is_empty());
}
