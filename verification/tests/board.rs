use algorist_grapht::backend::Graph;
use algorist_grapht::board::{
    build_graph, fill_arcs, init_state, name_graph, normalize_board_size, BoardError,
    BuildGraphError, GraphBuildErrorKind, InitStateError, InitStateErrorSrc,
};
use algorist_grapht::decimal::push_signed_decimal;
use algorist_grapht::board::{WrapBuilder, WrapBuilderRepr};
use algorist_grapht::num::NonZeroIsize;

#[test]
fn sizes_default_to_an_eight_by_eight_board() {
    assert_eq!(normalize_board_size(0, 5, 5, 5).unwrap(), vec![8, 8]);
    assert_eq!(normalize_board_size(-3, 0, 0, 0).unwrap(), vec![8, 8]);
}

#[test]
fn sizes_stop_at_the_first_zero() {
    assert_eq!(normalize_board_size(3, 0, 7, 7).unwrap(), vec![3]);
    assert_eq!(normalize_board_size(3, 4, 0, 7).unwrap(), vec![3, 4]);
    assert_eq!(normalize_board_size(3, 4, 5, 0).unwrap(), vec![3, 4, 5]);
    assert_eq!(normalize_board_size(3, 4, 5, 6).unwrap(), vec![3, 4, 5, 6]);
}

#[test]
fn negative_sizes_repeat_the_leading_ones() {
    assert_eq!(normalize_board_size(2, -3, 9, 9).unwrap(), vec![2, 2, 2]);
    assert_eq!(normalize_board_size(2, 5, -5, 9).unwrap(), vec![2, 5, 2, 5, 2]);
    assert_eq!(normalize_board_size(2, 5, 7, -4).unwrap(), vec![2, 5, 7, 2]);
}

#[test]
fn sizes_fail_when_the_room_cannot_be_reserved() {
    assert!(normalize_board_size(1, isize::MIN, 0, 0).is_err());
}

#[test]
fn vertices_are_named_by_their_mixed_radix_coordinates() {
    let graph = build_graph(&[2, 3]).unwrap();
    let names: Vec<&str> = (0..graph.order()).map(|i| graph.vertex(i).get_id()).collect();
    assert_eq!(names, vec!["0.0", "0.1", "0.2", "1.0", "1.1", "1.2"]);
    let fields = graph.vertex(3).fields.usizes.as_ref().unwrap();
    assert_eq!(fields.as_slice(), &[1, 0, 0]);
    let fields = graph.vertex(4).fields.usizes.as_ref().unwrap();
    assert_eq!(fields.as_slice(), &[1, 1, 0]);
    assert!(graph.vertex(0).arcs.is_empty());
}

#[test]
fn the_first_three_coordinates_are_recorded() {
    let graph = build_graph(&[2, 2, 2, 2]).unwrap();
    assert_eq!(graph.order(), 16);
    assert_eq!(graph.vertex(11).get_id(), "1.0.1.1");
    assert_eq!(graph.vertex(11).fields.usizes.as_ref().unwrap().as_slice(), &[1, 0, 1]);
    assert_eq!(graph.vertex(15).get_id(), "1.1.1.1");
}

#[test]
fn one_dimensional_boards_count_up() {
    let graph = build_graph(&[3]).unwrap();
    let names: Vec<&str> = (0..graph.order()).map(|i| graph.vertex(i).get_id()).collect();
    assert_eq!(names, vec!["0", "1", "2"]);
    assert_eq!(graph.vertex(2).fields.usizes.as_ref().unwrap().as_slice(), &[2, 0, 0]);
}

#[test]
fn an_empty_board_has_one_unnamed_vertex() {
    let graph = build_graph(&[]).unwrap();
    assert_eq!(graph.order(), 1);
    assert_eq!(graph.vertex(0).get_id(), "");
    assert!(graph.vertex(0).fields.usizes.is_none());
}

#[test]
fn oversized_boards_are_refused() {
    assert!(matches!(
        build_graph(&[usize::MAX, 2]),
        Err(BuildGraphError::ComponentSizesOutOfBounds)
    ));
    assert!(matches!(
        build_graph(&[1usize << 32, 1usize << 31]),
        Err(BuildGraphError::ComponentSizesOutOfBounds)
    ));
    assert!(matches!(
        build_graph(&[isize::MAX as usize, 2]),
        Err(BuildGraphError::ComponentSizesOutOfBounds)
    ));
}

#[test]
fn graph_names_list_the_parameters() {
    let mut graph = Graph::new(1).unwrap();
    name_graph(&mut graph, &[8, -8, 12], true).unwrap();
    assert_eq!(graph.get_id(), "board(8,-8,12,1)");
    name_graph(&mut graph, &[], false).unwrap();
    assert_eq!(graph.get_id(), "board(0)");
    name_graph(&mut graph, &[2, 3, 4, 5, 1, 1], true).unwrap();
    assert_eq!(graph.get_id(), "board(2,3,4,5,1,1,1)");
    name_graph(&mut graph, &[0, 0, 0, 0, 1, 0], false).unwrap();
    assert_eq!(graph.get_id(), "board(0,0,0,0,1,0,0)");
}

#[test]
fn signed_integers_render_like_display() {
    for x in [0isize, 7, -7, 10, -1234, isize::MAX, isize::MIN] {
        let mut s = String::from("x=");
        push_signed_decimal(&mut s, x);
        assert_eq!(s, format!("x={}", x));
    }
}

#[test]
fn wrap_bits_select_wrapping_components() {
    let (wrap, motions, change) = init_state(0b101, 4).unwrap();
    assert_eq!(wrap, vec![true, false, true, false]);
    assert_eq!(motions, vec![0; 4]);
    assert_eq!(change, vec![0; 5]);
    let (wrap, _, _) = init_state(-1, 3).unwrap();
    assert_eq!(wrap, vec![true, true, true]);
}

#[test]
fn negative_wraps_extend_their_sign() {
    let (wrap, _, _) = init_state(-1, 70).unwrap();
    assert_eq!(wrap, vec![true; 70]);
    let (wrap, _, _) = init_state(isize::MIN, 70).unwrap();
    let bits = usize::BITS as usize;
    for (k, w) in wrap.iter().enumerate() {
        assert_eq!(*w, k + 1 >= bits);
    }
    let (wrap, _, _) = init_state(5, 70).unwrap();
    assert!(wrap[0] && !wrap[1] && wrap[2] && !wrap[69]);
}

#[test]
fn init_state_fails_when_the_room_cannot_be_reserved() {
    assert!(matches!(
        init_state(0, usize::MAX - 1),
        Err(InitStateError::AuxiliaryAlloc(InitStateErrorSrc::Wrapping, n)) if n == usize::MAX - 1
    ));
    assert!(matches!(
        init_state(0, usize::MAX),
        Err(InitStateError::AuxiliaryAlloc(InitStateErrorSrc::Wrapping, n)) if n == usize::MAX
    ));
}

fn tips(graph: &Graph, i: usize) -> Vec<usize> {
    graph.vertex(i).arcs.iter().map(|a| a.tip.unwrap()).collect()
}

#[test]
fn a_directed_step_moves_forward() {
    let mut graph = Graph::new(3).unwrap();
    fill_arcs(&mut graph, &[3], 1, 0, true).unwrap();
    assert_eq!(tips(&graph, 0), vec![1]);
    assert_eq!(tips(&graph, 1), vec![2]);
    assert!(tips(&graph, 2).is_empty());
}

#[test]
fn an_undirected_step_adds_arcs_both_ways() {
    let mut graph = Graph::new(3).unwrap();
    fill_arcs(&mut graph, &[3], 1, 0, false).unwrap();
    assert_eq!(tips(&graph, 0), vec![1]);
    assert_eq!(tips(&graph, 1), vec![0, 2]);
    assert_eq!(tips(&graph, 2), vec![1]);
}

#[test]
fn a_rider_keeps_stepping() {
    let mut graph = Graph::new(4).unwrap();
    fill_arcs(&mut graph, &[4], -1, 0, true).unwrap();
    assert_eq!(tips(&graph, 0), vec![1, 2, 3]);
    assert_eq!(tips(&graph, 1), vec![2, 3]);
    assert_eq!(tips(&graph, 2), vec![3]);
    assert!(tips(&graph, 3).is_empty());
}

#[test]
fn a_wrapping_coordinate_comes_back_around() {
    let mut graph = Graph::new(3).unwrap();
    fill_arcs(&mut graph, &[3], 1, 1, true).unwrap();
    assert_eq!(tips(&graph, 0), vec![1]);
    assert_eq!(tips(&graph, 1), vec![2]);
    assert_eq!(tips(&graph, 2), vec![0]);
}

#[test]
fn knight_moves_on_a_three_by_three_board() {
    let mut graph = build_graph(&[3, 3]).unwrap();
    fill_arcs(&mut graph, &[3, 3], 5, 0, false).unwrap();
    // The centre cell has no knight move; each other cell has two.
    assert!(tips(&graph, 4).is_empty());
    for i in [0usize, 1, 2, 3, 5, 6, 7, 8] {
        let mut t = tips(&graph, i);
        t.sort();
        let expected: Vec<usize> = match i {
            0 => vec![5, 7],
            1 => vec![6, 8],
            2 => vec![3, 7],
            3 => vec![2, 8],
            5 => vec![0, 6],
            6 => vec![1, 5],
            7 => vec![0, 2],
            _ => vec![1, 3],
        };
        assert_eq!(t, expected);
    }
}

#[test]
fn moves_of_squared_length_piece_join_exactly_those_cells() {
    let sizes = [4usize, 3];
    let mut graph = build_graph(&sizes).unwrap();
    fill_arcs(&mut graph, &sizes, 2, 0, false).unwrap();
    let coords = |i: usize| ((i / 3) as isize, (i % 3) as isize);
    for u in 0..12 {
        for v in 0..12 {
            let (a, b) = coords(u);
            let (c, d) = coords(v);
            let squared = (a - c) * (a - c) + (b - d) * (b - d);
            let count = graph.vertex(u).arcs.iter().filter(|x| x.tip == Some(v)).count();
            assert_eq!(count, usize::from(squared == 2));
        }
    }
}

#[test]
fn boards_are_named_and_laid_out() {
    let piece = NonZeroIsize::new(1).unwrap();
    let graph = Graph::board(2, 3, 1, 1, piece, 1, true).unwrap();
    assert_eq!(graph.get_id(), "board(2,3,1,1,1,1,1)");
    assert_eq!(graph.order(), 6);
    let names: Vec<&str> = (0..graph.order()).map(|i| graph.vertex(i).get_id()).collect();
    assert_eq!(
        names,
        vec!["0.0.0.0", "0.1.0.0", "0.2.0.0", "1.0.0.0", "1.1.0.0", "1.2.0.0"]
    );
    assert_eq!(tips(&graph, 0), vec![1, 3]);
    assert_eq!(tips(&graph, 1), vec![2, 4]);
    assert_eq!(tips(&graph, 2), vec![5]);
    assert_eq!(tips(&graph, 3), vec![4, 0]);
    assert_eq!(tips(&graph, 4), vec![5, 1]);
    assert_eq!(tips(&graph, 5), vec![2]);
}

#[test]
fn boards_of_negative_sizes_repeat_components() {
    let piece = NonZeroIsize::new(-2).unwrap();
    let graph = Graph::board(2, -2, 1, 1, piece, -1, false).unwrap();
    assert_eq!(graph.order(), 4);
    assert_eq!(graph.get_id(), "board(2,-2,1,1,-2,-1,0)");
    assert_eq!(tips(&graph, 0), vec![3, 3, 3, 3]);
    assert_eq!(tips(&graph, 1), vec![2, 2, 2, 2]);
    assert_eq!(tips(&graph, 2), vec![1, 1, 1, 1]);
    assert_eq!(tips(&graph, 3), vec![0, 0, 0, 0]);
}

#[test]
fn oversized_boards_report_the_component_sizes() {
    let piece = NonZeroIsize::new(1).unwrap();
    assert!(matches!(
        Graph::board(isize::MAX, isize::MAX, 0, 0, piece, 0, true),
        Err(BoardError::GraphBuild(GraphBuildErrorKind::ComponentSizesOutOfBounds))
    ));
}

#[test]
fn zero_is_not_a_nonzero_integer() {
    assert!(NonZeroIsize::new(0).is_none());
    assert_eq!(NonZeroIsize::new(-4).unwrap().get(), -4);
}

#[test]
fn board_vertices_have_distinct_names() {
    let piece = NonZeroIsize::new(2).unwrap();
    let graph = Graph::board(3, -3, 1, 1, piece, 0b11, true);
    let graph = graph.unwrap();
    assert_eq!(graph.order(), 27);
    let mut names: Vec<&str> = (0..graph.order()).map(|i| graph.vertex(i).get_id()).collect();
    names.sort();
    names.dedup();
    assert_eq!(names.len(), 27);
    assert_eq!(graph.get_id(), "board(3,-3,1,1,2,3,1)");
}

#[test]
fn wrap_builders_describe_all_or_some_components() {
    match WrapBuilder::new(None).unwrap().0 {
        Some(WrapBuilderRepr::AllComponents) => {}
        other => panic!("unexpected description: {:?}", other),
    }
    match WrapBuilder::new(Some(4)).unwrap().0 {
        Some(WrapBuilderRepr::SpecificComponents(v)) => assert!(v.is_empty()),
        other => panic!("unexpected description: {:?}", other),
    }
    assert!(WrapBuilder::default().0.is_none());
}

#[test]
fn boards_with_zero_parameters_are_built() {
    let piece = NonZeroIsize::new(1).unwrap();
    let graph = Graph::board(3, 0, 0, 0, piece, 0, true).unwrap();
    assert_eq!(graph.get_id(), "board(3,0,0,0,1,0,1)");
    assert_eq!(graph.order(), 3);
    assert_eq!(tips(&graph, 0), vec![1]);
    assert_eq!(tips(&graph, 1), vec![2]);
    assert!(tips(&graph, 2).is_empty());
}

#[test]
fn a_king_on_a_small_board_reaches_its_neighbours() {
    let piece = NonZeroIsize::new(1).unwrap();
    let graph = Graph::board(2, 2, 0, 0, piece, 0, false).unwrap();
    assert_eq!(graph.get_id(), "board(2,2,0,0,1,0,0)");
    let mut t = tips(&graph, 0);
    t.sort();
    assert_eq!(t, vec![1, 2]);
    let mut t = tips(&graph, 3);
    t.sort();
    assert_eq!(t, vec![1, 2]);
}

#[test]
fn a_normalization_failure_is_reported_as_such() {
    let piece = NonZeroIsize::new(1).unwrap();
    assert!(matches!(
        Graph::board(2, isize::MIN, 0, 0, piece, 0, true),
        Err(BoardError::Normalization)
    ));
}

#[test]
fn a_directed_knight_board_has_one_arc_per_forward_move() {
    let piece = NonZeroIsize::new(5).unwrap();
    let graph = Graph::board(4, 3, 0, 0, piece, 0, true).unwrap();
    let coords = |i: usize| ((i / 3) as isize, (i % 3) as isize);
    for u in 0..12 {
        for v in 0..12 {
            let (a, b) = coords(u);
            let (c, d) = coords(v);
            let (x, y) = (c - a, d - b);
            let forward = x > 0 || (x == 0 && y > 0);
            let count = graph.vertex(u).arcs.iter().filter(|arc| arc.tip == Some(v)).count();
            assert_eq!(count, usize::from(x * x + y * y == 5 && forward));
        }
    }
}
