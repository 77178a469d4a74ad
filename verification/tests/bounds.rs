use algorist_grapht::bounds::{process_bounds, BoundDesc};
use algorist_grapht::primitives::primitive_fields;

fn other(s: &str) -> BoundDesc {
    BoundDesc::Other(s.to_string())
}

#[test]
fn a_fields_bound_becomes_one_bound_per_field() {
    let bounds = vec![
        other("GraphBackend"),
        other("IdExt"),
        BoundDesc::FieldsExt { ty: Some("usize".to_string()), count: Some(3) },
        other("Debug"),
    ];
    let out = process_bounds(&bounds);
    assert_eq!(out.len(), 6);
    assert!(matches!(&out[0], BoundDesc::Other(s) if s == "GraphBackend"));
    assert!(matches!(&out[1], BoundDesc::Other(s) if s == "IdExt"));
    assert!(matches!(&out[2], BoundDesc::Other(s) if s == "Debug"));
    for i in 0..3 {
        assert!(matches!(&out[3 + i], BoundDesc::Field { ty, index } if ty == "usize" && *index == i));
    }
}

#[test]
fn bounds_without_a_complete_fields_bound_stay() {
    let bounds = vec![
        other("Debug"),
        BoundDesc::FieldsExt { ty: None, count: Some(3) },
        BoundDesc::FieldsExt { ty: Some("u8".to_string()), count: Some(2) },
    ];
    let out = process_bounds(&bounds);
    assert_eq!(out.len(), 3);
    assert!(matches!(&out[1], BoundDesc::FieldsExt { ty: None, count: Some(3) }));
    assert!(process_bounds(&vec![other("Clone")]).len() == 1);
    let only = process_bounds(&vec![BoundDesc::FieldsExt { ty: Some("T".to_string()), count: Some(0) }]);
    assert!(only.is_empty());
}

#[test]
fn the_last_declaration_of_a_primitive_counts() {
    let names: Vec<String> = ["Arc", "Graph", "Vertex", "Arc", "Other"].iter().map(|s| s.to_string()).collect();
    assert_eq!(primitive_fields(&names), (Some(3), Some(2), Some(1)));
    assert_eq!(primitive_fields(&vec![]), (None, None, None));
}
