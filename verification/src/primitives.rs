//! The declarations of extra fields for the graph primitives: of several
//! declarations named after the same primitive, the last one counts.
use vstd::prelude::*;

verus! {

/// The index of the last of `names` that is `name`.
pub open spec fn last_named(names: Seq<String>, name: Seq<char>) -> Option<int>
    decreases names.len(),
{
    if names.len() == 0 {
        None
    } else if names.last()@ == name {
        Some(names.len() - 1)
    } else {
        last_named(names.drop_last(), name)
    }
}

/// The index as an integer.
pub open spec fn index_of(i: Option<usize>) -> Option<int> {
    match i {
        Some(k) => Some(k as int),
        None => None,
    }
}

/// Which of the declarations named in `names` give the extra fields of the
/// arcs, of the vertices and of the graph: the last one named `Arc`,
/// `Vertex` and `Graph` respectively, where there is one.
pub fn primitive_fields(names: &Vec<String>) -> (r: (Option<usize>, Option<usize>, Option<usize>))
    ensures
        index_of(r.0) == last_named(names@, seq!['A', 'r', 'c']),
        index_of(r.1) == last_named(names@, seq!['V', 'e', 'r', 't', 'e', 'x']),
        index_of(r.2) == last_named(names@, seq!['G', 'r', 'a', 'p', 'h']),
{
    proof {
        reveal_strlit("Arc");
        reveal_strlit("Vertex");
        reveal_strlit("Graph");
    }
    let arc_name = "Arc".to_owned();
    let vertex_name = "Vertex".to_owned();
    let graph_name = "Graph".to_owned();
    let mut arc_fields: Option<usize> = None;
    let mut vertex_fields: Option<usize> = None;
    let mut graph_fields: Option<usize> = None;
    let mut i: usize = 0;
    while i < names.len()
        invariant
            i <= names@.len(),
            arc_name@ == seq!['A', 'r', 'c'],
            vertex_name@ == seq!['V', 'e', 'r', 't', 'e', 'x'],
            graph_name@ == seq!['G', 'r', 'a', 'p', 'h'],
            index_of(arc_fields) == last_named(names@.take(i as int), arc_name@),
            index_of(vertex_fields) == last_named(names@.take(i as int), vertex_name@),
            index_of(graph_fields) == last_named(names@.take(i as int), graph_name@),
        decreases names@.len() - i,
    {
        let name = &names[i];
        let ghost next = names@.take(i as int + 1);
        assert(next.drop_last() =~= names@.take(i as int));
        assert(next.last() == names@[i as int]);
        if *name == graph_name {
            graph_fields = Some(i);
        } else if *name == vertex_name {
            vertex_fields = Some(i);
        } else if *name == arc_name {
            arc_fields = Some(i);
        }
        i = i + 1;
    }
    assert(names@.take(i as int) =~= names@);
    (arc_fields, vertex_fields, graph_fields)
}

/// The item `last_named` picks is the last one of that name: it has the name
/// and no item after it has; where it picks none, no item has the name.
pub proof fn lemma_last_named(names: Seq<String>, name: Seq<char>)
    ensures
        last_named(names, name) matches Some(i) ==> {
            &&& 0 <= i < names.len()
            &&& names[i]@ == name
            &&& forall|j: int| i < j < names.len() ==> (#[trigger] names[j])@ != name
        },
        last_named(names, name) is None ==> forall|j: int|
            0 <= j < names.len() ==> (#[trigger] names[j])@ != name,
    decreases names.len(),
{
    if names.len() > 0 {
        let front = names.drop_last();
        lemma_last_named(front, name);
        assert(names.last() == names[names.len() - 1]);
        if names.last()@ != name {
            assert forall|j: int|
                0 <= j < names.len() - 1 && (#[trigger] names[j])@ == name implies front[j]@ == name by {
                assert(front[j] == names[j]);
            }
            match last_named(front, name) {
                Some(i) => {
                    assert(names[i] == front[i]);
                    assert forall|j: int| i < j < names.len() implies (#[trigger] names[j])@ != name by {
                        if j < names.len() - 1 {
                            assert(front[j] == names[j]);
                        }
                    }
                },
                None => {
                    assert forall|j: int| 0 <= j < names.len() implies (#[trigger] names[j])@ != name by {
                        if j < names.len() - 1 {
                            assert(front[j] == names[j]);
                        }
                    }
                },
            }
        }
    }
}

} // verus!
