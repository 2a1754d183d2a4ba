use mcstarter::errors::McError;
use mcstarter::merge::merge_yamls;
use mcstarter::node::Node;

fn dict(entries: Vec<(&str, Node)>) -> Node {
    Node::Dict(entries.into_iter().map(|(k, v)| (k.to_string(), v)).collect())
}

#[test]
fn merge_scalar_override() {
    // merge({a:1,b:2}, {a:9}) = {a:9,b:2}
    let a = dict(vec![("a", Node::Int(1)), ("b", Node::Int(2))]);
    let b = dict(vec![("a", Node::Int(9))]);
    let merged = merge_yamls(&a, &b).unwrap();
    assert_eq!(merged, dict(vec![("a", Node::Int(9)), ("b", Node::Int(2))]));
}

#[test]
fn merge_type_mismatch_falls_to_override() {
    // merge({a:{x:1}}, {a:5}) = {a:5}
    let a = dict(vec![("a", dict(vec![("x", Node::Int(1))]))]);
    let b = dict(vec![("a", Node::Int(5))]);
    let merged = merge_yamls(&a, &b).unwrap();
    assert_eq!(merged, dict(vec![("a", Node::Int(5))]));
}

#[test]
fn merge_arrays_concatenate_in_order() {
    // merge({a:[1]}, {a:[2]}) = {a:[1,2]}: not deduplicated, not sorted
    let a = dict(vec![("a", Node::Arr(vec![Node::Int(1)]))]);
    let b = dict(vec![("a", Node::Arr(vec![Node::Int(2)]))]);
    let merged = merge_yamls(&a, &b).unwrap();
    assert_eq!(
        merged,
        dict(vec![("a", Node::Arr(vec![Node::Int(1), Node::Int(2)]))])
    );
    let a2 = dict(vec![("a", Node::Arr(vec![Node::Int(2)]))]);
    let b2 = dict(vec![("a", Node::Arr(vec![Node::Int(1)]))]);
    let merged2 = merge_yamls(&a2, &b2).unwrap();
    assert_ne!(merged, merged2);
}

#[test]
fn merge_nested_maps_recursively() {
    let a = dict(vec![("s", dict(vec![("pvp", Node::Bool(true))]))]);
    let b = dict(vec![("s", dict(vec![("motd", Node::Str("hi".to_string()))]))]);
    let merged = merge_yamls(&a, &b).unwrap();
    assert_eq!(
        merged,
        dict(vec![(
            "s",
            dict(vec![
                ("pvp", Node::Bool(true)),
                ("motd", Node::Str("hi".to_string())),
            ])
        )])
    );
}

#[test]
fn merge_keeps_insertion_order() {
    let a = dict(vec![("x", Node::Int(1)), ("y", Node::Int(2))]);
    let b = dict(vec![("z", Node::Int(3)), ("y", Node::Int(9))]);
    let merged = merge_yamls(&a, &b).unwrap();
    assert_eq!(
        merged,
        dict(vec![
            ("x", Node::Int(1)),
            ("y", Node::Int(9)),
            ("z", Node::Int(3)),
        ])
    );
}

#[test]
fn merge_pairwise_agrees_with_left_to_right_fold() {
    // merge(merge(A,B),C) is the left-to-right fold of A, B, C
    let a = dict(vec![("a", Node::Int(1))]);
    let b = dict(vec![("b", Node::Int(2))]);
    let c = dict(vec![("a", Node::Int(3)), ("c", Node::Int(4))]);
    let ab = merge_yamls(&a, &b).unwrap();
    let abc = merge_yamls(&ab, &c).unwrap();
    let mut folded = a;
    for d in [b, c] {
        folded = merge_yamls(&folded, &d).unwrap();
    }
    assert_eq!(abc, folded);
}

#[test]
fn merge_of_pure_maps_is_associative() {
    let a = dict(vec![("k", dict(vec![("x", dict(vec![]))]))]);
    let b = dict(vec![("k", dict(vec![("y", dict(vec![]))])), ("b", dict(vec![]))]);
    let c = dict(vec![("c", dict(vec![])), ("k", dict(vec![("z", dict(vec![]))]))]);
    let left = merge_yamls(&merge_yamls(&a, &b).unwrap(), &c).unwrap();
    let right = merge_yamls(&a, &merge_yamls(&b, &c).unwrap()).unwrap();
    assert_eq!(left, right);
}

#[test]
fn merge_refuses_non_map_documents() {
    let a = Node::Int(1);
    let b = dict(vec![("a", Node::Int(1))]);
    assert_eq!(merge_yamls(&a, &b).unwrap_err(), McError::NotMergeable);
    assert_eq!(merge_yamls(&b, &a).unwrap_err(), McError::NotMergeable);
    let arr = Node::Arr(vec![Node::Int(1)]);
    assert_eq!(merge_yamls(&arr, &arr).unwrap_err(), McError::NotMergeable);
}
