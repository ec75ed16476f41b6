use laast::similarity::{calculate, summarize, SimilarityError};
use laast::ted::distance;
use laast::{Laast, Language, Node};

fn leaf(ty: &str) -> Node {
    Node { ty: ty.to_string(), children: Vec::new() }
}

fn node(ty: &str, children: Vec<Node>) -> Node {
    Node { ty: ty.to_string(), children }
}

fn laast(root: Node) -> Laast {
    Laast::new(Language::Rust, root, vec![0u8; 32])
}

#[test]
fn single_nodes() {
    assert_eq!(distance(&leaf("a"), &leaf("a")), 0);
    assert_eq!(distance(&leaf("a"), &leaf("b")), 1);
}

#[test]
fn identity_and_symmetry() {
    let a = node("f", vec![node("d", vec![leaf("a"), node("c", vec![leaf("b")])]), leaf("e")]);
    let b = node("f", vec![node("c", vec![node("d", vec![leaf("a"), leaf("b")])]), leaf("e")]);
    assert_eq!(distance(&a, &a), 0);
    assert_eq!(distance(&b, &b), 0);
    assert_eq!(distance(&a, &b), distance(&b, &a));
}

#[test]
fn classic_example_is_two() {
    let a = node("f", vec![node("d", vec![leaf("a"), node("c", vec![leaf("b")])]), leaf("e")]);
    let b = node("f", vec![node("c", vec![node("d", vec![leaf("a"), leaf("b")])]), leaf("e")]);
    assert_eq!(distance(&a, &b), 2);
}

#[test]
fn one_inserted_leaf_is_one() {
    let a = node("r", vec![node("x", vec![leaf("y")]), leaf("z")]);
    let front = node("r", vec![leaf("n"), node("x", vec![leaf("y")]), leaf("z")]);
    let inner = node("r", vec![node("x", vec![leaf("y"), leaf("n")]), leaf("z")]);
    let back = node("r", vec![node("x", vec![leaf("y")]), leaf("z"), leaf("n")]);
    assert_eq!(distance(&a, &front), 1);
    assert_eq!(distance(&a, &inner), 1);
    assert_eq!(distance(&back, &a), 1);
}

#[test]
fn triangle_inequality_on_examples() {
    let a = node("r", vec![leaf("x"), leaf("y")]);
    let b = node("s", vec![node("x", vec![leaf("y")])]);
    let c = leaf("r");
    assert!(distance(&a, &b) <= distance(&a, &c) + distance(&c, &b));
    assert!(distance(&a, &c) <= distance(&a, &b) + distance(&b, &c));
    assert!(distance(&b, &c) <= distance(&b, &a) + distance(&a, &c));
}

#[test]
fn deleting_everything() {
    let a = node("r", vec![leaf("x"), node("y", vec![leaf("z")])]);
    assert_eq!(distance(&a, &leaf("q")), 4);
}

#[test]
fn batch_of_zero_or_one_is_insufficient() {
    assert!(matches!(calculate(&[]), Err(SimilarityError::InsufficientInput)));
    assert!(matches!(calculate(&[laast(leaf("a"))]), Err(SimilarityError::InsufficientInput)));
}

#[test]
fn uniform_batch_summary() {
    let batch = [laast(leaf("a")), laast(leaf("b")), laast(leaf("c"))];
    let s = calculate(&batch).unwrap();
    assert_eq!(s.edit_distance.min, 1);
    assert_eq!(s.edit_distance.max, 1);
    assert_eq!(s.edit_distance.avg, 1);
}

#[test]
fn mixed_batch_summary() {
    let batch = [laast(leaf("a")), laast(leaf("b")), laast(leaf("a"))];
    let s = calculate(&batch).unwrap();
    assert_eq!(s.edit_distance.min, 0);
    assert_eq!(s.edit_distance.max, 1);
    assert_eq!(s.edit_distance.avg, 0);
}

#[test]
fn summary_rounds_average_down() {
    let m = summarize(&vec![1, 2, 4]);
    assert_eq!((m.min, m.max, m.avg), (1, 4, 2));
    let m = summarize(&vec![7, 7, 7, 7]);
    assert_eq!((m.min, m.max, m.avg), (7, 7, 7));
}

#[test]
fn relabel_is_cheaper_than_delete_and_insert() {
    let a = node("r", vec![leaf("x"), leaf("y")]);
    let b = node("r", vec![leaf("x"), leaf("z")]);
    assert_eq!(distance(&a, &b), 1);
    let c = node("s", vec![leaf("x"), leaf("z")]);
    assert_eq!(distance(&a, &c), 2);
}
