use laast::normalize::{normalize, NoiseFilter, SyntaxNode};

fn syn(kind: &str, children: Vec<SyntaxNode>) -> SyntaxNode {
    SyntaxNode { kind: kind.to_string(), children }
}

#[test]
fn punctuation_branches_are_dropped() {
    let noise = NoiseFilter::punctuation();
    let t = syn("call", vec![syn("identifier", vec![]), syn("(", vec![]), syn("string", vec![]), syn(")", vec![]), syn(";", vec![])]);
    let n = normalize(&t, &noise).unwrap();
    assert_eq!(n.ty, "call");
    let kinds: Vec<&str> = n.children.iter().map(|c| c.ty.as_str()).collect();
    assert_eq!(kinds, vec!["identifier", "string"]);
}

#[test]
fn noise_root_gives_nothing() {
    let noise = NoiseFilter::punctuation();
    let t = syn("{", vec![syn("}", vec![])]);
    assert!(normalize(&t, &noise).is_none());
}

#[test]
fn order_is_kept() {
    let noise = NoiseFilter::punctuation();
    let t = syn("r", vec![syn("c", vec![]), syn(".", vec![]), syn("a", vec![]), syn("[", vec![]), syn("b", vec![])]);
    let n = normalize(&t, &noise).unwrap();
    let kinds: Vec<&str> = n.children.iter().map(|c| c.ty.as_str()).collect();
    assert_eq!(kinds, vec!["c", "a", "b"]);
}

#[test]
fn kinds_are_trimmed() {
    let noise = NoiseFilter::punctuation();
    let t = syn(" block ", vec![syn(" ; ", vec![]), syn("\tname\n", vec![])]);
    let n = normalize(&t, &noise).unwrap();
    assert_eq!(n.ty, "block");
    assert_eq!(n.children.len(), 1);
    assert_eq!(n.children[0].ty, "name");
}

#[test]
fn every_punctuation_kind_is_noise() {
    let noise = NoiseFilter::punctuation();
    for k in ["(", ")", ".", ";", "!", "[", "]", "{", "}", "\"", "\\", ":"] {
        assert!(noise.contains(&k.to_string()), "{k}");
    }
    assert!(!noise.contains(&",".to_string()));
    assert!(!noise.contains(&"identifier".to_string()));
}

#[test]
fn blank_kinds_are_dropped() {
    let noise = NoiseFilter::punctuation();
    let t = syn("r", vec![syn(" ", vec![syn("x", vec![])]), syn("y", vec![])]);
    let n = normalize(&t, &noise).unwrap();
    assert_eq!(n.children.len(), 1);
    assert_eq!(n.children[0].ty, "y");
    assert!(normalize(&syn("\n", vec![]), &noise).is_none());
}
