use laast::grammar::{read_tree, ParseError};
use laast::normalize::SyntaxNode;
use laast::ingest::{collect, EntryFailure};
use laast::{Laast, Language, Node};

fn kinds(n: &Node, out: &mut Vec<String>) {
    out.push(n.ty.clone());
    for c in &n.children {
        kinds(c, out);
    }
}

#[test]
fn parses_every_language() {
    let sources = [
        (Language::CSharp, "class A { static void Main() { System.Console.WriteLine(\"hi\"); } }"),
        (Language::Go, "package main\nfunc main() { println(\"hi\") }\n"),
        (Language::Java, "class A { public static void main(String[] a) { System.out.println(\"hi\"); } }"),
        (Language::Javascript, "console.log(\"hi\");"),
        (Language::Python, "print(\"hi\")\n"),
        (Language::Ruby, "puts \"hi\"\n"),
        (Language::Rust, "fn main() { println!(\"hi\"); }"),
    ];
    for (lang, code) in sources {
        let l = Laast::parse(lang, code).unwrap();
        assert_eq!(l.language(), lang);
        let mut ks = Vec::new();
        kinds(l.root(), &mut ks);
        for k in ["(", ")", ".", ";", "!", "[", "]", "{", "}", "\"", "\\", ":"] {
            assert!(!ks.iter().any(|x| x == k), "{k} left in {lang:?}");
        }
        assert!(ks.iter().all(|x| x.trim() == x && !x.is_empty()));
    }
}

#[test]
fn rust_root_is_source_file() {
    let l = Laast::parse(Language::Rust, "fn main() {}").unwrap();
    assert_eq!(l.root().ty, "source_file");
    assert!(!l.root().children.is_empty());
}

#[test]
fn hash_is_sha256_of_source() {
    let l = Laast::parse(Language::Python, "abc").unwrap();
    let hex: String = l.hash().iter().map(|b| format!("{b:02x}")).collect();
    assert_eq!(hex, "ba7816bf8f01cfea414140de5dae2223b00361a396177a9cb410ff61f20015ad");
}

#[test]
fn one_failure_and_one_success() {
    let good = Laast::parse(Language::Python, "print(1)\n");
    let bad: Result<Laast, EntryFailure> = Err(EntryFailure::Parse {
        name: "broken.py".to_string(),
        error: ParseError::NoTree,
    });
    let batch = collect(vec![good.map_err(|e| EntryFailure::Parse { name: "ok.py".to_string(), error: e }), bad]);
    assert_eq!(batch.laasts.len(), 1);
    assert_eq!(batch.warnings.len(), 1);
    assert!(matches!(batch.warnings[0], EntryFailure::Parse { .. }));
}

#[test]
fn collect_keeps_order() {
    let a = Laast::new(Language::Go, Node { ty: "a".to_string(), children: vec![] }, vec![]);
    let b = Laast::new(Language::Go, Node { ty: "b".to_string(), children: vec![] }, vec![]);
    let w = EntryFailure::Unreadable { name: "x.go".to_string() };
    let batch = collect(vec![Ok(a), Err(w.clone()), Ok(b)]);
    assert_eq!(batch.laasts[0].root().ty, "a");
    assert_eq!(batch.laasts[1].root().ty, "b");
    assert_eq!(batch.warnings, vec![w]);
}

#[test]
fn equal_inputs_give_equal_trees() {
    let code = "def f(x):\n    return [x, {1: 2}]\n";
    let a = Laast::parse(Language::Python, code).unwrap();
    let b = Laast::parse(Language::Python, code).unwrap();
    let (mut ka, mut kb) = (Vec::new(), Vec::new());
    kinds(a.root(), &mut ka);
    kinds(b.root(), &mut kb);
    assert_eq!(ka, kb);
    assert_eq!(a.hash(), b.hash());
    assert_eq!(a.hash().len(), 32);
}

#[test]
fn read_tree_matches_parse() {
    let mut parser = tree_sitter::Parser::new();
    assert!(Language::Rust.set_grammar(&mut parser));
    let tree = parser.parse("fn main() {}", None).unwrap();
    let syntax = read_tree(&tree).unwrap();
    assert_eq!(syntax.kind, "source_file");
    assert_eq!(count(&syntax), tree.root_node().descendant_count());
}

fn count(n: &SyntaxNode) -> usize {
    1 + n.children.iter().map(count).sum::<usize>()
}
