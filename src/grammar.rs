//! The boundary with the grammars: tree-sitter parsers, the walk that reads
//! a parse tree into a `SyntaxNode`, and the content digest.
use vstd::prelude::*;
use crate::flat::lemma_forest_of;
use crate::language::Language;
use crate::normalize::{NoiseFilter, SyntaxNode, normalize, normalize_tree, standard_noise, syntax_forest};
use crate::tree::{OrderedTree, rest};
use crate::Laast;

verus! {

broadcast use vstd::seq::group_seq_axioms;

/// The language whose grammar a parser was given last, if any.
pub uninterp spec fn parser_grammar(p: tree_sitter::Parser) -> Option<Language>;

/// Whether a parser takes the grammar of `lang`: whether the grammar's ABI
/// version is one this tree-sitter reads.
pub uninterp spec fn grammar_accepted(lang: Language) -> bool;

/// The concrete syntax tree that the grammar of `lang` gives for `code`:
/// kinds as the grammar names them, children in source order, anonymous
/// tokens included.
pub uninterp spec fn concrete_tree(lang: Language, code: Seq<char>) -> OrderedTree;

/// The nodes of a parse tree in preorder: each node's kind and number of
/// children.
pub uninterp spec fn records_of(t: tree_sitter::Tree) -> Seq<(Seq<char>, nat)>;

/// Relies on `tree_sitter_c_sharp::LANGUAGE` and `tree_sitter::Parser::set_language`:
/// whether the parser accepted the C# grammar.
#[verifier::external_body]
fn use_c_sharp_grammar(parser: &mut tree_sitter::Parser) -> (r: bool)
    ensures
        r == grammar_accepted(Language::CSharp),
        r ==> parser_grammar(*final(parser)) == Some(Language::CSharp),
        !r ==> parser_grammar(*final(parser)) == parser_grammar(*old(parser)),
{
    parser.set_language(&tree_sitter_c_sharp::LANGUAGE.into()).is_ok()
}

/// Relies on `tree_sitter_go::LANGUAGE` and `tree_sitter::Parser::set_language`:
/// whether the parser accepted the Go grammar.
#[verifier::external_body]
fn use_go_grammar(parser: &mut tree_sitter::Parser) -> (r: bool)
    ensures
        r == grammar_accepted(Language::Go),
        r ==> parser_grammar(*final(parser)) == Some(Language::Go),
        !r ==> parser_grammar(*final(parser)) == parser_grammar(*old(parser)),
{
    parser.set_language(&tree_sitter_go::LANGUAGE.into()).is_ok()
}

/// Relies on `tree_sitter_java::LANGUAGE` and `tree_sitter::Parser::set_language`:
/// whether the parser accepted the Java grammar.
#[verifier::external_body]
fn use_java_grammar(parser: &mut tree_sitter::Parser) -> (r: bool)
    ensures
        r == grammar_accepted(Language::Java),
        r ==> parser_grammar(*final(parser)) == Some(Language::Java),
        !r ==> parser_grammar(*final(parser)) == parser_grammar(*old(parser)),
{
    parser.set_language(&tree_sitter_java::LANGUAGE.into()).is_ok()
}

/// Relies on `tree_sitter_javascript::LANGUAGE` and `tree_sitter::Parser::set_language`:
/// whether the parser accepted the JavaScript grammar.
#[verifier::external_body]
fn use_javascript_grammar(parser: &mut tree_sitter::Parser) -> (r: bool)
    ensures
        r == grammar_accepted(Language::Javascript),
        r ==> parser_grammar(*final(parser)) == Some(Language::Javascript),
        !r ==> parser_grammar(*final(parser)) == parser_grammar(*old(parser)),
{
    parser.set_language(&tree_sitter_javascript::LANGUAGE.into()).is_ok()
}

/// Relies on `tree_sitter_python::LANGUAGE` and `tree_sitter::Parser::set_language`:
/// whether the parser accepted the Python grammar.
#[verifier::external_body]
fn use_python_grammar(parser: &mut tree_sitter::Parser) -> (r: bool)
    ensures
        r == grammar_accepted(Language::Python),
        r ==> parser_grammar(*final(parser)) == Some(Language::Python),
        !r ==> parser_grammar(*final(parser)) == parser_grammar(*old(parser)),
{
    parser.set_language(&tree_sitter_python::LANGUAGE.into()).is_ok()
}

/// Relies on `tree_sitter_ruby::LANGUAGE` and `tree_sitter::Parser::set_language`:
/// whether the parser accepted the Ruby grammar.
#[verifier::external_body]
fn use_ruby_grammar(parser: &mut tree_sitter::Parser) -> (r: bool)
    ensures
        r == grammar_accepted(Language::Ruby),
        r ==> parser_grammar(*final(parser)) == Some(Language::Ruby),
        !r ==> parser_grammar(*final(parser)) == parser_grammar(*old(parser)),
{
    parser.set_language(&tree_sitter_ruby::LANGUAGE.into()).is_ok()
}

/// Relies on `tree_sitter_rust::LANGUAGE` and `tree_sitter::Parser::set_language`:
/// whether the parser accepted the Rust grammar.
#[verifier::external_body]
fn use_rust_grammar(parser: &mut tree_sitter::Parser) -> (r: bool)
    ensures
        r == grammar_accepted(Language::Rust),
        r ==> parser_grammar(*final(parser)) == Some(Language::Rust),
        !r ==> parser_grammar(*final(parser)) == parser_grammar(*old(parser)),
{
    parser.set_language(&tree_sitter_rust::LANGUAGE.into()).is_ok()
}

/// Relies on `tree_sitter::Parser::new`: a parser with no language yet.
#[verifier::external_body]
fn new_parser() -> (r: tree_sitter::Parser)
    ensures
        parser_grammar(r) is None,
{
    tree_sitter::Parser::new()
}


/// Relies on `tree_sitter::Parser::parse`: a tree, error-recovered where the
/// text does not match the grammar, or `None` when no tree came out.
#[verifier::external_body]
fn parse_source(parser: &mut tree_sitter::Parser, code: &str) -> (r: Option<tree_sitter::Tree>)
    ensures
        parser_grammar(*final(parser)) == parser_grammar(*old(parser)),
        parser_grammar(*old(parser)) is Some ==> (r matches Some(t) && records_of(t) == preorder(
            seq![concrete_tree(parser_grammar(*old(parser)).unwrap(), code@)])),
{
    parser.parse(code, None)
}

/// Relies on `tree_sitter::Node::descendant_count` of the root: the number of
/// nodes of the tree.
#[verifier::external_body]
fn node_count(tree: &tree_sitter::Tree) -> (r: usize)
    ensures
        r == records_of(*tree).len(),
{
    tree.root_node().descendant_count()
}

/// Relies on `tree_sitter::TreeCursor::goto_descendant` and
/// `tree_sitter::Node::kind`: the kind of the node at preorder index `i`.
#[verifier::external_body]
fn kind_at(tree: &tree_sitter::Tree, i: usize) -> (r: String)
    requires
        i < records_of(*tree).len(),
    ensures
        r@ == records_of(*tree)[i as int].0,
{
    let mut cursor = tree.walk();
    cursor.goto_descendant(i);
    cursor.node().kind().to_string()
}

/// Relies on `tree_sitter::TreeCursor::goto_descendant` and
/// `tree_sitter::Node::child_count`: the number of children of the node at
/// preorder index `i`.
#[verifier::external_body]
fn arity_at(tree: &tree_sitter::Tree, i: usize) -> (r: usize)
    requires
        i < records_of(*tree).len(),
    ensures
        r as nat == records_of(*tree)[i as int].1,
{
    let mut cursor = tree.walk();
    cursor.goto_descendant(i);
    cursor.node().child_count() as usize
}

/// SHA-256 of the UTF-8 bytes of `s`.
pub uninterp spec fn sha256_of(s: Seq<char>) -> Seq<u8>;

/// Relies on `sha2::Sha256::digest`: the 32-byte digest of the bytes of `code`.
#[verifier::external_body]
fn digest_of(code: &str) -> (r: Vec<u8>)
    ensures
        r@ == sha256_of(code@),
        r@.len() == 32,
{
    <sha2::Sha256 as sha2::Digest>::digest(code.as_bytes()).to_vec()
}

impl Language {
    /// Gives `parser` the grammar of the language; whether it was accepted.
    pub fn set_grammar(&self, parser: &mut tree_sitter::Parser) -> (r: bool)
        ensures
            r == grammar_accepted(*self),
            r ==> parser_grammar(*final(parser)) == Some(*self),
            !r ==> parser_grammar(*final(parser)) == parser_grammar(*old(parser)),
    {
        match self {
            Language::CSharp => use_c_sharp_grammar(parser),
            Language::Go => use_go_grammar(parser),
            Language::Java => use_java_grammar(parser),
            Language::Javascript => use_javascript_grammar(parser),
            Language::Python => use_python_grammar(parser),
            Language::Ruby => use_ruby_grammar(parser),
            Language::Rust => use_rust_grammar(parser),
        }
    }
}

} // verus!

verus! {

/// Preorder records of a forest: each node's kind and number of children.
pub open spec fn preorder(f: Seq<OrderedTree>) -> Seq<(Seq<char>, nat)>
    decreases f,
{
    if f.len() == 0 {
        Seq::empty()
    } else {
        seq![(f[0].label, f[0].children.len())] + preorder(f[0].children) + preorder(rest(f))
    }
}

/// The records held at `[lo, hi)` of `kinds` and `arity`.
pub open spec fn records(kinds: Seq<String>, arity: Seq<usize>, lo: int, hi: int) -> Seq<(Seq<char>, nat)> {
    Seq::new((hi - lo) as nat, |j: int| (kinds[lo + j]@, arity[lo + j] as nat))
}

proof fn lemma_preorder_concat(a: Seq<OrderedTree>, b: Seq<OrderedTree>)
    ensures
        preorder(a + b) == preorder(a) + preorder(b),
    decreases a.len(),
{
    if a.len() == 0 {
        assert(a + b =~= b);
        assert(preorder(a) + preorder(b) =~= preorder(b));
    } else {
        assert((a + b)[0] == a[0]);
        assert(rest(a + b) =~= rest(a) + b);
        lemma_preorder_concat(rest(a), b);
        let h = seq![(a[0].label, a[0].children.len())] + preorder(a[0].children);
        assert(h + (preorder(rest(a)) + preorder(b)) =~= (h + preorder(rest(a))) + preorder(b));
    }
}

proof fn lemma_preorder_single(t: OrderedTree)
    ensures
        preorder(seq![t]) == seq![(t.label, t.children.len())] + preorder(t.children),
{
    let f = seq![t];
    assert(f[0] == t);
    assert(rest(f) =~= Seq::<OrderedTree>::empty());
    assert(preorder(rest(f)) == Seq::<(Seq<char>, nat)>::empty());
    let h = seq![(t.label, t.children.len())] + preorder(t.children);
    assert(h + Seq::<(Seq<char>, nat)>::empty() =~= h);
}

proof fn lemma_syntax_forest_push(s: Seq<SyntaxNode>, x: SyntaxNode)
    ensures
        syntax_forest(s.push(x)) == syntax_forest(s) + seq![x@],
    decreases s.len(),
{
    if s.len() == 0 {
        let p = s.push(x);
        assert(p[0] == x);
        assert(p.subrange(1, p.len() as int) =~= Seq::<SyntaxNode>::empty());
        assert(syntax_forest(p.subrange(1, p.len() as int)) == Seq::<OrderedTree>::empty());
        assert(syntax_forest(p) =~= seq![x@]);
        assert(syntax_forest(s) + seq![x@] =~= seq![x@]);
    } else {
        let tail = s.subrange(1, s.len() as int);
        assert(s.push(x).subrange(1, s.len() as int + 1) =~= tail.push(x));
        lemma_syntax_forest_push(tail, x);
        assert(seq![s[0]@] + (syntax_forest(tail) + seq![x@]) =~= (seq![s[0]@] + syntax_forest(tail)) + seq![x@]);
    }
}

/// Rebuilds the subtree whose preorder records start at `pos`; on success
/// also returns the index just past them. When `expect` is a tree whose
/// records stand at `pos`, that tree is what comes back.
fn build(kinds: &Vec<String>, arity: &Vec<usize>, pos: usize, Ghost(expect): Ghost<Option<OrderedTree>>) -> (r: Option<(SyntaxNode, usize)>)
    requires
        kinds@.len() == arity@.len(),
        pos <= kinds@.len(),
    ensures
        match r {
            Some((node, next)) => {
                &&& pos < next <= kinds@.len()
                &&& records(kinds@, arity@, pos as int, next as int) == preorder(seq![node@])
            },
            None => true,
        },
        expect is Some && pos + preorder(seq![expect.unwrap()]).len() <= kinds@.len()
            && records(kinds@, arity@, pos as int, pos + preorder(seq![expect.unwrap()]).len())
                == preorder(seq![expect.unwrap()])
            ==> (r matches Some((node, next)) && node@ == expect.unwrap()
                && next == pos + preorder(seq![expect.unwrap()]).len()),
    decreases kinds@.len() - pos,
{
    let ghost x = expect.unwrap();
    let ghost guided = expect is Some && pos + preorder(seq![x]).len() <= kinds@.len()
        && records(kinds@, arity@, pos as int, pos + preorder(seq![x]).len()) == preorder(seq![x]);
    let ghost big = preorder(seq![x]);
    proof {
        lemma_preorder_single(x);
        if guided {
            assert(records(kinds@, arity@, pos as int, pos + big.len())[0] == big[0]);
        }
    }
    if pos >= kinds.len() {
        return None;
    }
    let count = arity[pos];
    let mut children: Vec<SyntaxNode> = Vec::new();
    let mut cur: usize = pos + 1;
    let mut c: usize = 0;
    proof {
        assert(records(kinds@, arity@, pos + 1, pos + 1) =~= preorder(syntax_forest(children@)));
        if guided {
            assert(x.children.take(0) =~= Seq::<OrderedTree>::empty());
            assert(syntax_forest(children@) =~= x.children.take(0));
            assert(preorder(Seq::<OrderedTree>::empty()) == Seq::<(Seq<char>, nat)>::empty());
        }
    }
    while c < count
        invariant
            kinds@.len() == arity@.len(),
            pos < cur <= kinds@.len(),
            children@.len() == c,
            c <= count,
            count == arity@[pos as int],
            records(kinds@, arity@, pos + 1, cur as int) == preorder(syntax_forest(children@)),
            x == expect.unwrap(),
            guided == (expect is Some && pos + preorder(seq![x]).len() <= kinds@.len()
                && records(kinds@, arity@, pos as int, pos + preorder(seq![x]).len()) == preorder(seq![x])),
            big == preorder(seq![x]),
            big == seq![(x.label, x.children.len())] + preorder(x.children),
            guided ==> pos + big.len() <= kinds@.len(),
            guided ==> records(kinds@, arity@, pos as int, pos + big.len()) == big,
            guided ==> count == x.children.len(),
            guided ==> syntax_forest(children@) == x.children.take(c as int),
            guided ==> cur == pos + 1 + preorder(x.children.take(c as int)).len(),
        decreases count - c,
    {
        let ghost xc = x.children[c as int];
        proof {
            if guided {
                let pre = x.children.take(c as int);
                let post = x.children.skip(c + 1);
                assert(x.children =~= pre + seq![xc] + post);
                lemma_preorder_concat(pre + seq![xc], post);
                lemma_preorder_concat(pre, seq![xc]);
                let l: int = preorder(seq![xc]).len() as int;
                let off: int = 1 + preorder(pre).len() as int;
                assert(big =~= seq![(x.label, x.children.len())] + preorder(pre) + preorder(seq![xc]) + preorder(post));
                assert(big.subrange(off, off + l) =~= preorder(seq![xc]));
                assert(off + l <= big.len());
                assert(cur == pos + off);
                assert(records(kinds@, arity@, cur as int, cur + l)
                    =~= records(kinds@, arity@, pos as int, pos + big.len()).subrange(off, off + l));
                assert(records(kinds@, arity@, cur as int, cur + l) == preorder(seq![xc]));
            }
        }
        let ghost g: Option<OrderedTree> = if guided { Some(xc) } else { None };
        proof {
            if guided {
                assert(g.unwrap() == xc);
                assert(cur + preorder(seq![g.unwrap()]).len() <= kinds@.len());
                assert(records(kinds@, arity@, cur as int, cur + preorder(seq![g.unwrap()]).len())
                    == preorder(seq![g.unwrap()]));
            }
        }
        match build(kinds, arity, cur, Ghost(g)) {
            Some((child, next)) => {
                proof {
                    lemma_syntax_forest_push(children@, child);
                    lemma_preorder_concat(syntax_forest(children@), seq![child@]);
                    assert(records(kinds@, arity@, pos + 1, next as int)
                        =~= records(kinds@, arity@, pos + 1, cur as int) + records(kinds@, arity@, cur as int, next as int));
                    if guided {
                        assert(x.children.take(c + 1) =~= x.children.take(c as int) + seq![xc]);
                        lemma_preorder_concat(x.children.take(c as int), seq![xc]);
                    }
                }
                children.push(child);
                cur = next;
            },
            None => {
                proof {
                    assert(!guided);
                }
                return None;
            },
        }
        c = c + 1;
    }
    let node = SyntaxNode { kind: kinds[pos].clone(), children };
    proof {
        crate::normalize::lemma_syntax_forest_len(node.children@);
        lemma_preorder_single(node@);
        assert(records(kinds@, arity@, pos as int, cur as int)
            =~= seq![(kinds@[pos as int]@, arity@[pos as int] as nat)] + records(kinds@, arity@, pos + 1, cur as int));
        if guided {
            assert(x.children.take(c as int) =~= x.children);
            assert(node@.label == x.label);
            assert(node@.children == x.children);
        }
    }
    Some((node, cur))
}

/// Reads a parse tree into a concrete syntax tree, node by node in preorder;
/// when `expect` is the tree whose preorder the parse tree holds, that tree
/// is what comes back.
fn decode(tree: &tree_sitter::Tree, Ghost(expect): Ghost<Option<OrderedTree>>) -> (r: Option<SyntaxNode>)
    ensures
        r matches Some(s) ==> preorder(seq![s@]) == records_of(*tree),
        expect is Some && preorder(seq![expect.unwrap()]) == records_of(*tree)
            ==> (r matches Some(s) && s@ == expect.unwrap()),
{
    let count = node_count(tree);
    let ghost recs = records_of(*tree);
    let mut kinds: Vec<String> = Vec::new();
    let mut arity: Vec<usize> = Vec::new();
    let mut i: usize = 0;
    while i < count
        invariant
            i <= count,
            count == recs.len(),
            recs == records_of(*tree),
            kinds@.len() == i,
            arity@.len() == i,
            forall|j: int| 0 <= j < i ==> #[trigger] kinds@[j]@ == recs[j].0,
            forall|j: int| 0 <= j < i ==> #[trigger] arity@[j] as nat == recs[j].1,
        decreases count - i,
    {
        kinds.push(kind_at(tree, i));
        arity.push(arity_at(tree, i));
        i = i + 1;
    }
    proof {
        assert(records(kinds@, arity@, 0, count as int) =~= recs);
    }
    match build(&kinds, &arity, 0, Ghost(expect)) {
        Some((root, next)) => if next == count { Some(root) } else { None },
        None => None,
    }
}

/// Reads a parse tree into a concrete syntax tree, node by node in preorder.
/// It succeeds whenever the nodes form the preorder of one tree.
pub fn read_tree(tree: &tree_sitter::Tree) -> (r: Option<SyntaxNode>)
    ensures
        r matches Some(s) ==> preorder(seq![s@]) == records_of(*tree),
        (exists|x: OrderedTree| preorder(seq![x]) == records_of(*tree)) ==> r is Some,
{
    let ghost expect = if exists|x: OrderedTree| preorder(seq![x]) == records_of(*tree) {
        Some(choose|x: OrderedTree| preorder(seq![x]) == records_of(*tree))
    } else {
        None
    };
    decode(tree, Ghost(expect))
}

/// Why a source text gave no tree.
#[derive(Clone, Copy, Debug, PartialEq, Eq, Structural)]
pub enum ParseError {
    /// The parser refused the language's grammar.
    Grammar,
    /// The parser returned no tree.
    NoTree,
    /// The parse tree could not be read back node by node.
    Unreadable,
    /// The root of the tree is noise, so nothing is left of it.
    NoiseRoot,
}

impl Laast {
    /// The tree of a source text whose concrete syntax tree is `syntax`.
    pub fn from_syntax(language: Language, code: &str, syntax: &SyntaxNode) -> (r: Result<Laast, ParseError>)
        ensures
            match normalize_tree(syntax@, standard_noise()) {
                Some(t) => r matches Ok(l) && l.tree() == t && l.lang() == language
                    && l.digest() == sha256_of(code@) && l.digest().len() == 32,
                None => r == Err::<Laast, ParseError>(ParseError::NoiseRoot),
            },
    {
        let noise = NoiseFilter::punctuation();
        match normalize(syntax, &noise) {
            Some(root) => Ok(Laast::new(language, root, digest_of(code))),
            None => Err(ParseError::NoiseRoot),
        }
    }

    /// Parses `code` with the grammar of `language` and normalizes the tree.
    /// A tree that the grammar recovered from errors counts as parsed. Once
    /// the parser has taken the grammar, this fails exactly when nothing is
    /// left of the tree after normalization.
    pub fn parse(language: Language, code: &str) -> (r: Result<Laast, ParseError>)
        ensures
            r matches Ok(l) ==> l.lang() == language && l.digest() == sha256_of(code@)
                && l.digest().len() == 32
                && normalize_tree(concrete_tree(language, code@), standard_noise()) == Some(l.tree()),
            (r == Err::<Laast, ParseError>(ParseError::Grammar)) == !grammar_accepted(language),
            r != Err::<Laast, ParseError>(ParseError::Grammar) ==> (r is Ok <==> normalize_tree(
                concrete_tree(language, code@), standard_noise()) is Some),
            r != Err::<Laast, ParseError>(ParseError::Grammar) ==> (r is Err ==> r == Err::<Laast, ParseError>(
                ParseError::NoiseRoot)),
    {
        let mut parser = new_parser();
        if !language.set_grammar(&mut parser) {
            return Err(ParseError::Grammar);
        }
        let tree = match parse_source(&mut parser, code) {
            Some(t) => t,
            None => {
                return Err(ParseError::NoTree);
            },
        };
        let syntax = match decode(&tree, Ghost(Some(concrete_tree(language, code@)))) {
            Some(s) => s,
            None => {
                return Err(ParseError::Unreadable);
            },
        };
        Laast::from_syntax(language, code, &syntax)
    }
}

} // verus!
