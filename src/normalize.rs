//! Normalization of a concrete syntax tree into a language-agnostic one.
use vstd::prelude::*;
use crate::flat::lemma_forest_of;
use crate::tree::{Node, OrderedTree, forest_of, rest};

verus! {

broadcast use vstd::seq::group_seq_axioms;

/// A node of a concrete syntax tree, as a grammar produced it.
pub struct SyntaxNode {
    /// Kind string, possibly padded with whitespace.
    pub kind: String,
    /// Children in source order.
    pub children: Vec<SyntaxNode>,
}

/// Model of a sequence of concrete nodes.
pub open spec fn syntax_forest(s: Seq<SyntaxNode>) -> Seq<OrderedTree>
    decreases s,
{
    if s.len() == 0 {
        Seq::empty()
    } else {
        seq![s[0]@] + syntax_forest(s.subrange(1, s.len() as int))
    }
}

impl View for SyntaxNode {
    type V = OrderedTree;

    open spec fn view(&self) -> OrderedTree
        decreases self,
    {
        OrderedTree { label: self.kind@, children: syntax_forest(self.children@) }
    }
}

/// Whether `c` has the Unicode `White_Space` property.
pub open spec fn is_white(c: char) -> bool {
    let u = c as u32;
    (0x9 <= u <= 0xd) || u == 0x20 || u == 0x85 || u == 0xa0 || u == 0x1680
        || (0x2000 <= u <= 0x200a) || u == 0x2028 || u == 0x2029 || u == 0x202f
        || u == 0x205f || u == 0x3000
}

/// `s` without its leading whitespace.
pub open spec fn trim_start(s: Seq<char>) -> Seq<char>
    decreases s.len(),
{
    if s.len() > 0 && is_white(s[0]) { trim_start(s.drop_first()) } else { s }
}

/// `s` without its trailing whitespace.
pub open spec fn trim_end(s: Seq<char>) -> Seq<char>
    decreases s.len(),
{
    if s.len() > 0 && is_white(s.last()) { trim_end(s.drop_last()) } else { s }
}

/// `s` without its leading and trailing whitespace.
pub open spec fn trimmed(s: Seq<char>) -> Seq<char> {
    trim_end(trim_start(s))
}

proof fn lemma_trim_start(s: Seq<char>)
    ensures
        trim_start(s).len() > 0 ==> !is_white(trim_start(s)[0]),
    decreases s.len(),
{
    if s.len() > 0 && is_white(s[0]) {
        lemma_trim_start(s.drop_first());
    }
}

proof fn lemma_trim_end(s: Seq<char>)
    ensures
        trim_end(s).len() > 0 ==> !is_white(trim_end(s).last()),
        trim_end(s).len() > 0 && s.len() > 0 && !is_white(s[0]) ==> trim_end(s)[0] == s[0],
    decreases s.len(),
{
    if s.len() > 0 && is_white(s.last()) {
        lemma_trim_end(s.drop_last());
    }
}

/// A trimmed kind neither starts nor ends with whitespace.
pub proof fn lemma_trimmed_bare(s: Seq<char>)
    ensures
        trimmed(s).len() > 0 ==> !is_white(trimmed(s)[0]) && !is_white(trimmed(s).last()),
{
    lemma_trim_start(s);
    lemma_trim_end(trim_start(s));
}

/// Relies on `str::trim`: the kind without its leading and trailing
/// characters of the `White_Space` property (`char::is_whitespace`).
#[verifier::external_body]
fn trim_kind(s: &str) -> (r: String)
    ensures
        r@ == trimmed(s@),
{
    s.trim().to_string()
}

/// Kinds that carry no structure across languages and are dropped, with
/// their subtrees.
pub struct NoiseFilter {
    kinds: Vec<String>,
}

/// The punctuation kinds `( ) . ; ! [ ] { } " \ :`.
pub open spec fn standard_noise() -> Seq<Seq<char>> {
    seq![
        seq!['('], seq![')'], seq!['.'], seq![';'], seq!['!'], seq!['['],
        seq![']'], seq!['{'], seq!['}'], seq!['"'], seq!['\\'], seq![':'],
    ]
}

impl NoiseFilter {
    /// Model: the kinds dropped.
    pub closed spec fn kinds(&self) -> Seq<Seq<char>> {
        self.kinds@.map_values(|k: String| k@)
    }

    /// The standard filter of punctuation kinds.
    pub fn punctuation() -> (r: NoiseFilter)
        ensures
            r.kinds() == standard_noise(),
    {
        let mut kinds: Vec<String> = Vec::new();
        kinds.push(String::from_str("("));
        kinds.push(String::from_str(")"));
        kinds.push(String::from_str("."));
        kinds.push(String::from_str(";"));
        kinds.push(String::from_str("!"));
        kinds.push(String::from_str("["));
        kinds.push(String::from_str("]"));
        kinds.push(String::from_str("{"));
        kinds.push(String::from_str("}"));
        kinds.push(String::from_str("\""));
        kinds.push(String::from_str("\\"));
        kinds.push(String::from_str(":"));
        let r = NoiseFilter { kinds };
        proof {
            reveal_strlit("(");
            assert("("@ =~= seq!['(']);
            reveal_strlit(")");
            assert(")"@ =~= seq![')']);
            reveal_strlit(".");
            assert("."@ =~= seq!['.']);
            reveal_strlit(";");
            assert(";"@ =~= seq![';']);
            reveal_strlit("!");
            assert("!"@ =~= seq!['!']);
            reveal_strlit("[");
            assert("["@ =~= seq!['[']);
            reveal_strlit("]");
            assert("]"@ =~= seq![']']);
            reveal_strlit("{");
            assert("{"@ =~= seq!['{']);
            reveal_strlit("}");
            assert("}"@ =~= seq!['}']);
            reveal_strlit("\"");
            assert("\""@ =~= seq!['"']);
            reveal_strlit("\\");
            assert("\\"@ =~= seq!['\\']);
            reveal_strlit(":");
            assert(":"@ =~= seq![':']);
            assert(r.kinds() =~= standard_noise());
        }
        r
    }

    /// Whether `kind` is dropped.
    pub fn contains(&self, kind: &String) -> (r: bool)
        ensures
            r == self.kinds().contains(kind@),
    {
        let mut i: usize = 0;
        while i < self.kinds.len()
            invariant
                i <= self.kinds@.len(),
                forall|j: int| 0 <= j < i ==> self.kinds@[j]@ != kind@,
            decreases self.kinds@.len() - i,
        {
            if self.kinds[i] == *kind {
                proof {
                    assert(self.kinds()[i as int] == kind@);
                }
                return true;
            }
            i = i + 1;
        }
        proof {
            if self.kinds().contains(kind@) {
                let j = choose|j: int| 0 <= j < self.kinds().len() && self.kinds()[j] == kind@;
                assert(self.kinds@[j]@ == kind@);
            }
        }
        false
    }
}

/// The normalized form of a concrete tree: `None` when its trimmed kind is
/// blank or noise, else a node of that kind over its normalized children.
pub open spec fn normalize_tree(t: OrderedTree, noise: Seq<Seq<char>>) -> Option<OrderedTree>
    decreases t,
{
    let k = trimmed(t.label);
    if k.len() == 0 || noise.contains(k) {
        None
    } else {
        Some(OrderedTree { label: k, children: normalize_forest(t.children, noise) })
    }
}

/// The normalized trees of a concrete forest, in source order.
pub open spec fn normalize_forest(f: Seq<OrderedTree>, noise: Seq<Seq<char>>) -> Seq<OrderedTree>
    decreases f,
{
    if f.len() == 0 {
        Seq::empty()
    } else {
        let head = match normalize_tree(f[0], noise) {
            Some(x) => seq![x],
            None => Seq::empty(),
        };
        head + normalize_forest(rest(f), noise)
    }
}

/// Normalization of a forest is that of its parts, side by side: trees are
/// dropped but never reordered.
pub proof fn law_normalize_keeps_order(a: Seq<OrderedTree>, b: Seq<OrderedTree>, noise: Seq<Seq<char>>)
    ensures
        normalize_forest(a + b, noise) == normalize_forest(a, noise) + normalize_forest(b, noise),
    decreases a.len(),
{
    if a.len() == 0 {
        assert(a + b =~= b);
        assert(normalize_forest(a, noise) + normalize_forest(b, noise) =~= normalize_forest(b, noise));
    } else {
        assert((a + b)[0] == a[0]);
        assert(rest(a + b) =~= rest(a) + b);
        law_normalize_keeps_order(rest(a), b, noise);
        let head = match normalize_tree(a[0], noise) {
            Some(x) => seq![x],
            None => Seq::<OrderedTree>::empty(),
        };
        assert(head + (normalize_forest(rest(a), noise) + normalize_forest(b, noise))
            =~= (head + normalize_forest(rest(a), noise)) + normalize_forest(b, noise));
    }
}

/// Whether the trimmed kind of every node of `t` is noise.
pub open spec fn all_noise(t: OrderedTree, noise: Seq<Seq<char>>) -> bool
    decreases t,
{
    noise.contains(trimmed(t.label))
        && forall|i: int| 0 <= i < t.children.len() ==> all_noise(#[trigger] t.children[i], noise)
}

/// A branch made only of noise leaves nothing behind.
pub proof fn law_noise_branch_dropped(t: OrderedTree, noise: Seq<Seq<char>>)
    requires
        all_noise(t, noise),
    ensures
        normalize_tree(t, noise) is None,
        normalize_forest(seq![t], noise) == Seq::<OrderedTree>::empty(),
{
    let f = seq![t];
    assert(f[0] == t);
    assert(rest(f) =~= Seq::<OrderedTree>::empty());
    assert(normalize_forest(rest(f), noise) == Seq::<OrderedTree>::empty());
    assert(normalize_forest(f, noise) =~= Seq::<OrderedTree>::empty());
}

} // verus!

verus! {

pub proof fn lemma_syntax_forest(s: Seq<SyntaxNode>)
    ensures
        syntax_forest(s).len() == s.len(),
        forall|j: int| 0 <= j < s.len() ==> #[trigger] syntax_forest(s)[j] == s[j]@,
    decreases s.len(),
{
    if s.len() > 0 {
        let tail = s.subrange(1, s.len() as int);
        lemma_syntax_forest(tail);
        assert(syntax_forest(s) == seq![s[0]@] + syntax_forest(tail));
        assert forall|j: int| 0 <= j < s.len() implies #[trigger] syntax_forest(s)[j] == s[j]@ by {
            if j > 0 {
                assert(syntax_forest(s)[j] == syntax_forest(tail)[j - 1]);
                assert(tail[j - 1] == s[j]);
            }
        }
    }
}

proof fn lemma_forest_of_push(s: Seq<Node>, x: Node)
    ensures
        forest_of(s.push(x)) == forest_of(s) + seq![x@],
{
    lemma_forest_of(s);
    lemma_forest_of(s.push(x));
    assert(forest_of(s.push(x)) =~= forest_of(s) + seq![x@]);
}

proof fn lemma_normalize_single(t: OrderedTree, noise: Seq<Seq<char>>)
    ensures
        normalize_forest(seq![t], noise) == match normalize_tree(t, noise) {
            Some(x) => seq![x],
            None => Seq::<OrderedTree>::empty(),
        },
{
    let f = seq![t];
    assert(f[0] == t);
    assert(rest(f) =~= Seq::<OrderedTree>::empty());
    assert(normalize_forest(rest(f), noise) == Seq::<OrderedTree>::empty());
    let head = match normalize_tree(t, noise) {
        Some(x) => seq![x],
        None => Seq::<OrderedTree>::empty(),
    };
    assert(head + Seq::<OrderedTree>::empty() =~= head);
}

/// Normalizes a concrete tree: drops every node whose trimmed kind is blank
/// or noise, with its subtree, and keeps the others, trimmed, in their order.
pub fn normalize(n: &SyntaxNode, noise: &NoiseFilter) -> (r: Option<Node>)
    ensures
        match r {
            Some(x) => normalize_tree(n@, noise.kinds()) == Some(x@),
            None => normalize_tree(n@, noise.kinds()) is None,
        },
    decreases n,
{
    let k = trim_kind(n.kind.as_str());
    if k.as_str().unicode_len() == 0 || noise.contains(&k) {
        return None;
    }
    let ghost cf = syntax_forest(n.children@);
    let ghost ns = noise.kinds();
    proof {
        lemma_syntax_forest(n.children@);
        lemma_forest_of(Seq::<Node>::empty());
        assert(cf.take(0) =~= Seq::<OrderedTree>::empty());
        assert(forest_of(Seq::<Node>::empty()) =~= normalize_forest(cf.take(0), ns));
    }
    let mut kids: Vec<Node> = Vec::new();
    let mut j: usize = 0;
    while j < n.children.len()
        invariant
            j <= n.children@.len(),
            cf == syntax_forest(n.children@),
            cf.len() == n.children@.len(),
            forall|q: int| 0 <= q < n.children@.len() ==> #[trigger] cf[q] == n.children@[q]@,
            ns == noise.kinds(),
            forest_of(kids@) == normalize_forest(cf.take(j as int), ns),
        decreases n.children@.len() - j,
    {
        let c = normalize(&n.children[j], noise);
        proof {
            assert(cf.take(j + 1) =~= cf.take(j as int) + seq![cf[j as int]]);
            law_normalize_keeps_order(cf.take(j as int), seq![cf[j as int]], ns);
            lemma_normalize_single(cf[j as int], ns);
        }
        match c {
            Some(x) => {
                proof {
                    lemma_forest_of_push(kids@, x);
                }
                kids.push(x);
            },
            None => {
                proof {
                    assert(normalize_forest(cf.take(j as int), ns) + Seq::<OrderedTree>::empty()
                        =~= normalize_forest(cf.take(j as int), ns));
                }
            },
        }
        j = j + 1;
    }
    proof {
        assert(cf.take(j as int) =~= cf);
    }
    Some(Node { ty: k, children: kids })
}

} // verus!

verus! {

pub proof fn lemma_syntax_forest_len(s: Seq<SyntaxNode>)
    ensures
        syntax_forest(s).len() == s.len(),
{
    lemma_syntax_forest(s);
}

} // verus!

verus! {

/// A kind that may stand in a normalized tree: not blank, no surrounding
/// whitespace, not noise.
pub open spec fn clean_kind(k: Seq<char>, noise: Seq<Seq<char>>) -> bool {
    k.len() > 0 && !is_white(k[0]) && !is_white(k.last()) && !noise.contains(k)
}

/// Whether every kind of `t` is clean.
pub open spec fn clean_tree(t: OrderedTree, noise: Seq<Seq<char>>) -> bool
    decreases t,
{
    clean_kind(t.label, noise)
        && forall|i: int| 0 <= i < t.children.len() ==> clean_tree(#[trigger] t.children[i], noise)
}

/// Every kind of a normalized tree is clean.
pub proof fn law_normalized_kinds_clean(t: OrderedTree, noise: Seq<Seq<char>>)
    ensures
        normalize_tree(t, noise) matches Some(n) ==> clean_tree(n, noise),
    decreases t,
{
    lemma_trimmed_bare(t.label);
    lemma_normalized_forest_clean(t.children, noise);
    if normalize_tree(t, noise) is Some {
        let n = normalize_tree(t, noise).unwrap();
        assert(n.label == trimmed(t.label));
        assert(n.children == normalize_forest(t.children, noise));
        assert(clean_kind(n.label, noise));
        assert forall|i: int| 0 <= i < n.children.len() implies clean_tree(#[trigger] n.children[i], noise) by {}
        assert(clean_tree(n, noise));
    }
}

proof fn lemma_normalized_forest_clean(f: Seq<OrderedTree>, noise: Seq<Seq<char>>)
    ensures
        forall|i: int| 0 <= i < normalize_forest(f, noise).len() ==> clean_tree(#[trigger] normalize_forest(f, noise)[i], noise),
    decreases f,
{
    if f.len() > 0 {
        law_normalized_kinds_clean(f[0], noise);
        lemma_normalized_forest_clean(rest(f), noise);
        let head = match normalize_tree(f[0], noise) {
            Some(x) => seq![x],
            None => Seq::<OrderedTree>::empty(),
        };
        let nf = normalize_forest(f, noise);
        assert(nf == head + normalize_forest(rest(f), noise));
        assert forall|i: int| 0 <= i < nf.len() implies clean_tree(#[trigger] nf[i], noise) by {
            if i >= head.len() {
                assert(nf[i] == normalize_forest(rest(f), noise)[i - head.len()]);
            }
        }
    }
}

} // verus!
