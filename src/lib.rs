//! Language-agnostic syntax trees: normalization of concrete parse trees and
//! structural similarity through ordered tree edit distance.
use vstd::prelude::*;

pub mod flat;
pub mod grammar;
pub mod ingest;
pub mod language;
pub mod normalize;
pub mod similarity;
pub mod ted;
pub mod tree;
pub mod ts_types;

pub use language::Language;
pub use tree::Node;

verus! {

/// Language-agnostic syntax tree of one source file.
pub struct Laast {
    language: Language,
    root: Node,
    hash: Vec<u8>,
}

impl Laast {
    /// Model of the tree.
    pub closed spec fn tree(&self) -> tree::OrderedTree {
        self.root@
    }

    /// Model of the content digest.
    pub closed spec fn digest(&self) -> Seq<u8> {
        self.hash@
    }

    /// Model of the language tag.
    pub closed spec fn lang(&self) -> Language {
        self.language
    }

    /// Assembles a tree from its parts.
    pub fn new(language: Language, root: Node, hash: Vec<u8>) -> (r: Laast)
        ensures
            r.lang() == language,
            r.tree() == root@,
            r.digest() == hash@,
    {
        Laast { language, root, hash }
    }

    /// The root of the tree.
    pub fn root(&self) -> (r: &Node)
        ensures
            r@ == self.tree(),
    {
        &self.root
    }

    /// The language the tree was parsed from.
    pub fn language(&self) -> (r: Language)
        ensures
            r == self.lang(),
    {
        self.language
    }

    /// Digest of the source bytes.
    pub fn hash(&self) -> (r: &Vec<u8>)
        ensures
            r@ == self.digest(),
    {
        &self.hash
    }
}

} // verus!
