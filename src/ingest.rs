//! Decisions of corpus ingestion: which directory entries are processed, and
//! how per-entry outcomes are gathered into a batch.
use vstd::prelude::*;
use crate::Laast;
use crate::grammar::ParseError;
use crate::language::{Language, language_of_file};

verus! {

/// Why one directory entry gave no tree. Such failures are recorded and the
/// rest of the batch goes on.
#[derive(Clone, Debug, PartialEq, Eq)]
pub enum EntryFailure {
    /// The entry is not a regular file.
    NotAFile { name: String },
    /// The file name maps to no supported language.
    UnrecognizedExtension { name: String },
    /// The file could not be read.
    Unreadable { name: String },
    /// The file was read but gave no tree.
    Parse { name: String, error: ParseError },
}

/// The trees that were produced, and a warning for each entry that failed.
pub struct Batch {
    pub laasts: Vec<Laast>,
    pub warnings: Vec<EntryFailure>,
}

/// The language to parse an entry with, or why it is skipped.
pub fn classify_entry(is_file: bool, file_name: &str) -> (r: Result<Language, EntryFailure>)
    ensures
        !is_file ==> (r matches Err(EntryFailure::NotAFile { name }) && name@ == file_name@),
        is_file && language_of_file(file_name@).is_none() ==>
            (r matches Err(EntryFailure::UnrecognizedExtension { name }) && name@ == file_name@),
        is_file && language_of_file(file_name@).is_some() ==> r == Ok::<Language, EntryFailure>(
            language_of_file(file_name@).unwrap()),
{
    if !is_file {
        return Err(EntryFailure::NotAFile { name: file_name.to_string() });
    }
    match Language::infer_from_filename(file_name) {
        Ok(lang) => Ok(lang),
        Err(e) => Err(EntryFailure::UnrecognizedExtension { name: e.file_name }),
    }
}

/// The successes among `outcomes`, in order.
pub open spec fn successes(outcomes: Seq<Result<Laast, EntryFailure>>) -> Seq<Laast>
    decreases outcomes.len(),
{
    if outcomes.len() == 0 {
        Seq::empty()
    } else {
        let prev = successes(outcomes.drop_last());
        match outcomes.last() {
            Ok(l) => prev.push(l),
            Err(_) => prev,
        }
    }
}

/// The failures among `outcomes`, in order.
pub open spec fn failures(outcomes: Seq<Result<Laast, EntryFailure>>) -> Seq<EntryFailure>
    decreases outcomes.len(),
{
    if outcomes.len() == 0 {
        Seq::empty()
    } else {
        let prev = failures(outcomes.drop_last());
        match outcomes.last() {
            Ok(_) => prev,
            Err(e) => prev.push(e),
        }
    }
}

/// Gathers per-entry outcomes into a batch: successes become its trees,
/// failures its warnings, and no failure stops the others.
pub fn collect(outcomes: Vec<Result<Laast, EntryFailure>>) -> (b: Batch)
    ensures
        b.laasts@ == successes(outcomes@),
        b.warnings@ == failures(outcomes@),
        b.laasts@.len() + b.warnings@.len() == outcomes@.len(),
{
    let ghost all = outcomes@;
    let mut laasts: Vec<Laast> = Vec::new();
    let mut warnings: Vec<EntryFailure> = Vec::new();
    let mut rest = outcomes;
    let n = rest.len();
    let mut i: usize = 0;
    proof {
        assert(all.take(0) =~= Seq::<Result<Laast, EntryFailure>>::empty());
        assert(rest@ =~= all.subrange(0, all.len() as int));
    }
    while rest.len() > 0
        invariant
            n == all.len(),
            i <= all.len(),
            rest@ == all.subrange(i as int, all.len() as int),
            laasts@ == successes(all.take(i as int)),
            warnings@ == failures(all.take(i as int)),
            laasts@.len() + warnings@.len() == i,
        decreases rest@.len(),
    {
        let item = rest.remove(0);
        proof {
            assert(item == all[i as int]);
            assert(all.take(i + 1).drop_last() =~= all.take(i as int));
            assert(all.take(i + 1).last() == all[i as int]);
            assert(rest@ =~= all.subrange(i + 1, all.len() as int));
        }
        match item {
            Ok(l) => laasts.push(l),
            Err(e) => warnings.push(e),
        }
        i = i + 1;
    }
    proof {
        assert(all.take(i as int) =~= all);
    }
    Batch { laasts, warnings }
}

} // verus!
