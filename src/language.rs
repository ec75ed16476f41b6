//! The closed set of supported languages and their file extensions.
use vstd::prelude::*;

verus! {

/// All of the supported languages.
#[derive(Clone, Copy, Debug, PartialEq, Eq, Structural)]
pub enum Language {
    CSharp,
    Go,
    Java,
    Javascript,
    Python,
    Ruby,
    Rust,
}

/// A file name whose extension names no supported language.
#[derive(Clone, Debug, PartialEq, Eq)]
pub struct UnrecognizedExtension {
    pub file_name: String,
}

/// Index of the last `'.'` in `name`, if any.
pub open spec fn last_dot(name: Seq<char>) -> Option<int> {
    if exists|p: int| 0 <= p < name.len() && name[p] == '.' {
        Some(choose|p: int| 0 <= p < name.len() && name[p] == '.'
            && forall|q: int| p < q < name.len() ==> name[q] != '.')
    } else {
        None
    }
}

/// The extension of a file name: what follows its last dot, provided that dot
/// is not the name's first character.
pub open spec fn extension_of(name: Seq<char>) -> Option<Seq<char>> {
    match last_dot(name) {
        Some(p) => if p > 0 { Some(name.subrange(p + 1, name.len() as int)) } else { None },
        None => None,
    }
}

/// The fixed, case-sensitive extension table.
pub open spec fn language_of_extension(ext: Seq<char>) -> Option<Language> {
    if ext == seq!['c', 's'] {
        Some(Language::CSharp)
    } else if ext == seq!['g', 'o'] {
        Some(Language::Go)
    } else if ext == seq!['j', 'a', 'v', 'a'] {
        Some(Language::Java)
    } else if ext == seq!['j', 's'] {
        Some(Language::Javascript)
    } else if ext == seq!['p', 'y'] {
        Some(Language::Python)
    } else if ext == seq!['r', 'b'] {
        Some(Language::Ruby)
    } else if ext == seq!['r', 's'] {
        Some(Language::Rust)
    } else {
        None
    }
}

/// The language a file name maps to, if any.
pub open spec fn language_of_file(name: Seq<char>) -> Option<Language> {
    match extension_of(name) {
        Some(ext) => language_of_extension(ext),
        None => None,
    }
}

/// Whether the characters of `s` from `start` on are exactly those of `pat`.
fn tail_equals(s: &str, len: usize, start: usize, pat: &str) -> (r: bool)
    requires
        len == s@.len(),
        start <= len,
    ensures
        r == (s@.subrange(start as int, len as int) == pat@),
{
    let plen = pat.unicode_len();
    if len - start != plen {
        proof {
            assert(s@.subrange(start as int, len as int).len() != pat@.len());
        }
        return false;
    }
    let mut i: usize = 0;
    while i < plen
        invariant
            len == s@.len(),
            start <= len,
            len - start == plen,
            plen == pat@.len(),
            i <= plen,
            forall|j: int| 0 <= j < i ==> s@[start + j] == pat@[j],
        decreases plen - i,
    {
        if s.get_char(start + i) != pat.get_char(i) {
            proof {
                assert(s@.subrange(start as int, len as int)[i as int] != pat@[i as int]);
            }
            return false;
        }
        i = i + 1;
    }
    assert(s@.subrange(start as int, len as int) =~= pat@);
    true
}

impl Language {
    /// Attempts to infer which language a given file is by inspecting its extension.
    pub fn infer_from_filename(file_name: &str) -> (r: Result<Language, UnrecognizedExtension>)
        ensures
            match r {
                Ok(lang) => language_of_file(file_name@) == Some(lang),
                Err(e) => language_of_file(file_name@).is_none() && e.file_name@ == file_name@,
            },
    {
        let len = file_name.unicode_len();
        let mut p: usize = len;
        while p > 0
            invariant
                p <= len,
                len == file_name@.len(),
                forall|q: int| p <= q < len ==> file_name@[q] != '.',
            ensures
                p <= len,
                forall|q: int| p <= q < len ==> file_name@[q] != '.',
                p == 0 || file_name@[p - 1] == '.',
            decreases p,
        {
            if file_name.get_char(p - 1) == '.' {
                break;
            }
            p = p - 1;
        }
        // Here either p == 0 (no dot) or the last dot stands at p - 1.
        let ghost name = file_name@;
        if p <= 1 {
            proof {
                if p == 0 {
                    assert(last_dot(name).is_none());
                } else {
                    assert(name[0] == '.');
                    let d = last_dot(name).unwrap();
                    assert(d == 0);
                }
            }
            return Err(UnrecognizedExtension { file_name: file_name.to_string() });
        }
        proof {
            assert(name[p - 1] == '.');
            let d = last_dot(name).unwrap();
            assert(d == p - 1);
            assert(extension_of(name) == Some(name.subrange(p as int, len as int)));
            reveal_strlit("cs");
            assert("cs"@ =~= seq!['c', 's']);
            reveal_strlit("go");
            assert("go"@ =~= seq!['g', 'o']);
            reveal_strlit("java");
            assert("java"@ =~= seq!['j', 'a', 'v', 'a']);
            reveal_strlit("js");
            assert("js"@ =~= seq!['j', 's']);
            reveal_strlit("py");
            assert("py"@ =~= seq!['p', 'y']);
            reveal_strlit("rb");
            assert("rb"@ =~= seq!['r', 'b']);
            reveal_strlit("rs");
            assert("rs"@ =~= seq!['r', 's']);
        }
        if tail_equals(file_name, len, p, "cs") {
            Ok(Language::CSharp)
        } else if tail_equals(file_name, len, p, "go") {
            Ok(Language::Go)
        } else if tail_equals(file_name, len, p, "java") {
            Ok(Language::Java)
        } else if tail_equals(file_name, len, p, "js") {
            Ok(Language::Javascript)
        } else if tail_equals(file_name, len, p, "py") {
            Ok(Language::Python)
        } else if tail_equals(file_name, len, p, "rb") {
            Ok(Language::Ruby)
        } else if tail_equals(file_name, len, p, "rs") {
            Ok(Language::Rust)
        } else {
            Err(UnrecognizedExtension { file_name: file_name.to_string() })
        }
    }
}

} // verus!
