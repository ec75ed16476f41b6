use laast::ingest::{classify_entry, EntryFailure};
use laast::Language;

#[test]
fn every_extension_maps_to_its_language() {
    let table = [
        ("main.cs", Language::CSharp),
        ("main.go", Language::Go),
        ("Main.java", Language::Java),
        ("index.js", Language::Javascript),
        ("hello.py", Language::Python),
        ("hello.rb", Language::Ruby),
        ("lib.rs", Language::Rust),
    ];
    for (name, lang) in table {
        assert_eq!(Language::infer_from_filename(name), Ok(lang));
    }
}

#[test]
fn last_dot_decides() {
    assert_eq!(Language::infer_from_filename("archive.tar.rs"), Ok(Language::Rust));
    assert_eq!(Language::infer_from_filename("..rs"), Ok(Language::Rust));
}

#[test]
fn unknown_or_missing_extension_is_refused() {
    for name in ["notes.txt", "Makefile", ".rs", "main.RS", "main.", "main.rs.bak", ""] {
        let r = Language::infer_from_filename(name);
        match r {
            Err(e) => assert_eq!(e.file_name, name),
            Ok(l) => panic!("{name} gave {l:?}"),
        }
    }
}

#[test]
fn entries_are_classified() {
    assert_eq!(classify_entry(true, "a.py"), Ok(Language::Python));
    assert_eq!(
        classify_entry(false, "a.py"),
        Err(EntryFailure::NotAFile { name: "a.py".to_string() })
    );
    assert_eq!(
        classify_entry(true, "a.md"),
        Err(EntryFailure::UnrecognizedExtension { name: "a.md".to_string() })
    );
}
