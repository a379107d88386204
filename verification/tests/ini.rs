use rpx_patch::ini::{has_reversed_brackets, read_ini, IniDocument, IniEntry, IniSection};

fn entry(key: &str, value: Option<&str>) -> IniEntry {
    IniEntry { key: key.to_string(), value: value.map(|v| v.to_string()), reading: None }
}

fn sorted(mut doc: IniDocument) -> IniDocument {
    for section in doc.sections.iter_mut() {
        section.entries.sort_by(|a, b| a.key.cmp(&b.key));
    }
    doc.sections.sort_by(|a, b| a.name.cmp(&b.name));
    doc
}

#[test]
fn reader_finds_sections_keys_and_values() {
    let doc = read_ini("top = 1\n[First]\nKey = Value ; note\nalone\nempty =\n[second]\nk=v\n")
        .unwrap();
    assert_eq!(
        sorted(doc),
        IniDocument {
            sections: vec![
                IniSection { name: "default".to_string(), entries: vec![entry("top", Some("1"))] },
                IniSection {
                    name: "first".to_string(),
                    entries: vec![
                        entry("alone", None),
                        entry("empty", Some("")),
                        entry("key", Some("Value")),
                    ],
                },
                IniSection { name: "second".to_string(), entries: vec![entry("k", Some("v"))] },
            ],
        }
    );
}

#[test]
fn later_value_of_a_key_replaces_the_earlier() {
    let doc = read_ini("[s]\na = 1\n[t]\nb = 2\n[s]\na = 3\n").unwrap();
    let doc = sorted(doc);
    assert_eq!(doc.sections.len(), 2);
    assert_eq!(doc.sections[0].entries, vec![entry("a", Some("3"))]);
}

#[test]
fn reader_reports_its_errors() {
    assert_eq!(read_ini("[open\n"), None);
    assert_eq!(read_ini("= value\n"), None);
}

#[test]
fn line_with_reversed_brackets_is_not_read() {
    assert!(has_reversed_brackets("]x[\n"));
    assert!(has_reversed_brackets("a = 1\n  ] [  \nb = 2"));
    assert!(has_reversed_brackets("]["));
    assert_eq!(read_ini("]x[\n"), None);
    assert_eq!(read_ini("a = 1\n] [\n"), None);
}

#[test]
fn other_lines_with_brackets_are_read() {
    assert!(!has_reversed_brackets(""));
    assert!(!has_reversed_brackets("[a]\n[b]\n"));
    assert!(!has_reversed_brackets("]\n[\n"));
    assert!(!has_reversed_brackets("] ; [\n"));
    assert!(!has_reversed_brackets("# ] [\n"));
    assert!(!has_reversed_brackets("] [ ]\n"));
    assert!(!has_reversed_brackets("[]\n"));
    assert!(read_ini("] [ ]\n").is_some());
    assert!(read_ini("] ; [\n").is_some());
    assert!(read_ini("[]\nk = v\n").is_some());
}

#[test]
fn sections_and_entries_are_found_by_name() {
    let doc = IniDocument {
        sections: vec![
            IniSection { name: "a".to_string(), entries: vec![] },
            IniSection {
                name: "b".to_string(),
                entries: vec![entry("x", None), entry("y", Some("1")), entry("x", Some("2"))],
            },
        ],
    };
    assert_eq!(doc.find("b"), Some(1));
    assert_eq!(doc.find("c"), None);
    assert_eq!(doc.sections[1].find("x"), Some(0));
    assert_eq!(doc.sections[1].find("y"), Some(1));
    assert_eq!(doc.sections[1].find("z"), None);
}
