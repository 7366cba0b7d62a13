use td::errors::TdError;
use td::tasks::TaskList;

fn sample(texts: &[&str]) -> TaskList {
    let mut list = TaskList::new();
    for t in texts {
        list.add_task(t.to_string());
    }
    list
}

fn snapshot(list: &TaskList) -> Vec<(usize, bool, String)> {
    list.list_tasks()
}

#[test]
fn one_task_encodes_to_the_exact_document() {
    let list = sample(&["buy milk"]);
    assert_eq!(
        list.to_document(),
        "[[tasks]]\ndone = false\ntext = \"buy milk\"\n"
    );
}

#[test]
fn done_flag_and_escapes_encode_exactly() {
    let mut list = sample(&["say \"hi\"\nback\\slash"]);
    list.mark_done(1).unwrap();
    assert_eq!(
        list.to_document(),
        "[[tasks]]\ndone = true\ntext = \"say \\\"hi\\\"\\nback\\\\slash\"\n"
    );
}

#[test]
fn empty_list_encodes_to_an_empty_document() {
    let list = TaskList::new();
    assert_eq!(list.to_document(), "");
    let back = TaskList::from_document("").unwrap();
    assert_eq!(back.count_tasks(), 0);
}

#[test]
fn documents_round_trip() {
    let mut list = sample(&[
        "plain",
        "with \"quotes\"",
        "line\nbreak",
        "back\\slash",
        "unicode: grüße 你好",
        "",
    ]);
    list.mark_done(2).unwrap();
    list.mark_done(5).unwrap();
    let doc = list.to_document();
    let back = TaskList::from_document(&doc).unwrap();
    assert_eq!(snapshot(&back), snapshot(&list));
}

#[test]
fn load_from_a_missing_file_is_an_empty_list() {
    let loaded = TaskList::load_from_contents(None).unwrap();
    assert_eq!(loaded.count_tasks(), 0);
}

#[test]
fn load_parses_existing_content() {
    let doc = "[[tasks]]\ndone = true\ntext = \"a\"\n[[tasks]]\ndone = false\ntext = \"b\"\n";
    let loaded = TaskList::load_from_contents(Some(doc)).unwrap();
    assert_eq!(
        snapshot(&loaded),
        vec![(1, true, "a".to_string()), (2, false, "b".to_string())]
    );
}

#[test]
fn malformed_documents_are_parse_errors() {
    let bad = [
        "[[tasks]]",                                      // header without its newline
        "[[task]]\ndone = false\ntext = \"a\"\n",         // wrong header
        "[[tasks]]\ndone = maybe\ntext = \"a\"\n",        // bad flag
        "[[tasks]]\ndone = false\ntext = a\n",            // unquoted text
        "[[tasks]]\ndone = false\ntext = \"a\\q\"\n",     // unknown escape
        "[[tasks]]\ndone = false\ntext = \"a\"\ntrail\n", // trailing junk
    ];
    for doc in bad {
        assert_eq!(
            TaskList::from_document(doc).map(|l| l.count_tasks()),
            Err(TdError::ParseError),
            "document {:?} should not parse",
            doc
        );
    }
}
