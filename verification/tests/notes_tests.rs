use review_todo::notes::{notes_from_text, notes_to_text, Notes};

#[test]
fn test_add_notes() {
    let text = {
        let mut notes = Notes::default();
        notes.add_note("foo".to_string(), "/tmp/test.cpp".to_string());
        notes.add_note("bar".to_string(), "/tmp/test.h".to_string());
        let saved = notes.save();
        assert!(saved.is_some());
        saved.unwrap()
    };
    {
        let reloaded = notes_from_text(&text);
        assert!(reloaded.is_some());
        let notes = reloaded.unwrap();
        let model = notes.notes_model();

        assert_eq!(model.len(), 2);

        let note = &model[0];
        assert_eq!(note.text, "foo");
        assert_eq!(note.context, "/tmp/test.cpp");

        let note = &model[1];
        assert_eq!(note.text, "bar");
        assert_eq!(note.context, "/tmp/test.h");
    }
}

// Writing a note set and reading it back keeps every (text, context,
// is_fixed) triple, whatever happens to identities and order.
#[test]
fn notes_round_trip_keeps_triples() {
    let mut notes = Notes::default();
    notes.add_note("foo".to_string(), "".to_string());
    notes.add_note("bar".to_string(), "/a/b.c".to_string());
    let bar_id = notes.notes_model()[1].id;
    notes.toggle_is_fixed(bar_id);

    let text = notes_to_text(&notes.notes_model());
    let reloaded = notes_from_text(&text).unwrap();
    let rows = reloaded.notes_model();
    assert_eq!(rows.len(), 2);

    let mut triples: Vec<(String, String, bool)> = rows
        .iter()
        .map(|r| (r.text.clone(), r.context.clone(), r.is_fixed))
        .collect();
    triples.sort();
    assert_eq!(
        triples,
        vec![
            ("bar".to_string(), "/a/b.c".to_string(), true),
            ("foo".to_string(), "".to_string(), false),
        ]
    );
}

#[test]
fn notes_text_format_is_the_checklist() {
    let mut notes = Notes::default();
    notes.add_note("general".to_string(), "".to_string());
    notes.add_note("anchored".to_string(), "src/x.rs".to_string());
    let text = notes_to_text(&notes.notes_model());
    assert_eq!(text, "* [] general\n\n# Notes of 'src/x.rs'\n* [] anchored\n\n");
}

#[test]
fn notes_parse_reads_fixed_marks_and_headings() {
    let text = "* [] foo\n* [x] done\n\n# Notes of '/tmp/foo.c'\n* [x] foo bar\n";
    let notes = notes_from_text(text).unwrap();
    let rows = notes.notes_model();
    assert_eq!(rows.len(), 3);
    assert_eq!(rows[0].text, "foo");
    assert_eq!(rows[0].context, "");
    assert!(!rows[0].is_fixed);
    assert_eq!(rows[1].text, "done");
    assert!(rows[1].is_fixed);
    assert_eq!(rows[2].text, "foo bar");
    assert_eq!(rows[2].context, "/tmp/foo.c");
    assert!(rows[2].is_fixed);
}

#[test]
fn notes_parse_rejects_malformed_heading() {
    assert!(notes_from_text("# Notes of broken\n* [] foo\n").is_none());
}

#[test]
fn notes_parse_rejects_malformed_item() {
    assert!(notes_from_text("* no bracket here\n").is_none());
}

#[test]
fn note_edits_apply_in_place() {
    let mut notes = Notes::default();
    notes.add_note("first".to_string(), "".to_string());
    let id = notes.notes_model()[0].id;
    notes.set_note_text(id, "rewritten".to_string());
    let unchanged = notes.set_note_text(id, "rewritten".to_string());
    assert!(unchanged.is_none());
    notes.change_context(id, "lib.rs".to_string());
    let rows = notes.notes_model();
    assert_eq!(rows[0].text, "rewritten");
    assert_eq!(rows[0].context, "lib.rs");
    notes.delete_note(id);
    assert_eq!(notes.notes_model().len(), 0);
}
