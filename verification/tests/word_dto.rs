use libpealimrs::word_dto::{FormKind, MatchedForm, SearchResult, WordData, WordForm};

fn form() -> WordForm {
    WordForm::new(
        String::from("past"),
        String::from("p_3rd"),
        String::from("singular"),
        String::from("m"),
        String::from("יָשַׁב"),
        String::from("ישב"),
        String::from("yashav"),
        String::from("he sat"),
        Some(String::from("יָשַׁב")),
    )
}

fn entry() -> WordData {
    WordData::new(
        String::from("9-lashevet"),
        String::from("לָשֶׁבֶת"),
        String::from("to sit"),
        String::from("לשבת"),
        String::from("lashevet"),
        String::from("ישב"),
        vec![form()],
        String::from("PA'AL"),
        Some(vec![form(), form()]),
        Some(String::from("NIF'AL")),
    )
}

#[test]
fn a_form_holds_what_it_was_made_of() {
    let f = form();
    assert_eq!(f.tense, "past");
    assert_eq!(f.person, "p_3rd");
    assert_eq!(f.number, "singular");
    assert_eq!(f.gender, "m");
    assert_eq!(f.form, "יָשַׁב");
    assert_eq!(f.form_normalized, "ישב");
    assert_eq!(f.transcription, "yashav");
    assert_eq!(f.meaning, "he sat");
    assert_eq!(f.form_vowelled.as_deref(), Some("יָשַׁב"));
}

#[test]
fn an_entry_holds_what_it_was_made_of() {
    let w = entry();
    assert_eq!(w.url_id, "9-lashevet");
    assert_eq!(w.word, "לָשֶׁבֶת");
    assert_eq!(w.word_en, "to sit");
    assert_eq!(w.word_normalized, "לשבת");
    assert_eq!(w.transcription, "lashevet");
    assert_eq!(w.root, "ישב");
    assert_eq!(w.forms.len(), 1);
    assert_eq!(w.binyan, "PA'AL");
    assert_eq!(w.passive.as_ref().unwrap().len(), 2);
    assert_eq!(w.passive_binyan.as_deref(), Some("NIF'AL"));
}

#[test]
fn clones_keep_every_field() {
    let w = entry();
    let c = w.clone();
    assert_eq!(c.url_id, w.url_id);
    assert_eq!(c.word, w.word);
    assert_eq!(c.word_en, w.word_en);
    assert_eq!(c.word_normalized, w.word_normalized);
    assert_eq!(c.transcription, w.transcription);
    assert_eq!(c.root, w.root);
    assert_eq!(c.binyan, w.binyan);
    assert_eq!(c.passive_binyan, w.passive_binyan);
    assert_eq!(c.forms.len(), 1);
    assert_eq!(c.forms[0].form, "יָשַׁב");
    assert_eq!(c.forms[0].form_vowelled, w.forms[0].form_vowelled);
    assert_eq!(c.passive.unwrap().len(), 2);

    let r = SearchResult::new(entry(), vec![MatchedForm::new(0, 0), MatchedForm::new(3, 2)]);
    let rc = r.clone();
    assert_eq!(rc.word.url_id, "9-lashevet");
    assert_eq!(rc.matching_forms, vec![MatchedForm::new(0, 0), MatchedForm::new(3, 2)]);
}

#[test]
fn a_matched_form_holds_position_and_kind() {
    let m = MatchedForm::new(4, 2);
    assert_eq!(m.index, 4);
    assert_eq!(m.kind, 2);
    assert_eq!(m, MatchedForm { index: 4, kind: 2 });
    assert_ne!(m, MatchedForm::new(4, 1));
}

#[test]
fn kinds_are_numbered() {
    assert_eq!(FormKind::INFINITIVE.code(), 0);
    assert_eq!(FormKind::ACTIVE.code(), 1);
    assert_eq!(FormKind::PASSIVE.code(), 2);
}

#[test]
fn a_search_result_holds_entry_and_matches() {
    let r = SearchResult::new(entry(), vec![MatchedForm::new(0, 1)]);
    assert_eq!(r.word.url_id, "9-lashevet");
    assert_eq!(r.matching_forms.len(), 1);
    assert_eq!(r.matching_forms[0], MatchedForm::new(0, 1));
}
