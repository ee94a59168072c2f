use libpealimrs::proto::{
    all_valid, convert_binyan_pb_to_dto, convert_gender_pb_to_dto, convert_number_pb_to_dto,
    convert_pb_to_dto, convert_person_pb_to_dto, convert_tense_pb_to_dto,
    convert_word_data_pb_to_dto, convert_word_form_pb_to_dto, unify_all, WordDataPb, WordFormPb,
};

fn wire_form(tense: i32, person: i32, number: i32, gender: i32, form: &str) -> WordFormPb {
    WordFormPb {
        tense,
        person,
        number,
        gender,
        form: String::from(form),
        form_normalized: String::from(form),
        transcription: String::from("t"),
        meaning: String::from("m"),
        form_vowelled: Some(String::from("v")),
    }
}

fn wire_word(binyan: i32, passive: Vec<WordFormPb>, passive_binyan: Option<i32>) -> WordDataPb {
    WordDataPb {
        url_id: String::from("9-lashevet"),
        word: String::from("לָשֶׁבֶת"),
        word_en: String::from("to sit"),
        word_normalized: String::from("לשבת"),
        transcription: String::from("lashevet"),
        root: String::from("ישב"),
        forms: vec![wire_form(0, 0, 0, 2, "a"), wire_form(2, 3, 1, 1, "b")],
        binyan,
        passive,
        passive_binyan,
    }
}

#[test]
fn tense_names() {
    assert_eq!(convert_tense_pb_to_dto(0), "past");
    assert_eq!(convert_tense_pb_to_dto(1), "present");
    assert_eq!(convert_tense_pb_to_dto(2), "future");
}

#[test]
fn number_names() {
    assert_eq!(convert_number_pb_to_dto(0), "singular");
    assert_eq!(convert_number_pb_to_dto(1), "plural");
}

#[test]
fn gender_names() {
    assert_eq!(convert_gender_pb_to_dto(0), "m");
    assert_eq!(convert_gender_pb_to_dto(1), "f");
    assert_eq!(convert_gender_pb_to_dto(2), "all");
}

#[test]
fn person_names() {
    assert_eq!(convert_person_pb_to_dto(0), "p_1st");
    assert_eq!(convert_person_pb_to_dto(1), "p_2nd");
    assert_eq!(convert_person_pb_to_dto(2), "p_3rd");
    assert_eq!(convert_person_pb_to_dto(3), "all");
}

#[test]
fn binyan_display_names() {
    let names = ["PA'AL", "NIF'AL", "PI'EL", "PU'AL", "HIF'IL", "HUF'AL", "HITPA'EL"];
    for (code, name) in names.iter().enumerate() {
        assert_eq!(convert_binyan_pb_to_dto(code as i32), *name);
    }
}

#[test]
fn unify_all_folds_what_starts_with_all() {
    assert_eq!(unify_all(String::from("all_g")), "all");
    assert_eq!(unify_all(String::from("all_p")), "all");
    assert_eq!(unify_all(String::from("all")), "all");
    assert_eq!(unify_all(String::from("al")), "al");
    assert_eq!(unify_all(String::from("m")), "m");
    assert_eq!(unify_all(String::from("small")), "small");
    assert_eq!(unify_all(String::new()), "");
}

#[test]
fn a_form_is_converted_field_by_field() {
    let form = convert_word_form_pb_to_dto(&wire_form(1, 2, 1, 0, "x"));
    assert_eq!(form.tense, "present");
    assert_eq!(form.person, "p_3rd");
    assert_eq!(form.number, "plural");
    assert_eq!(form.gender, "m");
    assert_eq!(form.form, "x");
    assert_eq!(form.form_normalized, "x");
    assert_eq!(form.transcription, "t");
    assert_eq!(form.meaning, "m");
    assert_eq!(form.form_vowelled.as_deref(), Some("v"));
}

#[test]
fn an_entry_without_passive_forms_has_no_passive() {
    let word = convert_word_data_pb_to_dto(&wire_word(0, Vec::new(), None));
    assert_eq!(word.url_id, "9-lashevet");
    assert_eq!(word.word, "לָשֶׁבֶת");
    assert_eq!(word.word_en, "to sit");
    assert_eq!(word.word_normalized, "לשבת");
    assert_eq!(word.transcription, "lashevet");
    assert_eq!(word.root, "ישב");
    assert_eq!(word.binyan, "PA'AL");
    assert_eq!(word.forms.len(), 2);
    assert_eq!(word.forms[0].gender, "all");
    assert_eq!(word.forms[1].person, "all");
    assert_eq!(word.forms[1].tense, "future");
    assert!(word.passive.is_none());
    assert!(word.passive_binyan.is_none());
}

#[test]
fn passive_forms_and_class_are_converted() {
    let word = convert_word_data_pb_to_dto(&wire_word(
        2,
        vec![wire_form(0, 1, 0, 1, "p")],
        Some(3),
    ));
    assert_eq!(word.binyan, "PI'EL");
    assert_eq!(word.passive_binyan.as_deref(), Some("PU'AL"));
    let passive = word.passive.unwrap();
    assert_eq!(passive.len(), 1);
    assert_eq!(passive[0].form, "p");
    assert_eq!(passive[0].person, "p_2nd");
}

#[test]
fn a_list_is_converted_in_order() {
    let words = convert_pb_to_dto(vec![
        wire_word(4, Vec::new(), Some(5)),
        wire_word(6, Vec::new(), None),
    ]);
    assert_eq!(words.len(), 2);
    assert_eq!(words[0].binyan, "HIF'IL");
    assert_eq!(words[0].passive_binyan.as_deref(), Some("HUF'AL"));
    assert_eq!(words[1].binyan, "HITPA'EL");
    assert!(convert_pb_to_dto(Vec::new()).is_empty());
}

#[test]
fn validity_of_forms() {
    assert!(wire_form(0, 0, 0, 0, "").is_valid());
    assert!(wire_form(2, 3, 1, 2, "").is_valid());
    assert!(!wire_form(3, 0, 0, 0, "").is_valid());
    assert!(!wire_form(-1, 0, 0, 0, "").is_valid());
    assert!(!wire_form(0, 4, 0, 0, "").is_valid());
    assert!(!wire_form(0, 0, 2, 0, "").is_valid());
    assert!(!wire_form(0, 0, 0, 3, "").is_valid());
}

#[test]
fn validity_of_entries() {
    assert!(wire_word(0, Vec::new(), None).is_valid());
    assert!(wire_word(6, vec![wire_form(0, 0, 0, 0, "")], Some(6)).is_valid());
    assert!(!wire_word(7, Vec::new(), None).is_valid());
    assert!(!wire_word(-1, Vec::new(), None).is_valid());
    assert!(!wire_word(0, Vec::new(), Some(7)).is_valid());
    assert!(!wire_word(0, vec![wire_form(0, 0, 0, 9, "")], None).is_valid());
    let mut bad_active = wire_word(0, Vec::new(), None);
    bad_active.forms.push(wire_form(5, 0, 0, 0, ""));
    assert!(!bad_active.is_valid());
}

#[test]
fn validity_of_lists() {
    assert!(all_valid(&Vec::new()));
    assert!(all_valid(&vec![wire_word(0, Vec::new(), None), wire_word(1, Vec::new(), None)]));
    assert!(!all_valid(&vec![wire_word(0, Vec::new(), None), wire_word(9, Vec::new(), None)]));
}
