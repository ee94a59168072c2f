use libpealimrs::word_dto::{FormKind, MatchedForm, SearchResult, WordData, WordForm};
use libpealimrs::word_index::WordIndex;

fn form(surface: &str, normalized: &str) -> WordForm {
    WordForm::new(
        String::from("past"),
        String::from("all"),
        String::from("singular"),
        String::from("m"),
        String::from(surface),
        String::from(normalized),
        String::new(),
        String::new(),
        None,
    )
}

fn entry(
    id: &str,
    word_normalized: &str,
    word_en: &str,
    root: &str,
    forms: Vec<WordForm>,
    passive: Option<Vec<WordForm>>,
) -> WordData {
    WordData::new(
        String::from(id),
        String::from(word_normalized),
        String::from(word_en),
        String::from(word_normalized),
        String::new(),
        String::from(root),
        forms,
        String::from("PA'AL"),
        passive,
        None,
    )
}

fn ids(results: &Vec<SearchResult>) -> Vec<String> {
    let mut v: Vec<String> = results.iter().map(|r| r.word.url_id.clone()).collect();
    v.sort();
    v
}

fn entry_ids(entries: &Vec<WordData>) -> Vec<String> {
    let mut v: Vec<String> = entries.iter().map(|w| w.url_id.clone()).collect();
    v.sort();
    v
}

fn sample() -> WordIndex {
    WordIndex::build(vec![
        entry(
            "go",
            "ללכת",
            "to go (on foot), to walk",
            "הלכ",
            vec![form("הָלַךְ", "הלך"), form("הוֹלֵךְ", "הולך"), form("", "")],
            None,
        ),
        entry(
            "learn",
            "ללמוד",
            "to learn, to study",
            "למד",
            vec![form("לָמַד", "למד"), form("לוֹמֵד", "לומד")],
            Some(vec![form("נִלְמַד", "נלמד"), form("", "")]),
        ),
        entry(
            "teach",
            "ללמד",
            "to teach",
            "למד",
            vec![form("לִמֵּד", "למד")],
            Some(vec![form("לֻמַּד", "למד")]),
        ),
    ])
}

#[test]
fn one_record_found_by_headword_and_by_form() {
    let index = WordIndex::build(vec![WordData::new(
        String::from("1"),
        String::from("X"),
        String::new(),
        String::from("X"),
        String::new(),
        String::new(),
        vec![form("Y", "Y")],
        String::from("PA'AL"),
        None,
        None,
    )]);

    let by_headword = index.get("X");
    assert_eq!(by_headword.len(), 1);
    assert_eq!(by_headword[0].word.url_id, "1");
    assert_eq!(by_headword[0].matching_forms, vec![MatchedForm::new(0, 0)]);
    assert_eq!(by_headword[0].matching_forms[0].kind, FormKind::INFINITIVE.code());

    let by_form = index.get("Y");
    assert_eq!(by_form.len(), 1);
    assert_eq!(by_form[0].word.url_id, "1");
    assert_eq!(by_form[0].matching_forms, vec![MatchedForm::new(0, 1)]);
    assert_eq!(by_form[0].matching_forms[0].kind, FormKind::ACTIVE.code());
}

#[test]
fn two_records_share_a_headword() {
    let index = WordIndex::build(vec![
        entry("a", "Z", "", "", vec![], None),
        entry("b", "Z", "", "", vec![], None),
    ]);
    let results = index.get("Z");
    assert_eq!(results.len(), 2);
    assert_eq!(ids(&results), vec!["a", "b"]);
    for r in &results {
        assert_eq!(r.matching_forms, vec![MatchedForm::new(0, 0)]);
    }
}

#[test]
fn get_normalizes_the_query() {
    let index = sample();
    assert_eq!(ids(&index.get("לָלֶכֶת")), vec!["go"]);
    assert_eq!(index.get("לָלֶכֶת")[0].word.word_normalized, "ללכת");
    assert_eq!(index.get("לָלֶכֶת")[0].matching_forms, vec![MatchedForm::new(0, 0)]);
}

#[test]
fn get_of_an_unknown_word_is_empty() {
    let index = sample();
    assert!(index.get("אבג").is_empty());
    assert!(index.get("").is_empty());
    assert!(WordIndex::build(Vec::new()).get("X").is_empty());
}

#[test]
fn every_form_leads_to_its_record() {
    let index = sample();
    assert_eq!(ids(&index.get("הלך")), vec!["go"]);
    assert_eq!(ids(&index.get("הולך")), vec!["go"]);
    assert_eq!(ids(&index.get("לומד")), vec!["learn"]);
    assert_eq!(ids(&index.get("נלמד")), vec!["learn"]);
    assert_eq!(ids(&index.get("למד")), vec!["learn", "teach"]);
}

#[test]
fn a_surface_may_match_several_slots() {
    let index = sample();
    let results = index.get("למד");
    for r in &results {
        if r.word.url_id == "learn" {
            assert_eq!(r.matching_forms, vec![MatchedForm::new(0, 1)]);
        } else {
            assert_eq!(r.word.url_id, "teach");
            assert_eq!(r.matching_forms, vec![MatchedForm::new(0, 1), MatchedForm::new(0, 2)]);
        }
    }
}

#[test]
fn get_normalized_takes_the_key_as_given() {
    let index = sample();
    assert_eq!(ids(&index.get_normalized("ללכת")), vec!["go"]);
    assert!(index.get_normalized("לָלֶכֶת").is_empty());
}

#[test]
fn classifier_lists_infinitive_then_active_then_passive() {
    let word = entry(
        "w",
        "q",
        "",
        "",
        vec![form("", "q"), form("", "x"), form("", "q")],
        Some(vec![form("", "x"), form("", "q")]),
    );
    assert_eq!(
        WordIndex::matching_forms_inner(&word, "q"),
        vec![
            MatchedForm::new(0, 0),
            MatchedForm::new(0, 1),
            MatchedForm::new(2, 1),
            MatchedForm::new(1, 2),
        ]
    );
    assert_eq!(
        WordIndex::matching_forms_inner(&word, "x"),
        vec![MatchedForm::new(1, 1), MatchedForm::new(0, 2)]
    );
    assert!(WordIndex::matching_forms_inner(&word, "y").is_empty());
}

#[test]
fn classifier_matches_empty_surfaces_too() {
    let word = entry("w", "q", "", "", vec![form("", ""), form("", "q")], None);
    assert_eq!(WordIndex::matching_forms_inner(&word, ""), vec![MatchedForm::new(0, 1)]);
}

#[test]
fn matching_forms_of_own_headword_has_the_infinitive() {
    let index = sample();
    for (id, headword) in [("go", "ללכת"), ("learn", "ללמוד"), ("teach", "ללמד")] {
        let slots = index.matching_forms(id, headword);
        assert!(slots.contains(&MatchedForm::new(0, 0)));
        assert_eq!(slots[0], MatchedForm::new(0, 0));
    }
}

#[test]
fn matching_forms_normalizes_the_text() {
    let index = sample();
    assert_eq!(index.matching_forms("go", "הָלַךְ"), vec![MatchedForm::new(0, 1)]);
    assert_eq!(
        index.matching_forms("teach", "לִמֵּד"),
        vec![MatchedForm::new(0, 1), MatchedForm::new(0, 2)]
    );
    assert!(index.matching_forms("go", "למד").is_empty());
}

#[test]
fn matching_forms_of_an_unknown_id_is_empty() {
    let index = sample();
    assert!(index.matching_forms("nobody", "ללכת").is_empty());
    assert!(index.matching_forms("", "").is_empty());
}

#[test]
fn empty_surfaces_are_not_indexed() {
    let index = sample();
    assert!(index.get("").is_empty());
    assert_eq!(ids(&index.suggest_hebrew("", 15)), vec!["go", "learn", "teach"]);
}

#[test]
fn an_empty_headword_is_indexed() {
    let index = WordIndex::build(vec![entry("e", "", "", "", vec![], None)]);
    assert_eq!(ids(&index.get("")), vec!["e"]);
}

#[test]
fn roots_group_records() {
    let index = sample();
    assert_eq!(entry_ids(&index.get_by_root("למד")), vec!["learn", "teach"]);
    assert_eq!(entry_ids(&index.get_by_root("הלכ")), vec!["go"]);
    assert!(index.get_by_root("אבג").is_empty());
    let found = index.get_by_root("הלכ");
    assert_eq!(found[0].word_en, "to go (on foot), to walk");
    assert_eq!(found[0].forms.len(), 3);
}

#[test]
fn roots_are_looked_up_as_given() {
    let index = WordIndex::build(vec![entry("a", "w", "", "הָלַךְ", vec![], None)]);
    assert_eq!(entry_ids(&index.get_by_root("הָלַךְ")), vec!["a"]);
    assert!(index.get_by_root("הלך").is_empty());
}

#[test]
fn suggest_by_source_prefix() {
    let index = sample();
    assert_eq!(ids(&index.suggest("לל", 15)), vec!["go", "learn", "teach"]);
    assert_eq!(ids(&index.suggest("ללמ", 15)), vec!["learn", "teach"]);
    assert_eq!(ids(&index.suggest("הו", 15)), vec!["go"]);
    let first = index.suggest("ללמ", 1);
    assert_eq!(first.len(), 1);
    assert_eq!(first[0].word.url_id, "teach");
}

#[test]
fn suggest_decorates_against_the_processed_prefix() {
    let index = sample();
    let exact = index.suggest("לָלֶכֶת", 15);
    assert_eq!(exact.len(), 1);
    assert_eq!(exact[0].matching_forms, vec![MatchedForm::new(0, 0)]);
    let partial = index.suggest("ללכ", 15);
    assert_eq!(partial.len(), 1);
    assert!(partial[0].matching_forms.is_empty());
}

#[test]
fn suggest_falls_back_to_translations() {
    let index = sample();
    assert_eq!(ids(&index.suggest("wal", 15)), vec!["go"]);
    assert_eq!(ids(&index.suggest("stu", 15)), vec!["learn"]);
    assert_eq!(ids(&index.suggest("to tea", 15)), vec!["teach"]);
    assert!(index.suggest("to to lea", 15).is_empty());
    assert!(index.suggest("on foot", 15).is_empty());
    assert!(index.suggest("zzz", 15).is_empty());
}

#[test]
fn translations_answer_only_where_the_source_finds_nothing() {
    let index = WordIndex::build(vec![
        entry("src", "go", "", "", vec![], None),
        entry("en", "x", "to go", "", vec![], None),
    ]);
    assert_eq!(ids(&index.suggest("go", 15)), vec!["src"]);
    assert_eq!(ids(&index.suggest_hebrew("go", 15)), vec!["src"]);
    assert_eq!(ids(&index.suggest_by_translation("go", 15)), vec!["en"]);
    assert_eq!(ids(&index.suggest("g", 1)), vec!["src"]);
}

#[test]
fn suggest_with_limit_zero_is_empty() {
    let index = sample();
    assert!(index.suggest("לל", 0).is_empty());
    assert!(index.suggest("wal", 0).is_empty());
}

#[test]
fn suggest_never_exceeds_the_limit() {
    let index = sample();
    assert_eq!(index.suggest("ל", 2).len(), 2);
    assert_eq!(index.suggest_hebrew("ל", 2).len(), 2);
    assert_eq!(index.suggest_by_translation("", 2).len(), 2);
}

#[test]
fn the_later_record_of_an_identifier_wins() {
    let index = WordIndex::build(vec![
        entry("same", "first", "", "r1", vec![], None),
        entry("same", "second", "", "r2", vec![], None),
    ]);
    let by_first = index.get("first");
    assert_eq!(by_first.len(), 1);
    assert_eq!(by_first[0].word.word_normalized, "second");
    assert!(by_first[0].matching_forms.is_empty());
    let by_second = index.get("second");
    assert_eq!(by_second.len(), 1);
    assert_eq!(by_second[0].matching_forms, vec![MatchedForm::new(0, 0)]);
    assert_eq!(index.get_by_root("r1")[0].root, "r2");
    assert!(index.matching_forms("same", "first").is_empty());
    assert_eq!(index.matching_forms("same", "second"), vec![MatchedForm::new(0, 0)]);
}

#[test]
fn results_are_copies() {
    let index = sample();
    let mut first = index.get("ללכת");
    first[0].word.word_normalized = String::from("changed");
    first[0].matching_forms.clear();
    let second = index.get("ללכת");
    assert_eq!(second[0].word.word_normalized, "ללכת");
    assert_eq!(second[0].matching_forms, vec![MatchedForm::new(0, 0)]);
}

#[test]
fn duplicate_identifiers_are_reported() {
    let distinct = vec![
        entry("a", "x", "", "", vec![], None),
        entry("b", "x", "", "", vec![], None),
    ];
    assert_eq!(WordIndex::first_duplicate(&distinct), None);
    assert_eq!(WordIndex::first_duplicate(&Vec::new()), None);
    let repeated = vec![
        entry("a", "x", "", "", vec![], None),
        entry("b", "x", "", "", vec![], None),
        entry("c", "x", "", "", vec![], None),
        entry("b", "y", "", "", vec![], None),
        entry("a", "z", "", "", vec![], None),
    ];
    assert_eq!(WordIndex::first_duplicate(&repeated), Some(3));
}

#[test]
fn a_query_asked_twice_answers_the_same() {
    let index = sample();
    let first: Vec<String> = index.suggest("ל", 15).iter().map(|r| r.word.url_id.clone()).collect();
    let second: Vec<String> =
        index.suggest("ל", 15).iter().map(|r| r.word.url_id.clone()).collect();
    assert_eq!(first, second);
    let homographs: Vec<String> =
        index.get("למד").iter().map(|r| r.word.url_id.clone()).collect();
    assert_eq!(homographs, vec!["learn", "teach"]);
}
