use libpealimrs::proto::{all_valid, convert_pb_to_dto, WordDataPb, WordFormPb};
use libpealimrs::word_index::WordIndex;

fn wire_form(tense: i32, person: i32, number: i32, gender: i32, form: &str, normalized: &str) -> WordFormPb {
    WordFormPb {
        tense,
        person,
        number,
        gender,
        form: String::from(form),
        form_normalized: String::from(normalized),
        transcription: String::new(),
        meaning: String::new(),
        form_vowelled: None,
    }
}

fn wire_word(
    url_id: &str,
    word: &str,
    word_en: &str,
    word_normalized: &str,
    root: &str,
    binyan: i32,
    forms: Vec<WordFormPb>,
    passive: Vec<WordFormPb>,
    passive_binyan: Option<i32>,
) -> WordDataPb {
    WordDataPb {
        url_id: String::from(url_id),
        word: String::from(word),
        word_en: String::from(word_en),
        word_normalized: String::from(word_normalized),
        transcription: String::new(),
        root: String::from(root),
        forms,
        binyan,
        passive,
        passive_binyan,
    }
}

fn word_list() -> Vec<WordDataPb> {
    vec![
        wire_word(
            "9-lashevet",
            "לָשֶׁבֶת",
            "to sit, to sit down",
            "לשבת",
            "ישב",
            0,
            vec![
                wire_form(0, 2, 0, 0, "יָשַׁב", "ישב"),
                wire_form(2, 1, 0, 0, "תֵּשֵׁב", "תשב"),
                wire_form(2, 2, 0, 1, "תֵּשֵׁב", "תשב"),
            ],
            Vec::new(),
            None,
        ),
        wire_word(
            "1-lalechet",
            "לָלֶכֶת",
            "to go, to walk (on foot)",
            "ללכת",
            "הלך",
            0,
            vec![wire_form(0, 2, 0, 0, "הָלַךְ", "הלך")],
            Vec::new(),
            None,
        ),
        wire_word(
            "2-lilmod",
            "לִלְמוֹד",
            "to learn, to study",
            "ללמוד",
            "למד",
            0,
            vec![wire_form(0, 2, 0, 0, "לָמַד", "למד")],
            Vec::new(),
            None,
        ),
        wire_word(
            "3-lelaket",
            "לְלַקֵּט",
            "to gather, to collect",
            "ללקט",
            "לקט",
            2,
            vec![wire_form(0, 2, 0, 0, "לִקֵּט", "ליקט")],
            vec![wire_form(0, 2, 0, 0, "לֻקַּט", "לוקט")],
            Some(3),
        ),
        wire_word(
            "4-lilchotz",
            "לִלְחוֹץ",
            "to press",
            "ללחוץ",
            "לחץ",
            0,
            vec![wire_form(0, 2, 0, 0, "לָחַץ", "לחץ")],
            Vec::new(),
            None,
        ),
        wire_word(
            "5-leoded",
            "לְעוֹדֵד",
            "to encourage",
            "לעודד",
            "עוד",
            2,
            vec![wire_form(0, 2, 0, 0, "עוֹדֵד", "עודד")],
            vec![wire_form(0, 2, 0, 0, "עוֹדַד", "עודד")],
            Some(3),
        ),
        wire_word(
            "6-lehagzim",
            "לְהַגְזִים",
            "to exaggerate",
            "להגזים",
            "גזם",
            4,
            vec![wire_form(0, 2, 0, 0, "הִגְזִים", "הגזים")],
            vec![wire_form(0, 2, 0, 0, "הֻגְזַם", "הוגזם")],
            Some(5),
        ),
        wire_word(
            "7-lenasot",
            "לְנַסּוֹת",
            "to try, to attempt",
            "לנסות",
            "נסה",
            2,
            vec![wire_form(2, 1, 0, 1, "תְּנַסִּי", "תנסי")],
            vec![
                wire_form(2, 1, 0, 1, "תְּנֻסִּי", "תנוסי"),
                wire_form(2, 1, 1, 1, "תְּנֻסֶּינָה", "תנוסינה"),
            ],
            Some(3),
        ),
    ]
}

fn init_local() -> WordIndex {
    let records = word_list();
    assert!(all_valid(&records));
    WordIndex::build(convert_pb_to_dto(records))
}

#[test]
fn lib_load_and_build_index_from_pb() {
    let index = init_local();
    assert_eq!(index.get("לָלֶכֶת")[0].word.word_normalized, "ללכת");
}

#[test]
fn word_index_load_and_build_index_from_pb() {
    let index = init_local();
    let vec = index.matching_forms("9-lashevet", "תשב");
    println!("results: {:?}", vec.len());
    assert_eq!(vec.len(), 2);
}

#[test]
fn load_and_build_index_suggest() {
    let index = init_local();
    let vec = index.suggest("lea", 15);
    println!("results: {:?}", vec.len());
    assert!(!vec.is_empty());
}

#[test]
fn load_and_build_index_suggest_passive() {
    let index = init_local();
    let vec = index.suggest("ללקט", 15);
    println!("results: {:?}", vec.len());
    assert!(!vec.is_empty());
}

#[test]
fn load_and_build_index_suggest_matching_forms() {
    let index = init_local();
    let vec = index.suggest("ללח", 15);
    println!("results: {:?}", vec.len());
    assert!(!vec.is_empty());
}

#[test]
fn load_and_build_index_suggest_matching_forms_pual() {
    let index = init_local();
    let vec = index.suggest("לְעוֹדֵד", 15);
    println!("results: {:?}", vec.len());
    assert!(!vec.is_empty());
    assert!(vec.len() == 1);
    assert_eq!(vec[0].word.passive_binyan.as_deref(), Some("PU'AL"));
}

#[test]
fn load_and_build_index_suggest_matching_forms_hufal() {
    let index = init_local();
    let vec = index.suggest("להגזים", 15);
    println!("results: {:?}", vec.len());
    assert!(!vec.is_empty());
    assert!(vec.len() == 1);
    assert_eq!(vec[0].word.passive_binyan.as_deref(), Some("HUF'AL"));
}

#[test]
fn load_and_build_index_suggest_matching_forms_pual_search() {
    let index = init_local();
    let vec = index.suggest("תנוסי", 15);
    println!("results: {:?}", vec.len());
    assert!(!vec.is_empty());
}

#[test]
fn load_and_build_index_suggest_matching_forms_hufal_search() {
    let index = init_local();
    let vec = index.suggest("תנוסינה", 15);
    println!("results: {:?}", vec.len());
    assert!(!vec.is_empty());
}

#[test]
fn the_word_list_is_indexed_through_every_path() {
    let index = init_local();
    let slots = index.matching_forms("9-lashevet", "תֵּשֵׁב");
    assert_eq!(slots.len(), 2);
    assert_eq!((slots[0].index, slots[0].kind), (1, 1));
    assert_eq!((slots[1].index, slots[1].kind), (2, 1));
    let passive = index.suggest("תנוסי", 15);
    assert_eq!(passive.len(), 1);
    assert_eq!(passive[0].word.url_id, "7-lenasot");
    assert_eq!(passive[0].matching_forms.len(), 1);
    assert_eq!((passive[0].matching_forms[0].index, passive[0].matching_forms[0].kind), (0, 2));
    assert_eq!(index.get_by_root("ישב").len(), 1);
    assert_eq!(index.get_by_root("ישב")[0].forms[1].person, "p_2nd");
    assert_eq!(index.get_by_root("ישב")[0].forms[1].tense, "future");
}
