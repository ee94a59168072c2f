use libpealimrs::util::{chars_of, normalize, string_of, strip_marks};

#[test]
fn vowel_points_are_removed() {
    assert_eq!(normalize("לָלֶכֶת"), "ללכת");
    assert_eq!(normalize("לְעוֹדֵד"), "לעודד");
}

#[test]
fn plain_text_stays() {
    assert_eq!(normalize("ללכת"), "ללכת");
    assert_eq!(normalize("to walk"), "to walk");
    assert_eq!(normalize(""), "");
}

#[test]
fn precomposed_letters_are_decomposed_and_stripped() {
    assert_eq!(normalize("\u{e9}"), "e");
    assert_eq!(normalize("cafe\u{301}"), "cafe");
    assert_eq!(normalize("\u{c5}ngstr\u{f6}m"), "Angstrom");
}

#[test]
fn presentation_forms_with_points_lose_them() {
    assert_eq!(normalize("\u{fb2a}"), "\u{5e9}");
    assert_eq!(normalize("\u{fb2e}"), "\u{5d0}");
    assert_eq!(normalize("\u{fb4b}"), "\u{5d5}");
}

#[test]
fn decomposition_is_canonical_only() {
    assert_eq!(normalize("\u{fb01}"), "\u{fb01}");
    assert_eq!(normalize("\u{2460}"), "\u{2460}");
    assert_eq!(normalize("\u{fb21}"), "\u{fb21}");
}

#[test]
fn normalize_is_idempotent_on_samples() {
    let samples = [
        "",
        "abc",
        "לָלֶכֶת",
        "\u{e9}\u{fb01}\u{2460}",
        "\u{1e69}",
        "\u{d55c}\u{ae00}",
        "a\u{300}\u{301}b\u{327}",
        "\u{fb2c}\u{fb4b}",
        "(to) go, to walk",
    ];
    for s in samples {
        let once = normalize(s);
        assert_eq!(normalize(&once), once);
    }
}

#[test]
fn strip_marks_drops_only_marks() {
    assert_eq!(strip_marks(&vec!['e', '\u{301}']), "e");
    assert_eq!(strip_marks(&vec!['\u{5b8}', 'ל', '\u{5b6}']), "ל");
    assert_eq!(strip_marks(&vec!['a', ' ', '-', '1']), "a -1");
    assert_eq!(strip_marks(&vec![]), "");
    assert_eq!(strip_marks(&vec!['\u{e9}']), "\u{e9}");
}

#[test]
fn code_points_round_trip() {
    let chars = chars_of("שָׁלוֹם x");
    assert_eq!(chars, "שָׁלוֹם x".chars().collect::<Vec<char>>());
    assert_eq!(string_of(&chars, 0, chars.len()), "שָׁלוֹם x");
    assert_eq!(string_of(&chars, 1, 3), chars[1..3].iter().collect::<String>());
    assert_eq!(string_of(&chars, 2, 2), "");
}
