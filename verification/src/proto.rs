//! Records as they come off the wire, and their conversion to entries.
//!
//! On the wire an enumerated field is a number. Conversion replaces each
//! number by its name, in lower case, folds the two "all" values into
//! "all", and gives a derivation class its display name. A number outside
//! an enumeration has no name: conversion requires valid records, and
//! [`WordDataPb::is_valid`] tells which records are.

use crate::util::chars_of;
use crate::word_dto::{
    clone_opt_string, forms_view, opt_str_view, words_view, WordData, WordDataView, WordForm,
    WordFormView,
};
use vstd::prelude::*;

verus! {

/// An inflected form as it comes off the wire.
pub struct WordFormPb {
    pub tense: i32,
    pub person: i32,
    pub number: i32,
    pub gender: i32,
    pub form: String,
    pub form_normalized: String,
    pub transcription: String,
    pub meaning: String,
    pub form_vowelled: Option<String>,
}

/// An entry as it comes off the wire. An entry without passive forms has
/// an empty list of them.
pub struct WordDataPb {
    pub url_id: String,
    pub word: String,
    pub word_en: String,
    pub word_normalized: String,
    pub transcription: String,
    pub root: String,
    pub forms: Vec<WordFormPb>,
    pub binyan: i32,
    pub passive: Vec<WordFormPb>,
    pub passive_binyan: Option<i32>,
}

/// The name of a tense.
pub open spec fn tense_name(code: int) -> Seq<char> {
    if code == 0 {
        "past"@
    } else if code == 1 {
        "present"@
    } else {
        "future"@
    }
}

/// The name of a number.
pub open spec fn number_name(code: int) -> Seq<char> {
    if code == 0 {
        "singular"@
    } else {
        "plural"@
    }
}

/// The name of a gender, before the "all" values are folded.
pub open spec fn gender_wire_name(code: int) -> Seq<char> {
    if code == 0 {
        "m"@
    } else if code == 1 {
        "f"@
    } else {
        "all_g"@
    }
}

/// The name of a person, before the "all" values are folded.
pub open spec fn person_wire_name(code: int) -> Seq<char> {
    if code == 0 {
        "p_1st"@
    } else if code == 1 {
        "p_2nd"@
    } else if code == 2 {
        "p_3rd"@
    } else {
        "all_p"@
    }
}

/// The display name of a derivation class.
pub open spec fn binyan_name(code: int) -> Seq<char> {
    if code == 0 {
        "PA'AL"@
    } else if code == 1 {
        "NIF'AL"@
    } else if code == 2 {
        "PI'EL"@
    } else if code == 3 {
        "PU'AL"@
    } else if code == 4 {
        "HIF'IL"@
    } else if code == 5 {
        "HUF'AL"@
    } else {
        "HITPA'EL"@
    }
}

/// The start of every "all" value.
pub open spec fn all_name() -> Seq<char> {
    seq!['a', 'l', 'l']
}

/// A name with the "all" values folded: whatever starts with "all" is
/// "all".
pub open spec fn unify_all_spec(val: Seq<char>) -> Seq<char> {
    if all_name().is_prefix_of(val) {
        all_name()
    } else {
        val
    }
}

/// The numbers of a form name members of their enumerations.
pub open spec fn valid_form(f: WordFormPb) -> bool {
    &&& 0 <= f.tense <= 2
    &&& 0 <= f.person <= 3
    &&& 0 <= f.number <= 1
    &&& 0 <= f.gender <= 2
}

/// The numbers of an entry and of its forms name members of their
/// enumerations.
pub open spec fn valid_word(w: WordDataPb) -> bool {
    &&& 0 <= w.binyan <= 6
    &&& forall|i: int| 0 <= i < w.forms@.len() ==> valid_form(#[trigger] w.forms@[i])
    &&& forall|i: int| 0 <= i < w.passive@.len() ==> valid_form(#[trigger] w.passive@[i])
    &&& w.passive_binyan matches Some(code) ==> 0 <= code <= 6
}

/// The form that a wire form stands for.
pub open spec fn converted_form(f: WordFormPb) -> WordFormView {
    WordFormView {
        tense: tense_name(f.tense as int),
        person: unify_all_spec(person_wire_name(f.person as int)),
        number: number_name(f.number as int),
        gender: unify_all_spec(gender_wire_name(f.gender as int)),
        form: f.form@,
        form_normalized: f.form_normalized@,
        transcription: f.transcription@,
        meaning: f.meaning@,
        form_vowelled: opt_str_view(f.form_vowelled),
    }
}

/// The forms that a list of wire forms stands for.
pub open spec fn converted_forms(forms: Seq<WordFormPb>) -> Seq<WordFormView> {
    forms.map_values(|f: WordFormPb| converted_form(f))
}

/// The entry that a wire entry stands for. An empty list of passive forms
/// stands for an entry without a passive.
pub open spec fn converted_word(w: WordDataPb) -> WordDataView {
    WordDataView {
        url_id: w.url_id@,
        word: w.word@,
        word_en: w.word_en@,
        word_normalized: w.word_normalized@,
        transcription: w.transcription@,
        root: w.root@,
        forms: converted_forms(w.forms@),
        binyan: binyan_name(w.binyan as int),
        passive: if w.passive@.len() == 0 {
            None
        } else {
            Some(converted_forms(w.passive@))
        },
        passive_binyan: match w.passive_binyan {
            Some(code) => Some(binyan_name(code as int)),
            None => None,
        },
    }
}

/// The entries that a list of wire entries stands for.
pub open spec fn converted_words(src: Seq<WordDataPb>) -> Seq<WordDataView> {
    src.map_values(|w: WordDataPb| converted_word(w))
}

impl WordFormPb {
    /// Whether every number of the form names a member of its enumeration.
    pub fn is_valid(&self) -> (b: bool)
        ensures
            b == valid_form(*self),
    {
        0 <= self.tense && self.tense <= 2 && 0 <= self.person && self.person <= 3 && 0
            <= self.number && self.number <= 1 && 0 <= self.gender && self.gender <= 2
    }
}

/// Whether every form of the list is valid.
fn forms_valid(forms: &Vec<WordFormPb>) -> (b: bool)
    ensures
        b == forall|i: int| 0 <= i < forms@.len() ==> valid_form(#[trigger] forms@[i]),
{
    let mut i: usize = 0;
    while i < forms.len()
        invariant
            i <= forms.len(),
            forall|j: int| 0 <= j < i ==> valid_form(#[trigger] forms@[j]),
        decreases forms.len() - i,
    {
        if !forms[i].is_valid() {
            return false;
        }
        i += 1;
    }
    true
}

impl WordDataPb {
    /// Whether every number of the entry and of its forms names a member
    /// of its enumeration.
    pub fn is_valid(&self) -> (b: bool)
        ensures
            b == valid_word(*self),
    {
        let passive_binyan_valid = match self.passive_binyan {
            Some(code) => 0 <= code && code <= 6,
            None => true,
        };
        0 <= self.binyan && self.binyan <= 6 && passive_binyan_valid && forms_valid(&self.forms)
            && forms_valid(&self.passive)
    }
}

/// Whether every entry of the list is valid.
pub fn all_valid(src: &Vec<WordDataPb>) -> (b: bool)
    ensures
        b == forall|i: int| 0 <= i < src@.len() ==> valid_word(#[trigger] src@[i]),
{
    let mut i: usize = 0;
    while i < src.len()
        invariant
            i <= src.len(),
            forall|j: int| 0 <= j < i ==> valid_word(#[trigger] src@[j]),
        decreases src.len() - i,
    {
        if !src[i].is_valid() {
            return false;
        }
        i += 1;
    }
    true
}

/// Folds the "all" values: a name that starts with "all" becomes "all".
pub fn unify_all(val: String) -> (r: String)
    ensures
        r@ == unify_all_spec(val@),
{
    let chars = chars_of(val.as_str());
    let starts = chars.len() >= 3 && chars[0] == 'a' && chars[1] == 'l' && chars[2] == 'l';
    proof {
        reveal_strlit("all");
        assert("all"@ =~= all_name());
        if chars.len() >= 3 {
            if starts {
                assert(all_name() =~= val@.subrange(0, 3));
            } else {
                if all_name() == val@.subrange(0, 3) {
                    assert(val@.subrange(0, 3)[0] == 'a');
                    assert(val@.subrange(0, 3)[1] == 'l');
                    assert(val@.subrange(0, 3)[2] == 'l');
                }
            }
        }
    }
    if starts {
        "all".to_owned()
    } else {
        val
    }
}

/// The name of the tense with the given number.
pub fn convert_tense_pb_to_dto(tense_pb: i32) -> (r: String)
    requires
        0 <= tense_pb <= 2,
    ensures
        r@ == tense_name(tense_pb as int),
{
    if tense_pb == 0 {
        "past".to_owned()
    } else if tense_pb == 1 {
        "present".to_owned()
    } else {
        "future".to_owned()
    }
}

/// The display name of the derivation class with the given number.
pub fn convert_binyan_pb_to_dto(binyan_pb: i32) -> (r: String)
    requires
        0 <= binyan_pb <= 6,
    ensures
        r@ == binyan_name(binyan_pb as int),
{
    if binyan_pb == 0 {
        "PA'AL".to_owned()
    } else if binyan_pb == 1 {
        "NIF'AL".to_owned()
    } else if binyan_pb == 2 {
        "PI'EL".to_owned()
    } else if binyan_pb == 3 {
        "PU'AL".to_owned()
    } else if binyan_pb == 4 {
        "HIF'IL".to_owned()
    } else if binyan_pb == 5 {
        "HUF'AL".to_owned()
    } else {
        "HITPA'EL".to_owned()
    }
}

/// The name of the gender with the given number: "m", "f" or "all".
pub fn convert_gender_pb_to_dto(gender: i32) -> (r: String)
    requires
        0 <= gender <= 2,
    ensures
        r@ == unify_all_spec(gender_wire_name(gender as int)),
{
    let val = if gender == 0 {
        "m".to_owned()
    } else if gender == 1 {
        "f".to_owned()
    } else {
        "all_g".to_owned()
    };
    unify_all(val)
}

/// The name of the number with the given number.
pub fn convert_number_pb_to_dto(number_pb: i32) -> (r: String)
    requires
        0 <= number_pb <= 1,
    ensures
        r@ == number_name(number_pb as int),
{
    if number_pb == 0 {
        "singular".to_owned()
    } else {
        "plural".to_owned()
    }
}

/// The name of the person with the given number; the value that stands
/// for every person is "all".
pub fn convert_person_pb_to_dto(person_pb: i32) -> (r: String)
    requires
        0 <= person_pb <= 3,
    ensures
        r@ == unify_all_spec(person_wire_name(person_pb as int)),
{
    let val = if person_pb == 0 {
        "p_1st".to_owned()
    } else if person_pb == 1 {
        "p_2nd".to_owned()
    } else if person_pb == 2 {
        "p_3rd".to_owned()
    } else {
        "all_p".to_owned()
    };
    unify_all(val)
}

/// The form that a valid wire form stands for.
pub fn convert_word_form_pb_to_dto(word_form_pb: &WordFormPb) -> (r: WordForm)
    requires
        valid_form(*word_form_pb),
    ensures
        r@ == converted_form(*word_form_pb),
{
    WordForm {
        tense: convert_tense_pb_to_dto(word_form_pb.tense),
        person: convert_person_pb_to_dto(word_form_pb.person),
        number: convert_number_pb_to_dto(word_form_pb.number),
        gender: convert_gender_pb_to_dto(word_form_pb.gender),
        form: word_form_pb.form.clone(),
        form_normalized: word_form_pb.form_normalized.clone(),
        transcription: word_form_pb.transcription.clone(),
        meaning: word_form_pb.meaning.clone(),
        form_vowelled: clone_opt_string(&word_form_pb.form_vowelled),
    }
}

/// The forms that a list of valid wire forms stands for.
fn convert_forms(forms: &Vec<WordFormPb>) -> (r: Vec<WordForm>)
    requires
        forall|i: int| 0 <= i < forms@.len() ==> valid_form(#[trigger] forms@[i]),
    ensures
        forms_view(r@) == converted_forms(forms@),
{
    let mut r: Vec<WordForm> = Vec::new();
    let mut i: usize = 0;
    while i < forms.len()
        invariant
            i <= forms.len(),
            r.len() == i,
            forall|j: int| 0 <= j < forms@.len() ==> valid_form(#[trigger] forms@[j]),
            forall|j: int| 0 <= j < i ==> (#[trigger] r@[j])@ == converted_form(forms@[j]),
        decreases forms.len() - i,
    {
        r.push(convert_word_form_pb_to_dto(&forms[i]));
        i += 1;
    }
    assert(forms_view(r@) =~= converted_forms(forms@));
    r
}

/// The entry that a valid wire entry stands for.
pub fn convert_word_data_pb_to_dto(word_data_pb: &WordDataPb) -> (r: WordData)
    requires
        valid_word(*word_data_pb),
    ensures
        r@ == converted_word(*word_data_pb),
{
    let passives = if word_data_pb.passive.len() == 0 {
        None
    } else {
        Some(convert_forms(&word_data_pb.passive))
    };
    let passive_binyan = match word_data_pb.passive_binyan {
        Some(binyan) => Some(convert_binyan_pb_to_dto(binyan)),
        None => None,
    };
    WordData {
        url_id: word_data_pb.url_id.clone(),
        word: word_data_pb.word.clone(),
        word_en: word_data_pb.word_en.clone(),
        word_normalized: word_data_pb.word_normalized.clone(),
        transcription: word_data_pb.transcription.clone(),
        root: word_data_pb.root.clone(),
        forms: convert_forms(&word_data_pb.forms),
        binyan: convert_binyan_pb_to_dto(word_data_pb.binyan),
        passive: passives,
        passive_binyan,
    }
}

/// The entries that a list of valid wire entries stands for, in order.
pub fn convert_pb_to_dto(src: Vec<WordDataPb>) -> (r: Vec<WordData>)
    requires
        forall|i: int| 0 <= i < src@.len() ==> valid_word(#[trigger] src@[i]),
    ensures
        words_view(r@) == converted_words(src@),
{
    let mut r: Vec<WordData> = Vec::new();
    let mut i: usize = 0;
    while i < src.len()
        invariant
            i <= src.len(),
            r.len() == i,
            forall|j: int| 0 <= j < src@.len() ==> valid_word(#[trigger] src@[j]),
            forall|j: int| 0 <= j < i ==> (#[trigger] r@[j])@ == converted_word(src@[j]),
        decreases src.len() - i,
    {
        r.push(convert_word_data_pb_to_dto(&src[i]));
        i += 1;
    }
    assert(words_view(r@) =~= converted_words(src@));
    r
}

} // verus!
