//! The lexicon's data model: entries, their inflected forms, and the results
//! that queries hand back.
//!
//! Every type has a view that replaces its strings by sequences of code
//! points; contracts throughout the crate speak of those views.

use vstd::prelude::*;

verus! {

/// One inflected surface form of an entry.
pub struct WordForm {
    pub tense: String,
    pub person: String,
    pub number: String,
    pub gender: String,
    pub form: String,
    pub form_normalized: String,
    pub transcription: String,
    pub meaning: String,
    pub form_vowelled: Option<String>,
}

/// The mathematical value of a [`WordForm`].
pub struct WordFormView {
    pub tense: Seq<char>,
    pub person: Seq<char>,
    pub number: Seq<char>,
    pub gender: Seq<char>,
    pub form: Seq<char>,
    pub form_normalized: Seq<char>,
    pub transcription: Seq<char>,
    pub meaning: Seq<char>,
    pub form_vowelled: Option<Seq<char>>,
}

/// The value of an optional string.
pub open spec fn opt_str_view(s: Option<String>) -> Option<Seq<char>> {
    match s {
        Some(t) => Some(t@),
        None => None,
    }
}

/// The values of a list of forms, position by position.
pub open spec fn forms_view(forms: Seq<WordForm>) -> Seq<WordFormView> {
    forms.map_values(|f: WordForm| f@)
}

/// The value of an optional list of forms.
pub open spec fn opt_forms_view(forms: Option<Vec<WordForm>>) -> Option<Seq<WordFormView>> {
    match forms {
        Some(v) => Some(forms_view(v@)),
        None => None,
    }
}

impl View for WordForm {
    type V = WordFormView;

    open spec fn view(&self) -> WordFormView {
        WordFormView {
            tense: self.tense@,
            person: self.person@,
            number: self.number@,
            gender: self.gender@,
            form: self.form@,
            form_normalized: self.form_normalized@,
            transcription: self.transcription@,
            meaning: self.meaning@,
            form_vowelled: opt_str_view(self.form_vowelled),
        }
    }
}

/// Copies an optional string.
pub fn clone_opt_string(s: &Option<String>) -> (r: Option<String>)
    ensures
        opt_str_view(r) == opt_str_view(*s),
{
    match s {
        Some(t) => Some(t.clone()),
        None => None,
    }
}

impl WordForm {
    pub fn new(
        tense: String,
        person: String,
        number: String,
        gender: String,
        form: String,
        form_normalized: String,
        transcription: String,
        meaning: String,
        form_vowelled: Option<String>,
    ) -> (r: WordForm)
        ensures
            r == (WordForm {
                tense,
                person,
                number,
                gender,
                form,
                form_normalized,
                transcription,
                meaning,
                form_vowelled,
            }),
    {
        WordForm {
            tense,
            person,
            number,
            gender,
            form,
            form_normalized,
            transcription,
            meaning,
            form_vowelled,
        }
    }
}

impl Clone for WordForm {
    fn clone(&self) -> (r: Self)
        ensures
            r@ == self@,
    {
        WordForm {
            tense: self.tense.clone(),
            person: self.person.clone(),
            number: self.number.clone(),
            gender: self.gender.clone(),
            form: self.form.clone(),
            form_normalized: self.form_normalized.clone(),
            transcription: self.transcription.clone(),
            meaning: self.meaning.clone(),
            form_vowelled: clone_opt_string(&self.form_vowelled),
        }
    }
}

/// Copies a list of forms.
pub fn clone_forms(forms: &Vec<WordForm>) -> (r: Vec<WordForm>)
    ensures
        forms_view(r@) == forms_view(forms@),
{
    let mut r: Vec<WordForm> = Vec::new();
    let mut i: usize = 0;
    while i < forms.len()
        invariant
            i <= forms.len(),
            r.len() == i,
            forall|j: int| 0 <= j < i ==> (#[trigger] r@[j])@ == forms@[j]@,
        decreases forms.len() - i,
    {
        r.push(forms[i].clone());
        i += 1;
    }
    assert(forms_view(r@) =~= forms_view(forms@));
    r
}

/// A lexical entry: a headword with its translation, root and inflections.
///
/// `root` holds the root letters in order; two roots are the same when their
/// letter sequences are equal.
pub struct WordData {
    pub url_id: String,
    pub word: String,
    pub word_en: String,
    pub word_normalized: String,
    pub transcription: String,
    pub root: String,
    pub forms: Vec<WordForm>,
    pub binyan: String,
    pub passive: Option<Vec<WordForm>>,
    pub passive_binyan: Option<String>,
}

/// The mathematical value of a [`WordData`].
pub struct WordDataView {
    pub url_id: Seq<char>,
    pub word: Seq<char>,
    pub word_en: Seq<char>,
    pub word_normalized: Seq<char>,
    pub transcription: Seq<char>,
    pub root: Seq<char>,
    pub forms: Seq<WordFormView>,
    pub binyan: Seq<char>,
    pub passive: Option<Seq<WordFormView>>,
    pub passive_binyan: Option<Seq<char>>,
}

impl View for WordData {
    type V = WordDataView;

    open spec fn view(&self) -> WordDataView {
        WordDataView {
            url_id: self.url_id@,
            word: self.word@,
            word_en: self.word_en@,
            word_normalized: self.word_normalized@,
            transcription: self.transcription@,
            root: self.root@,
            forms: forms_view(self.forms@),
            binyan: self.binyan@,
            passive: opt_forms_view(self.passive),
            passive_binyan: opt_str_view(self.passive_binyan),
        }
    }
}

/// The values of a list of entries, position by position.
pub open spec fn words_view(words: Seq<WordData>) -> Seq<WordDataView> {
    words.map_values(|w: WordData| w@)
}

impl WordData {
    pub fn new(
        url_id: String,
        word: String,
        word_en: String,
        word_normalized: String,
        transcription: String,
        root: String,
        forms: Vec<WordForm>,
        binyan: String,
        passive: Option<Vec<WordForm>>,
        passive_binyan: Option<String>,
    ) -> (r: WordData)
        ensures
            r == (WordData {
                url_id,
                word,
                word_en,
                word_normalized,
                transcription,
                root,
                forms,
                binyan,
                passive,
                passive_binyan,
            }),
    {
        WordData {
            url_id,
            word,
            word_en,
            word_normalized,
            transcription,
            root,
            forms,
            binyan,
            passive,
            passive_binyan,
        }
    }
}

impl Clone for WordData {
    fn clone(&self) -> (r: Self)
        ensures
            r@ == self@,
    {
        let passive = match &self.passive {
            Some(forms) => Some(clone_forms(forms)),
            None => None,
        };
        WordData {
            url_id: self.url_id.clone(),
            word: self.word.clone(),
            word_en: self.word_en.clone(),
            word_normalized: self.word_normalized.clone(),
            transcription: self.transcription.clone(),
            root: self.root.clone(),
            forms: clone_forms(&self.forms),
            binyan: self.binyan.clone(),
            passive,
            passive_binyan: clone_opt_string(&self.passive_binyan),
        }
    }
}

/// The grammatical slot of an entry that a query string matched.
#[derive(Clone, Copy, Debug, PartialEq, Eq, Structural)]
pub enum FormKind {
    /// The headword itself.
    INFINITIVE,
    /// A position in the entry's list of active forms.
    ACTIVE,
    /// A position in the entry's list of passive forms.
    PASSIVE,
}

impl FormKind {
    /// The number that stands for this kind in [`MatchedForm::kind`].
    pub open spec fn spec_code(self) -> usize {
        match self {
            FormKind::INFINITIVE => 0,
            FormKind::ACTIVE => 1,
            FormKind::PASSIVE => 2,
        }
    }

    /// The number that stands for this kind in [`MatchedForm::kind`].
    #[verifier::when_used_as_spec(spec_code)]
    pub fn code(self) -> (c: usize)
        ensures
            c == self.spec_code(),
    {
        match self {
            FormKind::INFINITIVE => 0,
            FormKind::ACTIVE => 1,
            FormKind::PASSIVE => 2,
        }
    }
}

/// One slot of an entry that a query matched: the slot's kind, as
/// [`FormKind::code`] numbers it, and its position in the list of that kind.
/// For the infinitive, which is in no list, the position is 0.
#[derive(Clone, Copy, Debug, PartialEq, Eq, Structural)]
pub struct MatchedForm {
    pub index: usize,
    pub kind: usize,
}

impl MatchedForm {
    pub fn new(index: usize, kind: usize) -> (r: MatchedForm)
        ensures
            r == (MatchedForm { index, kind }),
    {
        MatchedForm { index, kind }
    }
}

/// An entry together with the slots of it that the query matched.
pub struct SearchResult {
    pub word: WordData,
    pub matching_forms: Vec<MatchedForm>,
}

/// The mathematical value of a [`SearchResult`].
pub struct SearchResultView {
    pub word: WordDataView,
    pub matching_forms: Seq<MatchedForm>,
}

impl View for SearchResult {
    type V = SearchResultView;

    open spec fn view(&self) -> SearchResultView {
        SearchResultView { word: self.word@, matching_forms: self.matching_forms@ }
    }
}

/// The values of a list of results, position by position.
pub open spec fn results_view(results: Seq<SearchResult>) -> Seq<SearchResultView> {
    results.map_values(|r: SearchResult| r@)
}

impl SearchResult {
    pub fn new(word: WordData, matching_forms: Vec<MatchedForm>) -> (r: SearchResult)
        ensures
            r == (SearchResult { word, matching_forms }),
    {
        SearchResult { word, matching_forms }
    }
}

impl Clone for SearchResult {
    fn clone(&self) -> (r: Self)
        ensures
            r@ == self@,
    {
        let mut matching_forms: Vec<MatchedForm> = Vec::new();
        let mut i: usize = 0;
        while i < self.matching_forms.len()
            invariant
                i <= self.matching_forms.len(),
                matching_forms@ == self.matching_forms@.take(i as int),
            decreases self.matching_forms.len() - i,
        {
            matching_forms.push(self.matching_forms[i]);
            i += 1;
        }
        assert(matching_forms@ =~= self.matching_forms@);
        SearchResult { word: self.word.clone(), matching_forms }
    }
}

} // verus!
