//! The search index: built once from a list of entries, then only read.
//!
//! An index stands for the list of entries it was built from. What each
//! query returns is stated over that list alone: which entry an identifier
//! names, which identifiers a surface form, a root or a translation key
//! leads to, and which slots of an entry a query string matches.

use crate::prefix_tree::{is_find_result, reachable, strings_view, Pairs, Trie};
use crate::translation::{
    remove_braces, remove_braces_spec, strip_marker, strip_marker_spec, translations_of,
    translations_spec,
};
use crate::util::{normalize, normalize_spec};
use crate::word_dto::{
    forms_view, results_view, words_view, FormKind, MatchedForm, SearchResult, SearchResultView,
    WordData, WordDataView, WordForm, WordFormView,
};
use vstd::hash_map::StringHashMap;
use vstd::hash_set::StringHashSet;
use vstd::prelude::*;

verus! {

/// The entry that each identifier names: where several records carry one
/// identifier, the last of them.
pub open spec fn master(records: Seq<WordDataView>) -> Map<Seq<char>, WordDataView>
    decreases records.len(),
{
    if records.len() == 0 {
        Map::empty()
    } else {
        master(records.drop_last()).insert(records.last().url_id, records.last())
    }
}

/// The non-empty normalized surfaces of a list of forms.
pub open spec fn form_keys(forms: Seq<WordFormView>) -> Set<Seq<char>> {
    Set::new(
        |key: Seq<char>|
            key.len() > 0 && exists|j: int|
                0 <= j < forms.len() && (#[trigger] forms[j]).form_normalized == key,
    )
}

/// The surfaces under which an entry is found by exact match: its
/// normalized headword, and the non-empty normalized surfaces of its active
/// and passive forms.
pub open spec fn surface_keys(w: WordDataView) -> Set<Seq<char>> {
    set![w.word_normalized].union(form_keys(w.forms)).union(
        match w.passive {
            Some(p) => form_keys(p),
            None => Set::empty(),
        },
    )
}

/// The key under which an entry is grouped by root.
pub open spec fn root_keys(w: WordDataView) -> Set<Seq<char>> {
    set![w.root]
}

/// The keys under which an entry is found by translation.
pub open spec fn translation_keys(w: WordDataView) -> Set<Seq<char>> {
    translations_spec(remove_braces_spec(w.word_en)).to_set()
}

/// The (key, identifier) pairs that a list of records gives when `keys`
/// says under which keys a record is filed.
pub open spec fn filed(
    records: Seq<WordDataView>,
    keys: spec_fn(WordDataView) -> Set<Seq<char>>,
) -> Pairs {
    Set::new(
        |p: (Seq<char>, Seq<char>)|
            exists|i: int|
                0 <= i < records.len() && (#[trigger] records[i]).url_id == p.1 && keys(
                    records[i],
                ).contains(p.0),
    )
}

/// Filing by surface.
pub open spec fn by_surface() -> spec_fn(WordDataView) -> Set<Seq<char>> {
    |w: WordDataView| surface_keys(w)
}

/// Filing by root.
pub open spec fn by_root() -> spec_fn(WordDataView) -> Set<Seq<char>> {
    |w: WordDataView| root_keys(w)
}

/// Filing by translation.
pub open spec fn by_translation() -> spec_fn(WordDataView) -> Set<Seq<char>> {
    |w: WordDataView| translation_keys(w)
}

/// The pairs of the exact-match index and of the source-language trie.
pub open spec fn exact_pairs(records: Seq<WordDataView>) -> Pairs {
    filed(records, by_surface())
}

/// The pairs of the root index.
pub open spec fn root_pairs(records: Seq<WordDataView>) -> Pairs {
    filed(records, by_root())
}

/// The pairs of the translation trie.
pub open spec fn translation_pairs(records: Seq<WordDataView>) -> Pairs {
    filed(records, by_translation())
}

/// The pairs that file one identifier under each of `keys`.
pub open spec fn pairs_of(keys: Set<Seq<char>>, id: Seq<char>) -> Pairs {
    Set::new(|p: (Seq<char>, Seq<char>)| keys.contains(p.0) && p.1 == id)
}

/// The identifiers that `pairs` files under `key`.
pub open spec fn ids_under(pairs: Pairs, key: Seq<char>) -> Set<Seq<char>> {
    Set::new(|id: Seq<char>| pairs.contains((key, id)))
}

/// The test that position `i` of `forms` passes when its normalized surface
/// is `query`.
pub open spec fn surface_is(forms: Seq<WordFormView>, query: Seq<char>) -> spec_fn(int) -> bool {
    |i: int| forms[i].form_normalized == query
}

/// The positions below `n` at which `forms` has the normalized surface
/// `query`, in rising order.
pub open spec fn positions_below(forms: Seq<WordFormView>, query: Seq<char>, n: nat) -> Seq<int> {
    Seq::new(n, |i: int| i).filter(surface_is(forms, query))
}

/// The matches of `query` among the first `n` of `forms`, as slots of the
/// given kind.
pub open spec fn form_matches_below(
    forms: Seq<WordFormView>,
    query: Seq<char>,
    kind: FormKind,
    n: nat,
) -> Seq<MatchedForm> {
    positions_below(forms, query, n).map_values(
        |i: int| MatchedForm { index: i as usize, kind: kind.spec_code() },
    )
}

/// The matches of `query` in `forms`, as slots of the given kind.
pub open spec fn form_matches(forms: Seq<WordFormView>, query: Seq<char>, kind: FormKind) -> Seq<
    MatchedForm,
> {
    form_matches_below(forms, query, kind, forms.len())
}

/// The slot of the headword.
pub open spec fn infinitive_slot() -> MatchedForm {
    MatchedForm { index: 0, kind: FormKind::INFINITIVE.spec_code() }
}

/// The slots of an entry that a normalized query matches: the infinitive
/// if the query is the normalized headword, then every active form, then
/// every passive form, whose normalized surface is the query.
pub open spec fn classify(w: WordDataView, query: Seq<char>) -> Seq<MatchedForm> {
    let infinitive = if w.word_normalized == query {
        seq![infinitive_slot()]
    } else {
        Seq::<MatchedForm>::empty()
    };
    let passive = match w.passive {
        Some(p) => form_matches(p, query, FormKind::PASSIVE),
        None => Seq::<MatchedForm>::empty(),
    };
    infinitive + form_matches(w.forms, query, FormKind::ACTIVE) + passive
}

/// A result names an entry of the index and lists the slots of it that
/// `query` matches.
pub open spec fn decorated(records: Seq<WordDataView>, query: Seq<char>, r: SearchResultView) -> bool {
    &&& master(records).contains_key(r.word.url_id)
    &&& r.word == master(records)[r.word.url_id]
    &&& r.matching_forms == classify(r.word, query)
}

/// The identifiers of a list of results, in order.
pub open spec fn result_ids(rs: Seq<SearchResultView>) -> Seq<Seq<char>> {
    rs.map_values(|r: SearchResultView| r.word.url_id)
}

/// The identifiers of a list of entries, in order.
pub open spec fn entry_ids(ws: Seq<WordDataView>) -> Seq<Seq<char>> {
    ws.map_values(|w: WordDataView| w.url_id)
}

/// No two records carry the same identifier.
pub open spec fn ids_distinct(records: Seq<WordDataView>) -> bool {
    entry_ids(records).no_duplicates()
}

/// What an exact lookup of the normalized `key` may return: one result for
/// each identifier filed under `key`, in any order, each decorated against
/// `key`.
pub open spec fn is_get_result(
    records: Seq<WordDataView>,
    key: Seq<char>,
    rs: Seq<SearchResultView>,
) -> bool {
    &&& result_ids(rs).no_duplicates()
    &&& result_ids(rs).to_set() == ids_under(exact_pairs(records), key)
    &&& forall|i: int| 0 <= i < rs.len() ==> decorated(records, key, #[trigger] rs[i])
}

/// What a lookup by root may return: the entry of each identifier filed
/// under `root`, once, in any order.
pub open spec fn is_root_result(
    records: Seq<WordDataView>,
    root: Seq<char>,
    ws: Seq<WordDataView>,
) -> bool {
    &&& entry_ids(ws).no_duplicates()
    &&& entry_ids(ws).to_set() == ids_under(root_pairs(records), root)
    &&& forall|i: int|
        0 <= i < ws.len() ==> master(records).contains_key((#[trigger] ws[i]).url_id) && ws[i]
            == master(records)[ws[i].url_id]
}

/// What a prefix query on a trie that holds `pairs` may return: the
/// identifiers are a result of the trie's bounded breadth-first query, and
/// each result is decorated against `prefix`.
pub open spec fn is_suggestion(
    records: Seq<WordDataView>,
    pairs: Pairs,
    prefix: Seq<char>,
    limit: int,
    rs: Seq<SearchResultView>,
) -> bool {
    &&& is_find_result(pairs, prefix, limit, result_ids(rs))
    &&& forall|i: int| 0 <= i < rs.len() ==> decorated(records, prefix, #[trigger] rs[i])
}

/// Whether a prefix query on the source-language trie finds anything.
pub open spec fn source_answers(records: Seq<WordDataView>, prefix: Seq<char>, limit: int) -> bool {
    limit > 0 && exists|id: Seq<char>| reachable(exact_pairs(records), prefix, id)
}

/// The slots of the entry named `id` that `text`, once normalized,
/// matches; none where no entry has that name.
pub open spec fn matching_forms_spec(
    records: Seq<WordDataView>,
    id: Seq<char>,
    text: Seq<char>,
) -> Seq<MatchedForm> {
    if master(records).contains_key(id) {
        classify(master(records)[id], normalize_spec(text))
    } else {
        Seq::<MatchedForm>::empty()
    }
}

/// The matches among one more form.
pub proof fn lemma_form_matches_step(
    forms: Seq<WordFormView>,
    query: Seq<char>,
    kind: FormKind,
    n: nat,
)
    requires
        n < forms.len(),
        n <= usize::MAX,
    ensures
        form_matches_below(forms, query, kind, n + 1) == if forms[n as int].form_normalized
            == query {
            form_matches_below(forms, query, kind, n).push(
                MatchedForm { index: n as usize, kind: kind.spec_code() },
            )
        } else {
            form_matches_below(forms, query, kind, n)
        },
        form_matches_below(forms, query, kind, 0) == Seq::<MatchedForm>::empty(),
{
    let id = |i: int| i;
    let slot = |i: int| MatchedForm { index: i as usize, kind: kind.spec_code() };
    let before = Seq::new(n, id);
    assert(Seq::new(n + 1, id) =~= before.push(n as int));
    before.lemma_filter_push(n as int, surface_is(forms, query));
    let kept = before.filter(surface_is(forms, query));
    assert(kept.push(n as int).map_values(slot) =~= kept.map_values(slot).push(slot(n as int)));
    assert(Seq::new(0, id).filter(surface_is(forms, query)) =~= Seq::<int>::empty()) by {
        reveal(Seq::filter);
    }
    assert(form_matches_below(forms, query, kind, 0) =~= Seq::<MatchedForm>::empty());
}

/// Appends to `matches` the slots of `forms` whose normalized surface is
/// `query`.
fn push_form_matches(
    forms: &Vec<WordForm>,
    query: &String,
    kind: FormKind,
    matches: &mut Vec<MatchedForm>,
)
    ensures
        final(matches)@ == old(matches)@ + form_matches(forms_view(forms@), query@, kind),
{
    let ghost fv = forms_view(forms@);
    let ghost start = matches@;
    let mut i: usize = 0;
    proof {
        if forms.len() > 0 {
            lemma_form_matches_step(fv, query@, kind, 0);
        } else {
            assert(form_matches_below(fv, query@, kind, 0) =~= Seq::<MatchedForm>::empty()) by {
                reveal(Seq::filter);
            }
        }
        assert(matches@ =~= start + form_matches_below(fv, query@, kind, 0));
    }
    while i < forms.len()
        invariant
            i <= forms.len(),
            fv == forms_view(forms@),
            matches@ == start + form_matches_below(fv, query@, kind, i as nat),
        decreases forms.len() - i,
    {
        proof {
            lemma_form_matches_step(fv, query@, kind, i as nat);
            assert(fv[i as int] == forms@[i as int]@);
        }
        if forms[i].form_normalized == *query {
            matches.push(MatchedForm { index: i, kind: kind.code() });
            assert(matches@ =~= start + form_matches_below(fv, query@, kind, (i + 1) as nat));
        }
        i += 1;
    }
}

/// One more record files its identifier under its keys.
proof fn lemma_filed_push(
    records: Seq<WordDataView>,
    w: WordDataView,
    keys: spec_fn(WordDataView) -> Set<Seq<char>>,
)
    ensures
        filed(records.push(w), keys) == filed(records, keys).union(pairs_of(keys(w), w.url_id)),
{
    let longer = records.push(w);
    let sum = filed(records, keys).union(pairs_of(keys(w), w.url_id));
    assert forall|p: (Seq<char>, Seq<char>)| filed(longer, keys).contains(p) == sum.contains(
        p,
    ) by {
        if filed(longer, keys).contains(p) {
            let i = choose|i: int|
                0 <= i < longer.len() && (#[trigger] longer[i]).url_id == p.1 && keys(
                    longer[i],
                ).contains(p.0);
            if i < records.len() {
                assert(records[i] == longer[i]);
            }
        }
        if filed(records, keys).contains(p) {
            let i = choose|i: int|
                0 <= i < records.len() && (#[trigger] records[i]).url_id == p.1 && keys(
                    records[i],
                ).contains(p.0);
            assert(longer[i] == records[i]);
        }
        if pairs_of(keys(w), w.url_id).contains(p) {
            assert(longer[records.len() as int] == w);
        }
    }
    assert(filed(longer, keys) =~= sum);
}

/// No record files nothing.
proof fn lemma_filed_empty(keys: spec_fn(WordDataView) -> Set<Seq<char>>)
    ensures
        filed(Seq::<WordDataView>::empty(), keys) == Set::<(Seq<char>, Seq<char>)>::empty(),
{
    assert(filed(Seq::<WordDataView>::empty(), keys) =~= Set::<(Seq<char>, Seq<char>)>::empty());
}

/// An identifier that is filed anywhere names an entry.
pub proof fn lemma_filed_ids_are_known(
    records: Seq<WordDataView>,
    keys: spec_fn(WordDataView) -> Set<Seq<char>>,
    key: Seq<char>,
    id: Seq<char>,
)
    requires
        filed(records, keys).contains((key, id)),
    ensures
        master(records).contains_key(id),
        master(records)[id].url_id == id,
{
    let i = choose|i: int|
        0 <= i < records.len() && (#[trigger] records[i]).url_id == id && keys(
            records[i],
        ).contains(key);
    lemma_master_holds(records, i);
}

/// Every record's identifier names an entry, and that entry carries the
/// identifier.
pub proof fn lemma_master_holds(records: Seq<WordDataView>, i: int)
    requires
        0 <= i < records.len(),
    ensures
        master(records).contains_key(records[i].url_id),
        master(records)[records[i].url_id].url_id == records[i].url_id,
    decreases records.len(),
{
    if i < records.len() - 1 {
        lemma_master_holds(records.drop_last(), i);
    }
}

/// The pairs that a map from keys to lists of identifiers holds.
spec fn listed(m: Map<Seq<char>, Vec<String>>) -> Pairs {
    Set::new(
        |p: (Seq<char>, Seq<char>)| m.contains_key(p.0) && strings_view(m[p.0]@).contains(p.1),
    )
}

/// No list of the map holds an identifier twice.
spec fn lists_distinct(m: Map<Seq<char>, Vec<String>>) -> bool {
    forall|key: Seq<char>| #[trigger] m.contains_key(key) ==> strings_view(m[key]@).no_duplicates()
}

/// The stored entries are the entries of the model.
spec fn entries_model(data: Map<Seq<char>, WordData>, model: Map<Seq<char>, WordDataView>) -> bool {
    &&& forall|id: Seq<char>| #[trigger] data.contains_key(id) <==> model.contains_key(id)
    &&& forall|id: Seq<char>| #[trigger] model.contains_key(id) ==> data[id]@ == model[id]
}

/// Whether `list` holds `s`.
fn contains_string(list: &Vec<String>, s: &String) -> (b: bool)
    ensures
        b == strings_view(list@).contains(s@),
{
    let mut i: usize = 0;
    while i < list.len()
        invariant
            i <= list.len(),
            forall|j: int| 0 <= j < i ==> strings_view(list@)[j] != s@,
        decreases list.len() - i,
    {
        if list[i] == *s {
            assert(strings_view(list@)[i as int] == s@);
            return true;
        }
        i += 1;
    }
    false
}

/// A copy of a list of strings.
fn clone_strings(list: &Vec<String>) -> (r: Vec<String>)
    ensures
        strings_view(r@) == strings_view(list@),
{
    let mut r: Vec<String> = Vec::new();
    let mut i: usize = 0;
    while i < list.len()
        invariant
            i <= list.len(),
            r.len() == i,
            forall|j: int| 0 <= j < i ==> (#[trigger] r@[j])@ == list@[j]@,
        decreases list.len() - i,
    {
        r.push(list[i].clone());
        i += 1;
    }
    assert(strings_view(r@) =~= strings_view(list@));
    r
}

/// Files `id` under `key`, unless it is filed there already.
fn file_under(map: &mut StringHashMap<Vec<String>>, key: &String, id: &String)
    requires
        lists_distinct(old(map)@),
    ensures
        lists_distinct(final(map)@),
        listed(final(map)@) == listed(old(map)@).insert((key@, id@)),
{
    let ghost before = map@;
    let ghost goal = listed(before).insert((key@, id@));
    let list: Option<Vec<String>> = match map.get(key.as_str()) {
        Some(ids) => {
            if contains_string(ids, id) {
                None
            } else {
                let mut longer = clone_strings(ids);
                longer.push(id.clone());
                proof {
                    assert(strings_view(longer@) =~= strings_view(ids@).push(id@));
                }
                Some(longer)
            }
        },
        None => {
            let mut single: Vec<String> = Vec::new();
            single.push(id.clone());
            proof {
                assert(strings_view(single@) =~= seq![id@]);
            }
            Some(single)
        },
    };
    match list {
        Some(ids) => {
            let ghost new_ids = strings_view(ids@);
            let ghost old_ids = if before.contains_key(key@) {
                strings_view(before[key@]@)
            } else {
                Seq::<Seq<char>>::empty()
            };
            assert(new_ids =~= old_ids.push(id@));
            assert(!old_ids.contains(id@));
            assert(new_ids.no_duplicates());
            map.insert(key.clone(), ids);
            proof {
                let after = map@;
                assert forall|p: (Seq<char>, Seq<char>)| listed(after).contains(p)
                    == goal.contains(p) by {
                    if p.0 == key@ {
                        if listed(after).contains(p) {
                            let i = choose|i: int| 0 <= i < new_ids.len() && new_ids[i] == p.1;
                            if i < old_ids.len() {
                                assert(old_ids[i] == p.1);
                            }
                        }
                        if goal.contains(p) {
                            if p.1 == id@ {
                                assert(new_ids[old_ids.len() as int] == p.1);
                            } else {
                                let i = choose|i: int| 0 <= i < old_ids.len() && old_ids[i] == p.1;
                                assert(new_ids[i] == p.1);
                            }
                        }
                    } else {
                        assert(after.contains_key(p.0) == before.contains_key(p.0));
                    }
                }
                assert(listed(after) =~= goal);
                assert forall|k: Seq<char>| #[trigger] after.contains_key(k) implies strings_view(
                    after[k]@,
                ).no_duplicates() by {
                    if k != key@ {
                        assert(before.contains_key(k));
                    }
                }
            }
        },
        None => {
            proof {
                assert(listed(before).contains((key@, id@)));
                assert(listed(before) =~= goal);
            }
        },
    }
}


/// The surfaces of one more form.
proof fn lemma_form_keys_push(forms: Seq<WordFormView>, f: WordFormView)
    ensures
        form_keys(forms.push(f)) == if f.form_normalized.len() > 0 {
            form_keys(forms).insert(f.form_normalized)
        } else {
            form_keys(forms)
        },
{
    let longer = forms.push(f);
    let goal = if f.form_normalized.len() > 0 {
        form_keys(forms).insert(f.form_normalized)
    } else {
        form_keys(forms)
    };
    assert forall|key: Seq<char>| form_keys(longer).contains(key) == goal.contains(key) by {
        if form_keys(longer).contains(key) {
            let j = choose|j: int|
                0 <= j < longer.len() && (#[trigger] longer[j]).form_normalized == key;
            if j < forms.len() {
                assert(forms[j] == longer[j]);
            }
        }
        if form_keys(forms).contains(key) {
            let j = choose|j: int|
                0 <= j < forms.len() && (#[trigger] forms[j]).form_normalized == key;
            assert(longer[j] == forms[j]);
        }
        if f.form_normalized.len() > 0 && key == f.form_normalized {
            assert(longer[forms.len() as int] == f);
        }
    }
    assert(form_keys(longer) =~= goal);
}

/// Files `id` under the non-empty normalized surface of each of `forms`,
/// in the exact-match index and in the trie.
fn file_forms(
    index: &mut StringHashMap<Vec<String>>,
    trie: &mut Trie,
    forms: &Vec<WordForm>,
    id: &String,
)
    requires
        lists_distinct(old(index)@),
    ensures
        lists_distinct(final(index)@),
        listed(final(index)@) == listed(old(index)@).union(
            pairs_of(form_keys(forms_view(forms@)), id@),
        ),
        final(trie)@ == old(trie)@.union(pairs_of(form_keys(forms_view(forms@)), id@)),
{
    let ghost fv = forms_view(forms@);
    let ghost index_base = listed(index@);
    let ghost trie_base = trie@;
    let mut j: usize = 0;
    proof {
        assert(fv.take(0) =~= Seq::<WordFormView>::empty());
        assert(form_keys(fv.take(0)) =~= Set::<Seq<char>>::empty());
        assert(listed(index@) =~= index_base.union(pairs_of(form_keys(fv.take(0)), id@)));
        assert(trie@ =~= trie_base.union(pairs_of(form_keys(fv.take(0)), id@)));
    }
    while j < forms.len()
        invariant
            j <= forms.len(),
            fv == forms_view(forms@),
            lists_distinct(index@),
            listed(index@) == index_base.union(pairs_of(form_keys(fv.take(j as int)), id@)),
            trie@ == trie_base.union(pairs_of(form_keys(fv.take(j as int)), id@)),
        decreases forms.len() - j,
    {
        let surface = &forms[j].form_normalized;
        let ghost seen = form_keys(fv.take(j as int));
        proof {
            lemma_form_keys_push(fv.take(j as int), fv[j as int]);
            assert(fv.take(j + 1) =~= fv.take(j as int).push(fv[j as int]));
            assert(fv[j as int].form_normalized == surface@);
        }
        if !surface.as_str().is_empty() {
            file_under(index, surface, id);
            trie.insert(surface.clone(), id.clone());
            proof {
                let more = pairs_of(seen.insert(surface@), id@);
                assert(index_base.union(pairs_of(seen, id@)).insert((surface@, id@))
                    =~= index_base.union(more));
                assert(trie_base.union(pairs_of(seen, id@)).insert((surface@, id@))
                    =~= trie_base.union(more));
            }
        }
        j += 1;
    }
    assert(fv.take(forms.len() as int) =~= fv);
}

/// Files an entry's identifier under each of its surfaces, in the
/// exact-match index and in the trie.
fn file_surfaces(index: &mut StringHashMap<Vec<String>>, trie: &mut Trie, word: &WordData)
    requires
        lists_distinct(old(index)@),
    ensures
        lists_distinct(final(index)@),
        listed(final(index)@) == listed(old(index)@).union(
            pairs_of(surface_keys(word@), word.url_id@),
        ),
        final(trie)@ == old(trie)@.union(pairs_of(surface_keys(word@), word.url_id@)),
{
    let ghost index_base = listed(index@);
    let ghost trie_base = trie@;
    let ghost id = word.url_id@;
    let ghost headword = set![word.word_normalized@];
    let ghost active = form_keys(forms_view(word.forms@));
    file_under(index, &word.word_normalized, &word.url_id);
    trie.insert(word.word_normalized.clone(), word.url_id.clone());
    proof {
        assert(index_base.insert((word.word_normalized@, id)) =~= index_base.union(
            pairs_of(headword, id),
        ));
        assert(trie_base.insert((word.word_normalized@, id)) =~= trie_base.union(
            pairs_of(headword, id),
        ));
    }
    file_forms(index, trie, &word.forms, &word.url_id);
    proof {
        let both = pairs_of(headword.union(active), id);
        assert(index_base.union(pairs_of(headword, id)).union(pairs_of(active, id))
            =~= index_base.union(both));
        assert(trie_base.union(pairs_of(headword, id)).union(pairs_of(active, id))
            =~= trie_base.union(both));
    }
    match &word.passive {
        Some(forms) => {
            file_forms(index, trie, forms, &word.url_id);
            proof {
                let passive = form_keys(forms_view(forms@));
                let all = pairs_of(headword.union(active).union(passive), id);
                assert(index_base.union(pairs_of(headword.union(active), id)).union(
                    pairs_of(passive, id),
                ) =~= index_base.union(all));
                assert(trie_base.union(pairs_of(headword.union(active), id)).union(
                    pairs_of(passive, id),
                ) =~= trie_base.union(all));
            }
        },
        None => {
            proof {
                assert(headword.union(active).union(Set::<Seq<char>>::empty())
                    =~= headword.union(active));
            }
        },
    }
}

/// Files an entry's identifier in the translation trie, under each search
/// key of its translation.
fn file_translations(trie: &mut Trie, word: &WordData)
    ensures
        final(trie)@ == old(trie)@.union(pairs_of(translation_keys(word@), word.url_id@)),
{
    let translations = WordIndex::get_translations(word);
    let ghost tv = strings_view(translations@);
    let ghost base = trie@;
    let ghost id = word.url_id@;
    let mut k: usize = 0;
    proof {
        assert(tv.take(0).to_set() =~= Set::<Seq<char>>::empty());
        assert(trie@ =~= base.union(pairs_of(tv.take(0).to_set(), id)));
    }
    while k < translations.len()
        invariant
            k <= translations.len(),
            tv == strings_view(translations@),
            id == word.url_id@,
            trie@ == base.union(pairs_of(tv.take(k as int).to_set(), id)),
        decreases translations.len() - k,
    {
        let ghost seen = tv.take(k as int).to_set();
        trie.insert(translations[k].clone(), word.url_id.clone());
        proof {
            let key = tv[k as int];
            let next = tv.take(k + 1);
            assert(next.to_set() =~= seen.insert(key)) by {
                assert forall|x: Seq<char>| next.to_set().contains(x) == seen.insert(
                    key,
                ).contains(x) by {
                    if next.to_set().contains(x) {
                        let i = choose|i: int| 0 <= i < next.len() && next[i] == x;
                        if i < k {
                            assert(tv.take(k as int)[i] == x);
                        }
                    }
                    if seen.contains(x) {
                        let i = choose|i: int| 0 <= i < k && tv.take(k as int)[i] == x;
                        assert(next[i] == x);
                    }
                    if x == key {
                        assert(next[k as int] == x);
                    }
                }
            }
            assert(base.union(pairs_of(seen, id)).insert((key, id)) =~= base.union(
                pairs_of(seen.insert(key), id),
            ));
        }
        k += 1;
    }
    assert(tv.take(translations.len() as int) =~= tv);
}

/// The structures of an index hold what the list of records calls for.
spec fn models(
    data: Map<Seq<char>, WordData>,
    index: Map<Seq<char>, Vec<String>>,
    roots_index: Map<Seq<char>, Vec<String>>,
    prefix_tree: Pairs,
    prefix_tree_en: Pairs,
    records: Seq<WordDataView>,
) -> bool {
    &&& entries_model(data, master(records))
    &&& lists_distinct(index)
    &&& listed(index) == exact_pairs(records)
    &&& lists_distinct(roots_index)
    &&& listed(roots_index) == root_pairs(records)
    &&& prefix_tree == exact_pairs(records)
    &&& prefix_tree_en == translation_pairs(records)
}

/// A search index over a list of entries.
pub struct WordIndex {
    data: StringHashMap<WordData>,
    index: StringHashMap<Vec<String>>,
    roots_index: StringHashMap<Vec<String>>,
    prefix_tree: Trie,
    prefix_tree_en: Trie,
    records: Ghost<Seq<WordDataView>>,
}

impl View for WordIndex {
    type V = Seq<WordDataView>;

    /// The entries that the index was built from, in the order given.
    closed spec fn view(&self) -> Seq<WordDataView> {
        self.records@
    }
}

impl WordIndex {
    /// Every structure of the index holds what the records call for; so
    /// every identifier found in a derived structure names a stored entry.
    #[verifier::type_invariant]
    spec fn wf(self) -> bool {
        models(
            self.data@,
            self.index@,
            self.roots_index@,
            self.prefix_tree@,
            self.prefix_tree_en@,
            self.records@,
        )
    }

    /// The identifiers that an exact lookup of `key` lists, in the order in
    /// which it lists them. A function of the index alone.
    pub closed spec fn exact_list(&self, key: Seq<char>) -> Seq<Seq<char>> {
        if self.index@.contains_key(key) {
            strings_view(self.index@[key]@)
        } else {
            Seq::<Seq<char>>::empty()
        }
    }

    /// The identifiers that a lookup by `root` lists, in the order in which
    /// it lists them. A function of the index alone.
    pub closed spec fn root_list(&self, root: Seq<char>) -> Seq<Seq<char>> {
        if self.roots_index@.contains_key(root) {
            strings_view(self.roots_index@[root]@)
        } else {
            Seq::<Seq<char>>::empty()
        }
    }

    /// The identifiers that the source-language trie finds, in order. A
    /// function of the index alone.
    pub closed spec fn source_ids(&self, prefix: Seq<char>, limit: int) -> Seq<Seq<char>> {
        self.prefix_tree.find_spec(prefix, limit)
    }

    /// The identifiers that the translation trie finds, in order. A
    /// function of the index alone.
    pub closed spec fn translation_ids(&self, prefix: Seq<char>, limit: int) -> Seq<Seq<char>> {
        self.prefix_tree_en.find_spec(prefix, limit)
    }

    /// Builds the index of `words`. Where two of them carry the same
    /// identifier, the later one is the entry that the identifier names.
    pub fn build(words: Vec<WordData>) -> (index: WordIndex)
        ensures
            index@ == words_view(words@),
    {
        let mut data_index: StringHashMap<WordData> = StringHashMap::new();
        let mut hebrew_index: StringHashMap<Vec<String>> = StringHashMap::new();
        let mut roots_index: StringHashMap<Vec<String>> = StringHashMap::new();
        let mut trie = Trie::new();
        let mut translation_index = Trie::new();
        let ghost all = words_view(words@);
        let mut i: usize = 0;
        proof {
            let none = all.take(0);
            assert(none =~= Seq::<WordDataView>::empty());
            lemma_filed_empty(by_surface());
            lemma_filed_empty(by_root());
            lemma_filed_empty(by_translation());
            assert(listed(hebrew_index@) =~= exact_pairs(none));
            assert(listed(roots_index@) =~= root_pairs(none));
        }
        while i < words.len()
            invariant
                i <= words.len(),
                all == words_view(words@),
                models(
                    data_index@,
                    hebrew_index@,
                    roots_index@,
                    trie@,
                    translation_index@,
                    all.take(i as int),
                ),
            decreases words.len() - i,
        {
            let word = &words[i];
            let ghost before = all.take(i as int);
            let ghost w = word@;
            proof {
                assert(all[i as int] == w);
                assert(all.take(i + 1) =~= before.push(w));
                assert(before.push(w).drop_last() =~= before);
                lemma_filed_push(before, w, by_surface());
                lemma_filed_push(before, w, by_root());
                lemma_filed_push(before, w, by_translation());
            }
            data_index.insert(word.url_id.clone(), word.clone());
            file_under(&mut roots_index, &word.root, &word.url_id);
            proof {
                assert(root_pairs(before).insert((w.root, w.url_id)) =~= root_pairs(before).union(
                    pairs_of(root_keys(w), w.url_id),
                ));
            }
            file_translations(&mut translation_index, word);
            file_surfaces(&mut hebrew_index, &mut trie, word);
            i += 1;
        }
        assert(all.take(words.len() as int) =~= all);
        WordIndex {
            data: data_index,
            index: hebrew_index,
            roots_index,
            prefix_tree: trie,
            prefix_tree_en: translation_index,
            records: Ghost(all),
        }
    }

    /// The position of the first record that carries an identifier which
    /// an earlier record carries too; `None` where identifiers are distinct.
    /// [`WordIndex::build`] accepts such a list and lets the later record
    /// win; a host that wants to refuse it asks here first.
    pub fn first_duplicate(words: &Vec<WordData>) -> (r: Option<usize>)
        ensures
            match r {
                None => ids_distinct(words_view(words@)),
                Some(j) => j < words.len() && ids_distinct(words_view(words@).take(j as int))
                    && exists|i: int|
                    0 <= i < j && (#[trigger] words_view(words@)[i]).url_id == words_view(
                        words@,
                    )[j as int].url_id,
            },
    {
        let ghost all = words_view(words@);
        let mut seen = StringHashSet::new();
        let mut j: usize = 0;
        proof {
            assert(entry_ids(all.take(0)) =~= Seq::<Seq<char>>::empty());
            assert(seen@ =~= entry_ids(all.take(0)).to_set());
        }
        while j < words.len()
            invariant
                j <= words.len(),
                all == words_view(words@),
                ids_distinct(all.take(j as int)),
                seen@ == entry_ids(all.take(j as int)).to_set(),
            decreases words.len() - j,
        {
            let ghost before = entry_ids(all.take(j as int));
            let ghost id = all[j as int].url_id;
            proof {
                assert(all[j as int] == words@[j as int]@);
                assert(entry_ids(all.take(j + 1)) =~= before.push(id));
            }
            if seen.contains(words[j].url_id.as_str()) {
                proof {
                    let i = choose|i: int| 0 <= i < before.len() && before[i] == id;
                    assert(all.take(j as int)[i] == all[i]);
                    assert(all[i].url_id == id);
                }
                return Some(j);
            }
            seen.insert(words[j].url_id.clone());
            proof {
                assert(!before.contains(id));
                assert(before.push(id).no_duplicates());
                assert(before.push(id).to_set() =~= before.to_set().insert(id)) by {
                    let after = before.push(id);
                    assert forall|x: Seq<char>| after.to_set().contains(x) == before.to_set().insert(
                        id,
                    ).contains(x) by {
                        if after.to_set().contains(x) {
                            let i = choose|i: int| 0 <= i < after.len() && after[i] == x;
                            if i < before.len() {
                                assert(before[i] == x);
                            }
                        }
                        if before.contains(x) {
                            let i = choose|i: int| 0 <= i < before.len() && before[i] == x;
                            assert(after[i] == x);
                        }
                        if x == id {
                            assert(after[before.len() as int] == x);
                        }
                    }
                }
            }
            j += 1;
        }
        assert(all.take(words.len() as int) =~= all);
        None
    }

    /// The search keys of an entry's translation: its parenthetical
    /// remarks go, the rest is cut at punctuation, each piece is trimmed
    /// and loses a leading infinitive marker, and what is then empty is
    /// dropped.
    pub fn get_translations(word_data: &WordData) -> (r: Vec<String>)
        ensures
            strings_view(r@) == translations_spec(remove_braces_spec(word_data.word_en@)),
    {
        let no_braces = remove_braces(word_data.word_en.as_str());
        translations_of(no_braces.as_str())
    }

    /// The slots of `word_data` that the normalized query `form_str_norm`
    /// matches: the infinitive first, then active forms by position, then
    /// passive forms by position.
    pub fn matching_forms_inner(word_data: &WordData, form_str_norm: &str) -> (r: Vec<MatchedForm>)
        ensures
            r@ == classify(word_data@, form_str_norm@),
    {
        let query = form_str_norm.to_owned();
        let mut matches: Vec<MatchedForm> = Vec::new();
        if word_data.word_normalized == query {
            matches.push(MatchedForm { index: 0, kind: FormKind::INFINITIVE.code() });
        }
        proof {
            let infinitive = if word_data@.word_normalized == query@ {
                seq![infinitive_slot()]
            } else {
                Seq::<MatchedForm>::empty()
            };
            assert(matches@ =~= infinitive);
        }
        push_form_matches(&word_data.forms, &query, FormKind::ACTIVE, &mut matches);
        match &word_data.passive {
            Some(passive) => {
                push_form_matches(passive, &query, FormKind::PASSIVE, &mut matches);
            },
            None => {
                assert(matches@ =~= matches@ + Seq::<MatchedForm>::empty());
            },
        }
        matches
    }

    /// Copies of the entries that `ids` name, in the order of `ids`.
    fn collect_word_data_by_ids(&self, ids: &Vec<String>) -> (r: Vec<WordData>)
        requires
            forall|i: int|
                0 <= i < ids.len() ==> master(self@).contains_key(#[trigger] strings_view(ids@)[i]),
        ensures
            r.len() == ids.len(),
            forall|i: int|
                0 <= i < r.len() ==> (#[trigger] r@[i])@ == master(self@)[strings_view(ids@)[i]],
    {
        proof {
            use_type_invariant(self);
        }
        let mut r: Vec<WordData> = Vec::new();
        let mut i: usize = 0;
        while i < ids.len()
            invariant
                i <= ids.len(),
                r.len() == i,
                entries_model(self.data@, master(self@)),
                forall|j: int|
                    0 <= j < ids.len() ==> master(self@).contains_key(
                        #[trigger] strings_view(ids@)[j],
                    ),
                forall|j: int|
                    0 <= j < i ==> (#[trigger] r@[j])@ == master(self@)[strings_view(ids@)[j]],
            decreases ids.len() - i,
        {
            proof {
                assert(master(self@).contains_key(strings_view(ids@)[i as int]));
                assert(self.data@.contains_key(ids@[i as int]@));
            }
            let entry = self.data.get(ids[i].as_str()).unwrap();
            r.push(entry.clone());
            i += 1;
        }
        r
    }

    /// A result for each of `ids`, in order, decorated against `query`.
    fn search_results(&self, ids: &Vec<String>, query: &str) -> (r: Vec<SearchResult>)
        requires
            forall|i: int|
                0 <= i < ids.len() ==> master(self@).contains_key(#[trigger] strings_view(ids@)[i])
                    && master(self@)[strings_view(ids@)[i]].url_id == strings_view(ids@)[i],
        ensures
            result_ids(results_view(r@)) == strings_view(ids@),
            forall|i: int|
                0 <= i < r.len() ==> decorated(self@, query@, #[trigger] results_view(r@)[i]),
    {
        let entries = self.collect_word_data_by_ids(ids);
        let mut r: Vec<SearchResult> = Vec::new();
        let mut i: usize = 0;
        while i < entries.len()
            invariant
                i <= entries.len(),
                entries.len() == ids.len(),
                r.len() == i,
                forall|j: int|
                    0 <= j < ids.len() ==> master(self@).contains_key(
                        #[trigger] strings_view(ids@)[j],
                    ) && master(self@)[strings_view(ids@)[j]].url_id == strings_view(ids@)[j],
                forall|j: int|
                    0 <= j < entries.len() ==> (#[trigger] entries@[j])@ == master(
                        self@,
                    )[strings_view(ids@)[j]],
                forall|j: int|
                    0 <= j < i ==> (#[trigger] r@[j])@.word == entries@[j]@ && r@[j]@.matching_forms
                        == classify(entries@[j]@, query@),
            decreases entries.len() - i,
        {
            let word = entries[i].clone();
            let matching_forms = WordIndex::matching_forms_inner(&word, query);
            r.push(SearchResult { word, matching_forms });
            i += 1;
        }
        proof {
            let rv = results_view(r@);
            assert forall|j: int| 0 <= j < r.len() implies decorated(
                self@,
                query@,
                #[trigger] rv[j],
            ) && result_ids(rv)[j] == strings_view(ids@)[j] by {
                assert(rv[j] == r@[j]@);
                assert(entries@[j]@ == master(self@)[strings_view(ids@)[j]]);
            }
            assert(result_ids(rv) =~= strings_view(ids@));
        }
        r
    }

    /// The entries whose root is `root`, each once, in no particular order.
    /// The root is looked up as given.
    pub fn get_by_root(&self, root: &str) -> (r: Vec<WordData>)
        ensures
            is_root_result(self@, root@, words_view(r@)),
            entry_ids(words_view(r@)) == self.root_list(root@),
    {
        proof {
            use_type_invariant(self);
        }
        match self.roots_index.get(root) {
            Some(ids) => {
                let ghost idv = strings_view(ids@);
                proof {
                    assert forall|i: int| 0 <= i < ids.len() implies master(self@).contains_key(
                        #[trigger] strings_view(ids@)[i],
                    ) && master(self@)[idv[i]].url_id == idv[i] by {
                        assert(listed(self.roots_index@).contains((root@, idv[i])));
                        lemma_filed_ids_are_known(self@, by_root(), root@, idv[i]);
                    }
                }
                let r = self.collect_word_data_by_ids(ids);
                proof {
                    let wv = words_view(r@);
                    assert forall|i: int| 0 <= i < wv.len() implies entry_ids(wv)[i] == idv[i]
                        && master(self@).contains_key((#[trigger] wv[i]).url_id) && wv[i]
                        == master(self@)[wv[i].url_id] by {
                        assert(wv[i] == r@[i]@);
                        assert(master(self@).contains_key(strings_view(ids@)[i]));
                    }
                    assert(entry_ids(wv) =~= idv);
                    assert(idv.to_set() =~= ids_under(root_pairs(self@), root@)) by {
                        assert forall|id: Seq<char>| idv.to_set().contains(id) == ids_under(
                            root_pairs(self@),
                            root@,
                        ).contains(id) by {
                            assert(listed(self.roots_index@).contains((root@, id))
                                == idv.contains(id));
                        }
                    }
                }
                r
            },
            None => {
                let r: Vec<WordData> = Vec::new();
                proof {
                    let wv = words_view(r@);
                    assert(entry_ids(wv) =~= Seq::<Seq<char>>::empty());
                    assert forall|id: Seq<char>| !ids_under(root_pairs(self@), root@).contains(
                        id,
                    ) by {
                        assert(!listed(self.roots_index@).contains((root@, id)));
                    }
                    assert(entry_ids(wv).to_set() =~= ids_under(root_pairs(self@), root@));
                }
                r
            },
        }
    }

    /// The entries filed under the surface `word_norm`, which is taken to
    /// be in canonical form already, each decorated with the slots that
    /// `word_norm` matches.
    pub fn get_normalized(&self, word_norm: &str) -> (r: Vec<SearchResult>)
        ensures
            is_get_result(self@, word_norm@, results_view(r@)),
            result_ids(results_view(r@)) == self.exact_list(word_norm@),
    {
        proof {
            use_type_invariant(self);
        }
        match self.index.get(word_norm) {
            Some(ids) => {
                let ghost idv = strings_view(ids@);
                proof {
                    assert forall|i: int| 0 <= i < ids.len() implies master(self@).contains_key(
                        #[trigger] strings_view(ids@)[i],
                    ) && master(self@)[idv[i]].url_id == idv[i] by {
                        assert(listed(self.index@).contains((word_norm@, idv[i])));
                        lemma_filed_ids_are_known(self@, by_surface(), word_norm@, idv[i]);
                    }
                }
                let r = self.search_results(ids, word_norm);
                proof {
                    assert(idv.to_set() =~= ids_under(exact_pairs(self@), word_norm@)) by {
                        assert forall|id: Seq<char>| idv.to_set().contains(id) == ids_under(
                            exact_pairs(self@),
                            word_norm@,
                        ).contains(id) by {
                            assert(listed(self.index@).contains((word_norm@, id)) == idv.contains(
                                id,
                            ));
                        }
                    }
                }
                r
            },
            None => {
                let r: Vec<SearchResult> = Vec::new();
                proof {
                    let rv = results_view(r@);
                    assert(result_ids(rv) =~= Seq::<Seq<char>>::empty());
                    assert forall|id: Seq<char>| !ids_under(
                        exact_pairs(self@),
                        word_norm@,
                    ).contains(id) by {
                        assert(!listed(self.index@).contains((word_norm@, id)));
                    }
                    assert(result_ids(rv).to_set() =~= ids_under(exact_pairs(self@), word_norm@));
                }
                r
            },
        }
    }

    /// The entries that have `word`, once normalized, as their headword or
    /// as one of their forms: one result for each, in no particular order,
    /// with the slots that matched.
    pub fn get(&self, word: &str) -> (r: Vec<SearchResult>)
        ensures
            is_get_result(self@, normalize_spec(word@), results_view(r@)),
            result_ids(results_view(r@)) == self.exact_list(normalize_spec(word@)),
    {
        let word_norm = normalize(word);
        self.get_normalized(word_norm.as_str())
    }

    /// Results for the identifiers that `trie` finds below `prefix_norm`.
    fn suggest_from(&self, trie: &Trie, prefix_norm: &str, limit: usize, Ghost(keys): Ghost<
        spec_fn(WordDataView) -> Set<Seq<char>>,
    >) -> (r: Vec<SearchResult>)
        requires
            trie@ == filed(self@, keys),
        ensures
            is_suggestion(self@, filed(self@, keys), prefix_norm@, limit as int, results_view(r@)),
            result_ids(results_view(r@)) == trie.find_spec(prefix_norm@, limit as int),
    {
        let ids = trie.find(prefix_norm, limit);
        proof {
            let idv = strings_view(ids@);
            assert forall|i: int| 0 <= i < ids.len() implies master(self@).contains_key(
                #[trigger] strings_view(ids@)[i],
            ) && master(self@)[idv[i]].url_id == idv[i] by {
                assert(reachable(trie@, prefix_norm@, idv[i]));
                let key = choose|key: Seq<char>|
                    prefix_norm@.is_prefix_of(key) && #[trigger] trie@.contains((key, idv[i]));
                lemma_filed_ids_are_known(self@, keys, key, idv[i]);
            }
        }
        self.search_results(&ids, prefix_norm)
    }

    /// The entries with a surface that starts with `prefix_norm`, which is
    /// taken to be in canonical form already: at most `limit` of them, those
    /// with the shortest such surface first.
    pub fn suggest_hebrew(&self, prefix_norm: &str, limit: usize) -> (r: Vec<SearchResult>)
        ensures
            is_suggestion(self@, exact_pairs(self@), prefix_norm@, limit as int, results_view(r@)),
            result_ids(results_view(r@)) == self.source_ids(prefix_norm@, limit as int),
    {
        proof {
            use_type_invariant(self);
        }
        self.suggest_from(&self.prefix_tree, prefix_norm, limit, Ghost(by_surface()))
    }

    /// The entries with a translation key that starts with `prefix_norm`:
    /// at most `limit` of them, those with the shortest such key first.
    pub fn suggest_by_translation(&self, prefix_norm: &str, limit: usize) -> (r: Vec<SearchResult>)
        ensures
            is_suggestion(
                self@,
                translation_pairs(self@),
                prefix_norm@,
                limit as int,
                results_view(r@),
            ),
            result_ids(results_view(r@)) == self.translation_ids(prefix_norm@, limit as int),
    {
        proof {
            use_type_invariant(self);
        }
        self.suggest_from(&self.prefix_tree_en, prefix_norm, limit, Ghost(by_translation()))
    }

    /// Suggestions for a prefix as typed: the prefix is normalized and
    /// loses a leading infinitive marker; the source-language trie
    /// answers, and only where it finds nothing does the translation trie.
    pub fn suggest(&self, prefix: &str, limit: usize) -> (r: Vec<SearchResult>)
        ensures
            ({
                let p = strip_marker_spec(normalize_spec(prefix@));
                is_suggestion(
                    self@,
                    if source_answers(self@, p, limit as int) {
                        exact_pairs(self@)
                    } else {
                        translation_pairs(self@)
                    },
                    p,
                    limit as int,
                    results_view(r@),
                ) && result_ids(results_view(r@)) == if source_answers(self@, p, limit as int) {
                    self.source_ids(p, limit as int)
                } else {
                    self.translation_ids(p, limit as int)
                }
            }),
    {
        let normalized = normalize(prefix);
        let prefix_norm = strip_marker(normalized.as_str());
        let suggestions = self.suggest_hebrew(prefix_norm.as_str(), limit);
        let ghost p = prefix_norm@;
        let ghost found = result_ids(results_view(suggestions@));
        if suggestions.is_empty() {
            proof {
                assert(found.len() == 0);
                if source_answers(self@, p, limit as int) {
                    let id = choose|id: Seq<char>| reachable(exact_pairs(self@), p, id);
                    assert(found.contains(id));
                }
            }
            self.suggest_by_translation(prefix_norm.as_str(), limit)
        } else {
            proof {
                assert(found.len() > 0);
                assert(reachable(exact_pairs(self@), p, found[0]));
            }
            suggestions
        }
    }

    /// The slots of the entry named `word_id` that `form_str`, once
    /// normalized, matches. An unknown identifier gives no slots.
    pub fn matching_forms(&self, word_id: &str, form_str: &str) -> (r: Vec<MatchedForm>)
        ensures
            r@ == matching_forms_spec(self@, word_id@, form_str@),
    {
        proof {
            use_type_invariant(self);
        }
        let form_str_norm = normalize(form_str);
        match self.data.get(word_id) {
            None => Vec::new(),
            Some(word_data) => WordIndex::matching_forms_inner(word_data, form_str_norm.as_str()),
        }
    }
}

/// `f` is one of the active or passive forms of `w`.
pub open spec fn has_form(w: WordDataView, f: WordFormView) -> bool {
    ||| exists|j: int| 0 <= j < w.forms.len() && #[trigger] w.forms[j] == f
    ||| w.passive is Some && exists|j: int|
        0 <= j < w.passive->0.len() && #[trigger] w.passive->0[j] == f
}

/// An exact lookup of a record's normalized headword lists the record's
/// identifier, provided the headword is in canonical form.
pub proof fn law_headword_is_found(
    records: Seq<WordDataView>,
    i: int,
    rs: Seq<SearchResultView>,
)
    requires
        0 <= i < records.len(),
        normalize_spec(records[i].word_normalized) == records[i].word_normalized,
        is_get_result(records, normalize_spec(records[i].word_normalized), rs),
    ensures
        result_ids(rs).contains(records[i].url_id),
{
    let w = records[i];
    assert(surface_keys(w).contains(w.word_normalized));
    assert(exact_pairs(records).contains((w.word_normalized, w.url_id)));
    assert(ids_under(exact_pairs(records), w.word_normalized).contains(w.url_id));
    assert(result_ids(rs).to_set().contains(w.url_id));
}

/// An exact lookup of the normalized surface of any form of a record
/// lists the record's identifier, provided the surface is not empty and is
/// in canonical form.
pub proof fn law_every_form_is_found(
    records: Seq<WordDataView>,
    i: int,
    f: WordFormView,
    rs: Seq<SearchResultView>,
)
    requires
        0 <= i < records.len(),
        has_form(records[i], f),
        f.form_normalized.len() > 0,
        normalize_spec(f.form_normalized) == f.form_normalized,
        is_get_result(records, normalize_spec(f.form_normalized), rs),
    ensures
        result_ids(rs).contains(records[i].url_id),
{
    let w = records[i];
    let key = f.form_normalized;
    if exists|j: int| 0 <= j < w.forms.len() && #[trigger] w.forms[j] == f {
        let j = choose|j: int| 0 <= j < w.forms.len() && #[trigger] w.forms[j] == f;
        assert(w.forms[j].form_normalized == key);
        assert(form_keys(w.forms).contains(key));
    } else {
        let p = w.passive->0;
        let j = choose|j: int| 0 <= j < p.len() && #[trigger] p[j] == f;
        assert(p[j].form_normalized == key);
        assert(form_keys(p).contains(key));
    }
    assert(surface_keys(w).contains(key));
    assert(exact_pairs(records).contains((key, w.url_id)));
    assert(ids_under(exact_pairs(records), key).contains(w.url_id));
    assert(result_ids(rs).to_set().contains(w.url_id));
}

/// Asked for the slots of a record that its own normalized headword
/// matches, the index answers with the infinitive first, provided the
/// record is the entry that its identifier names and the headword is in
/// canonical form.
pub proof fn law_headword_matches_infinitive(records: Seq<WordDataView>, i: int)
    requires
        0 <= i < records.len(),
        master(records)[records[i].url_id] == records[i],
        normalize_spec(records[i].word_normalized) == records[i].word_normalized,
    ensures
        matching_forms_spec(records, records[i].url_id, records[i].word_normalized).len() > 0,
        matching_forms_spec(records, records[i].url_id, records[i].word_normalized)[0]
            == infinitive_slot(),
        matching_forms_spec(records, records[i].url_id, records[i].word_normalized).contains(
            infinitive_slot(),
        ),
{
    lemma_master_holds(records, i);
    let slots = matching_forms_spec(records, records[i].url_id, records[i].word_normalized);
    assert(slots[0] == infinitive_slot());
}

/// The last record that carries an identifier is the entry that the
/// identifier names.
pub proof fn law_last_record_wins(records: Seq<WordDataView>, i: int)
    requires
        0 <= i < records.len(),
        forall|j: int| i < j < records.len() ==> (#[trigger] records[j]).url_id != records[i].url_id,
    ensures
        master(records)[records[i].url_id] == records[i],
    decreases records.len(),
{
    if i < records.len() - 1 {
        let shorter = records.drop_last();
        assert(records.last().url_id != records[i].url_id);
        assert forall|j: int| i < j < shorter.len() implies (#[trigger] shorter[j]).url_id
            != shorter[i].url_id by {
            assert(shorter[j] == records[j]);
        }
        law_last_record_wins(shorter, i);
    }
}

/// Where the source-language trie finds something for a prefix, there
/// are suggestions and each of them is found in that trie; where it finds
/// nothing, each suggestion is found in the translation trie.
pub proof fn law_translation_only_as_fallback(
    records: Seq<WordDataView>,
    prefix: Seq<char>,
    limit: int,
    rs: Seq<SearchResultView>,
)
    requires
        is_suggestion(
            records,
            if source_answers(records, prefix, limit) {
                exact_pairs(records)
            } else {
                translation_pairs(records)
            },
            prefix,
            limit,
            rs,
        ),
    ensures
        source_answers(records, prefix, limit) ==> rs.len() > 0 && forall|i: int|
            0 <= i < rs.len() ==> reachable(
                exact_pairs(records),
                prefix,
                #[trigger] result_ids(rs)[i],
            ),
        !source_answers(records, prefix, limit) ==> forall|i: int|
            0 <= i < rs.len() ==> reachable(
                translation_pairs(records),
                prefix,
                #[trigger] result_ids(rs)[i],
            ),
{
    if source_answers(records, prefix, limit) {
        let id = choose|id: Seq<char>| reachable(exact_pairs(records), prefix, id);
        if result_ids(rs).len() < limit {
            assert(result_ids(rs).contains(id));
        }
    }
}

/// Results that are decorated against one query and name the same
/// entries in the same order are the same results.
pub proof fn law_results_are_determined(
    records: Seq<WordDataView>,
    query: Seq<char>,
    a: Seq<SearchResultView>,
    b: Seq<SearchResultView>,
)
    requires
        result_ids(a) == result_ids(b),
        forall|i: int| 0 <= i < a.len() ==> decorated(records, query, #[trigger] a[i]),
        forall|i: int| 0 <= i < b.len() ==> decorated(records, query, #[trigger] b[i]),
    ensures
        a == b,
{
    assert(a.len() == result_ids(a).len());
    assert(b.len() == result_ids(b).len());
    assert forall|i: int| 0 <= i < a.len() implies a[i] == b[i] by {
        assert(result_ids(a)[i] == a[i].word.url_id);
        assert(result_ids(b)[i] == b[i].word.url_id);
        assert(decorated(records, query, a[i]));
        assert(decorated(records, query, b[i]));
    }
    assert(a =~= b);
}

/// Where identifiers are distinct, every record is the entry that its
/// identifier names.
pub proof fn law_distinct_ids_name_their_records(records: Seq<WordDataView>, i: int)
    requires
        ids_distinct(records),
        0 <= i < records.len(),
    ensures
        master(records)[records[i].url_id] == records[i],
{
    assert forall|j: int| i < j < records.len() implies (#[trigger] records[j]).url_id
        != records[i].url_id by {
        assert(entry_ids(records)[j] == records[j].url_id);
        assert(entry_ids(records)[i] == records[i].url_id);
    }
    law_last_record_wins(records, i);
}

} // verus!
