use libpealimrs::prefix_tree::Trie;
use libpealimrs::word_dto::{MatchedForm, SearchResult, WordData, WordForm};
use libpealimrs::word_index::WordIndex;

fn shareable<T: Send + Sync>() -> bool {
    true
}

#[test]
fn an_index_can_be_read_from_several_threads() {
    assert!(shareable::<WordIndex>());
    assert!(shareable::<Trie>());
    assert!(shareable::<WordData>());
    assert!(shareable::<WordForm>());
    assert!(shareable::<SearchResult>());
    assert!(shareable::<MatchedForm>());
}
