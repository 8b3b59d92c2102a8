use symbolic_store::graph::{
    TripleIndex, TripleQueryFunc, INDEX_LOOKUP, SEARCH_LOOKUP, TRIPLE_NORMALIZED, TRIPLE_PRIORITIZED,
};

#[test]
fn index_lookup_is_the_published_table() {
    let expected = [
        TripleIndex::EAV, TripleIndex::AVE, TripleIndex::AVE, TripleIndex::VEA, TripleIndex::VEA, TripleIndex::VAE, TripleIndex::VEA, TripleIndex::VEA, TripleIndex::VEA, TripleIndex::EAV, TripleIndex::AVE, TripleIndex::AVE, TripleIndex::EAV, TripleIndex::EAV, TripleIndex::AVE, TripleIndex::EVA, TripleIndex::VEA, TripleIndex::VEA, TripleIndex::EAV, TripleIndex::AEV, TripleIndex::AVE, TripleIndex::EAV,
        TripleIndex::EAV, TripleIndex::AVE, TripleIndex::EAV, TripleIndex::EAV, TripleIndex::EAV,
    ];
    assert_eq!(INDEX_LOOKUP, expected);
}

#[test]
fn search_lookup_is_the_published_table() {
    let expected = [
        TripleQueryFunc::SearchMMM, TripleQueryFunc::SearchMMV, TripleQueryFunc::SearchMMI, TripleQueryFunc::SearchMMV, TripleQueryFunc::SearchMVV, TripleQueryFunc::SearchMVI, TripleQueryFunc::SearchMMI, TripleQueryFunc::SearchMVI, TripleQueryFunc::SearchMII, TripleQueryFunc::SearchMMV,
        TripleQueryFunc::SearchMVV, TripleQueryFunc::SearchMVI, TripleQueryFunc::SearchMVV, TripleQueryFunc::SearchVVV, TripleQueryFunc::SearchVVI, TripleQueryFunc::SearchMVI, TripleQueryFunc::SearchVVI, TripleQueryFunc::SearchVII, TripleQueryFunc::SearchMMI, TripleQueryFunc::SearchMVI,
        TripleQueryFunc::SearchMII, TripleQueryFunc::SearchMVI, TripleQueryFunc::SearchVVI, TripleQueryFunc::SearchVII, TripleQueryFunc::SearchMII, TripleQueryFunc::SearchVII, TripleQueryFunc::SearchIII,
    ];
    assert_eq!(SEARCH_LOOKUP, expected);
}

#[test]
fn permutation_tables_are_the_published_ones() {
    assert_eq!(TRIPLE_PRIORITIZED, [[0, 1, 2, 0, 1, 2], [1, 2, 0, 2, 0, 1], [2, 0, 1, 1, 2, 0]]);
    assert_eq!(TRIPLE_NORMALIZED, [[0, 2, 1, 0, 1, 2], [1, 0, 2, 2, 0, 1], [2, 1, 0, 1, 2, 0]]);
    for order in 0..6 {
        for slot in 0..3 {
            assert_eq!(TRIPLE_NORMALIZED[TRIPLE_PRIORITIZED[slot][order]][order], slot);
        }
    }
}
