use symbolic_store::graph::{
    create_symbol, crease_length, get_length, manifest_symbol, query_symbols, query_triples, read_data,
    release_symbol, replace_data, set_triple, write_data, Store, Triple, META_NAMESPACE_IDENTITY,
};
use symbolic_store::symbol::Symbol;

fn bit(words: &[u64], k: usize) -> bool {
    (words[k / 64] >> (k % 64)) & 1 == 1
}

fn read_bits(store: &Store, s: Symbol, offset: usize, length: usize) -> Vec<bool> {
    let mut dst = vec![0u64; (length + 63) / 64];
    assert!(read_data(store, s, offset, length, &mut dst));
    (0..length).map(|k| bit(&dst, k)).collect()
}

fn sorted(mut v: Vec<Triple>) -> Vec<[(usize, usize); 3]> {
    let mut r: Vec<[(usize, usize); 3]> = v.drain(..).map(|t| [(t[0].0, t[0].1), (t[1].0, t[1].1), (t[2].0, t[2].1)]).collect();
    r.sort();
    r
}

#[test]
fn create_symbol_twice_gives_fresh_identities() {
    let mut store = Store::new();
    assert_eq!(create_symbol(&mut store, 10).1, 0);
    assert_eq!(create_symbol(&mut store, 10).1, 1);
    let mut ids = query_symbols(&store, 10);
    ids.sort();
    assert_eq!(ids, vec![0, 1]);
}

#[test]
fn manifest_release_manifest() {
    let mut store = Store::new();
    assert!(manifest_symbol(&mut store, Symbol(7, 3)));
    assert!(release_symbol(&mut store, Symbol(7, 3)));
    assert!(manifest_symbol(&mut store, Symbol(7, 3)));
    assert!(!manifest_symbol(&mut store, Symbol(7, 3)));
}

#[test]
fn release_missing_symbol_fails() {
    let mut store = Store::new();
    assert!(!release_symbol(&mut store, Symbol(4, 4)));
    manifest_symbol(&mut store, Symbol(4, 5));
    assert!(!release_symbol(&mut store, Symbol(4, 4)));
}

#[test]
fn create_symbol_skips_manifested_identity() {
    let mut store = Store::new();
    manifest_symbol(&mut store, Symbol(3, 0));
    manifest_symbol(&mut store, Symbol(3, 1));
    manifest_symbol(&mut store, Symbol(3, 5));
    assert_eq!(create_symbol(&mut store, 3).1, 6);
    release_symbol(&mut store, Symbol(3, 1));
    assert_eq!(create_symbol(&mut store, 3).1, 7);
}

#[test]
fn link_query_unlink_all_variable() {
    let mut store = Store::new();
    let (a, b, c) = (Symbol(1, 1), Symbol(1, 2), Symbol(1, 3));
    for s in [a, b, c] {
        manifest_symbol(&mut store, s);
    }
    assert!(set_triple(&mut store, [a, b, c], true));
    assert_eq!(sorted(query_triples(&store, 13, [a, a, a])), sorted(vec![[a, b, c]]));
    assert!(set_triple(&mut store, [a, b, c], false));
    assert!(query_triples(&store, 13, [a, a, a]).is_empty());
}

#[test]
fn attribute_query_across_namespaces() {
    let mut store = Store::new();
    let (a, b, c) = (Symbol(1, 1), Symbol(2, 1), Symbol(3, 1));
    for s in [a, b, c] {
        manifest_symbol(&mut store, s);
    }
    assert!(set_triple(&mut store, [a, b, c], true));
    let placeholder = Symbol(9, 9);
    assert_eq!(sorted(query_triples(&store, 10, [placeholder, b, placeholder])), sorted(vec![[a, b, c]]));
    assert!(query_triples(&store, 10, [placeholder, a, placeholder]).is_empty());
}

#[test]
fn set_triple_needs_all_symbols() {
    let mut store = Store::new();
    let (a, b) = (Symbol(1, 1), Symbol(1, 2));
    manifest_symbol(&mut store, a);
    manifest_symbol(&mut store, b);
    assert!(!set_triple(&mut store, [a, b, Symbol(1, 3)], true));
    assert!(query_triples(&store, 13, [a, a, a]).is_empty());
    assert!(set_triple(&mut store, [a, b, b], true));
    assert!(!set_triple(&mut store, [a, b, b], true));
    assert!(set_triple(&mut store, [a, b, b], false));
    assert!(!set_triple(&mut store, [a, b, b], false));
}

#[test]
fn ground_query_returns_the_triple() {
    let mut store = Store::new();
    let (a, b, c) = (Symbol(2, 1), Symbol(2, 2), Symbol(2, 3));
    for s in [a, b, c] {
        manifest_symbol(&mut store, s);
    }
    set_triple(&mut store, [a, b, c], true);
    assert_eq!(sorted(query_triples(&store, 0, [a, b, c])), sorted(vec![[a, b, c]]));
    assert!(query_triples(&store, 0, [a, c, b]).is_empty());
}

#[test]
fn link_then_unlink_restores() {
    let mut store = Store::new();
    let (a, b, c) = (Symbol(1, 1), Symbol(1, 2), Symbol(1, 3));
    for s in [a, b, c] {
        manifest_symbol(&mut store, s);
    }
    set_triple(&mut store, [a, a, b], true);
    let before = sorted(query_triples(&store, 13, [a, a, a]));
    set_triple(&mut store, [c, b, a], true);
    set_triple(&mut store, [c, b, a], false);
    assert_eq!(sorted(query_triples(&store, 13, [a, a, a])), before);
    assert!(query_triples(&store, 0, [c, b, a]).is_empty());
}

#[test]
fn every_mask_finds_the_triple_once() {
    let mut store = Store::new();
    let (a, b, c, d) = (Symbol(1, 1), Symbol(1, 2), Symbol(2, 3), Symbol(3, 4));
    for s in [a, b, c, d] {
        manifest_symbol(&mut store, s);
    }
    set_triple(&mut store, [a, b, c], true);
    set_triple(&mut store, [a, b, d], true);
    set_triple(&mut store, [d, a, b], true);
    for mask in 0..27 {
        let found = query_triples(&store, mask, [a, b, c]);
        assert_eq!(found.iter().filter(|t| **t == [a, b, c]).count(), 1, "mask {}", mask);
        let mut unique = sorted(found.clone());
        unique.dedup();
        assert_eq!(unique.len(), found.len(), "mask {}", mask);
    }
}

#[test]
fn ignored_positions_come_from_the_query() {
    let mut store = Store::new();
    let (a, b, c, d) = (Symbol(1, 1), Symbol(1, 2), Symbol(1, 3), Symbol(1, 4));
    for s in [a, b, c, d] {
        manifest_symbol(&mut store, s);
    }
    set_triple(&mut store, [a, b, c], true);
    set_triple(&mut store, [a, d, c], true);
    // entity matched, attribute enumerated, value ignored
    assert_eq!(sorted(query_triples(&store, 0 + 3 + 18, [a, a, a])), sorted(vec![[a, b, a], [a, d, a]]));
    // everything ignored
    assert_eq!(sorted(query_triples(&store, 26, [d, d, d])), sorted(vec![[d, d, d]]));
    // entity enumerated, the rest ignored
    assert_eq!(sorted(query_triples(&store, 1 + 6 + 18, [d, d, d])), sorted(vec![[a, d, d]]));
}

#[test]
fn releasing_meta_symbol_drops_namespace_and_its_triples() {
    let mut store = Store::new();
    let meta = Symbol(META_NAMESPACE_IDENTITY, 5);
    assert!(manifest_symbol(&mut store, meta));
    let inner = create_symbol(&mut store, 5);
    let other = Symbol(6, 1);
    manifest_symbol(&mut store, other);
    set_triple(&mut store, [inner, other, other], true);
    set_triple(&mut store, [other, other, other], true);
    assert!(release_symbol(&mut store, meta));
    assert!(query_symbols(&store, 5).is_empty());
    assert_eq!(sorted(query_triples(&store, 13, [other, other, other])), sorted(vec![[other, other, other]]));
    assert_eq!(get_length(&store, inner), 0);
}

#[test]
fn payload_crease_and_excise() {
    let mut store = Store::new();
    let s = Symbol(5, 5);
    manifest_symbol(&mut store, s);
    assert!(crease_length(&mut store, s, 0, 100));
    assert_eq!(get_length(&store, s), 100);
    let pattern = [0xAAAA_AAAA_AAAA_AAAAu64, 0xAAAA_AAAA_AAAA_AAAAu64];
    assert!(write_data(&mut store, s, 0, 100, &pattern));
    let initial = read_bits(&store, s, 0, 100);
    assert!(crease_length(&mut store, s, 20, -30));
    assert_eq!(get_length(&store, s), 70);
    let mut expected = initial[..20].to_vec();
    expected.extend_from_slice(&initial[50..]);
    assert_eq!(read_bits(&store, s, 0, 70), expected);
}

#[test]
fn crease_opens_zero_hole() {
    let mut store = Store::new();
    let s = Symbol(2, 2);
    manifest_symbol(&mut store, s);
    assert!(crease_length(&mut store, s, 0, 130));
    let words: Vec<u64> = vec![0x0123_4567_89AB_CDEF, 0xFEDC_BA98_7654_3210, 0x3];
    assert!(write_data(&mut store, s, 0, 130, &words));
    let initial = read_bits(&store, s, 0, 130);
    assert!(crease_length(&mut store, s, 37, 11));
    assert_eq!(get_length(&store, s), 141);
    let mut expected = initial[..37].to_vec();
    expected.extend(std::iter::repeat(false).take(11));
    expected.extend_from_slice(&initial[37..]);
    assert_eq!(read_bits(&store, s, 0, 141), expected);
    assert!(crease_length(&mut store, s, 37, -11));
    assert_eq!(read_bits(&store, s, 0, 130), initial);
}

#[test]
fn crease_out_of_range_fails() {
    let mut store = Store::new();
    let s = Symbol(2, 2);
    assert!(!crease_length(&mut store, s, 0, 8));
    manifest_symbol(&mut store, s);
    assert!(crease_length(&mut store, s, 0, 8));
    assert!(!crease_length(&mut store, s, 9, 1));
    assert!(!crease_length(&mut store, s, 4, -5));
    assert_eq!(get_length(&store, s), 8);
}

#[test]
fn read_write_out_of_range_fail() {
    let mut store = Store::new();
    let s = Symbol(1, 9);
    let mut dst = [7u64; 2];
    assert!(!read_data(&store, s, 0, 0, &mut dst));
    manifest_symbol(&mut store, s);
    crease_length(&mut store, s, 0, 10);
    assert!(!read_data(&store, s, 5, 6, &mut dst));
    assert_eq!(dst, [7u64; 2]);
    assert!(!write_data(&mut store, s, 8, 3, &[1]));
    assert!(write_data(&mut store, s, 8, 2, &[3]));
    assert!(read_data(&store, s, 8, 2, &mut dst));
    assert_eq!(dst, [3u64, 7u64]);
}

#[test]
fn read_zero_fills_the_last_word() {
    let mut store = Store::new();
    let s = Symbol(1, 1);
    manifest_symbol(&mut store, s);
    crease_length(&mut store, s, 0, 64);
    write_data(&mut store, s, 0, 64, &[u64::MAX]);
    let mut dst = [0x5555u64; 3];
    assert!(read_data(&store, s, 3, 5, &mut dst));
    assert_eq!(dst, [0x1F, 0x5555, 0x5555]);
}

#[test]
fn replace_between_symbols() {
    let mut store = Store::new();
    let (a, b) = (Symbol(1, 1), Symbol(1, 2));
    manifest_symbol(&mut store, a);
    manifest_symbol(&mut store, b);
    crease_length(&mut store, a, 0, 80);
    crease_length(&mut store, b, 0, 80);
    write_data(&mut store, a, 0, 80, &[0xFFFF_0000_FFFF_0000, 0xABCD]);
    let src = read_bits(&store, a, 0, 80);
    assert!(replace_data(&mut store, b, 3, a, 17, 50));
    let got = read_bits(&store, b, 0, 80);
    for k in 0..80 {
        let want = if (3..53).contains(&k) { src[17 + k - 3] } else { false };
        assert_eq!(got[k], want, "bit {}", k);
    }
    assert!(!replace_data(&mut store, b, 40, a, 0, 41));
    assert!(!replace_data(&mut store, b, 0, Symbol(1, 3), 0, 1));
}

#[test]
fn replace_within_one_symbol_reads_old_bits() {
    let mut store = Store::new();
    let a = Symbol(1, 1);
    manifest_symbol(&mut store, a);
    crease_length(&mut store, a, 0, 128);
    write_data(&mut store, a, 0, 128, &[0x0123_4567_89AB_CDEF, 0xFEDC_BA98_7654_3210]);
    let before = read_bits(&store, a, 0, 128);
    assert!(replace_data(&mut store, a, 10, a, 0, 100));
    let after = read_bits(&store, a, 0, 128);
    for k in 0..128 {
        let want = if (10..110).contains(&k) { before[k - 10] } else { before[k] };
        assert_eq!(after[k], want, "bit {}", k);
    }
}

#[test]
fn get_length_of_missing_symbol_is_zero() {
    let store = Store::new();
    assert_eq!(get_length(&store, Symbol(3, 3)), 0);
}
