use std::collections::HashMap;
use std::collections::HashSet;
use vstd::prelude::*;
use vstd::std_specs::iter::IteratorSpec;
use crate::bitops::{
    bits_of, bitwise_copy_nonoverlapping, is_bits_copied, is_read_word, lemma_bit_position,
    lemma_bit_split, seq_bit, word_bit, BitwiseRead, BitwiseWrite, ARCHITECTURE_SIZE,
};
use crate::subindex::{
    beta_has, beta_outputs, beta_result, beta_wf, letters_ordered, map_keys, set_triple_subindex, slot_ok, slot_out,
    BetaCollection, GammaCollection,
};
use crate::symbol::{Identity, IdentityPool, Symbol};

verus! {

broadcast use vstd::std_specs::hash::group_hash_axioms;

/// A triple of symbols in entity, attribute, value order.
pub type Triple = [Symbol; 3];

/// A triple as the model sees it.
pub type TripleModel = (Symbol, Symbol, Symbol);

/// The namespace whose symbols stand for namespaces: `(META_NAMESPACE_IDENTITY, n)`
/// existing means that namespace `n` is manifest.
pub const META_NAMESPACE_IDENTITY: usize = 0;

const KEY_SHIFT: u128 = 0x1_0000_0000_0000_0000;

/// The map key of a symbol: its namespace in the high 64 bits, its identity in the low ones.
pub open spec fn key_of(s: Symbol) -> u128 {
    (s.0 as int * 0x1_0000_0000_0000_0000 + s.1 as int) as u128
}

/// The symbol a map key stands for.
pub open spec fn symbol_of(k: u128) -> Symbol {
    Symbol((k as int / 0x1_0000_0000_0000_0000) as usize, (k as int % 0x1_0000_0000_0000_0000) as usize)
}

/// Whether `k` is the key of some symbol.
pub open spec fn is_key(k: u128) -> bool {
    &&& k as int / 0x1_0000_0000_0000_0000 <= usize::MAX
    &&& k as int % 0x1_0000_0000_0000_0000 <= usize::MAX
}

proof fn lemma_key(s: Symbol)
    ensures
        is_key(key_of(s)),
        symbol_of(key_of(s)) == s,
        key_of(s) as int == s.0 as int * 0x1_0000_0000_0000_0000 + s.1 as int,
{
    let a = s.0 as int;
    let b = s.1 as int;
    assert(0 <= a * 0x1_0000_0000_0000_0000 + b < 0x1_0000_0000_0000_0000 * 0x1_0000_0000_0000_0000)
        by (nonlinear_arith)
        requires
            0 <= a < 0x1_0000_0000_0000_0000,
            0 <= b < 0x1_0000_0000_0000_0000,
    ;
    vstd::arithmetic::div_mod::lemma_fundamental_div_mod_converse(
        a * 0x1_0000_0000_0000_0000 + b,
        0x1_0000_0000_0000_0000,
        a,
        b,
    );
}

proof fn lemma_key_of_symbol(k: u128)
    requires
        is_key(k),
    ensures
        key_of(symbol_of(k)) == k,
{
    let s = symbol_of(k);
    vstd::arithmetic::div_mod::lemma_fundamental_div_mod(k as int, 0x1_0000_0000_0000_0000);
    lemma_key(s);
}

proof fn lemma_key_injective(a: Symbol, b: Symbol)
    ensures
        (key_of(a) == key_of(b)) == (a == b),
{
    lemma_key(a);
    lemma_key(b);
}

fn symbol_key(s: Symbol) -> (k: u128)
    ensures
        k == key_of(s),
{
    proof {
        lemma_key(s);
        assert((s.0 as u128) * KEY_SHIFT + (s.1 as u128) <= u128::MAX) by (nonlinear_arith)
            requires
                s.0 < 0x1_0000_0000_0000_0000,
                s.1 < 0x1_0000_0000_0000_0000,
        ;
    }
    (s.0 as u128) * KEY_SHIFT + (s.1 as u128)
}

fn key_symbol(k: u128) -> (s: Symbol)
    requires
        is_key(k),
    ensures
        s == symbol_of(k),
{
    Symbol((k / KEY_SHIFT) as usize, (k % KEY_SHIFT) as usize)
}

/// Whether both members of every pair of `outs` are symbol keys.
pub open spec fn all_keys(outs: Seq<(u128, u128)>) -> bool {
    forall|k: int| 0 <= k < outs.len() ==> is_key(#[trigger] outs[k].0) && is_key(outs[k].1)
}

/// The triple a subindex entry stands for: `p` the symbol the subindex belongs to, `b` the
/// first level key, `g` the second; `order` is the position of the subindex (EAV, AVE, VEA,
/// EVA, AEV, VAE).
pub open spec fn entry_triple(order: int, p: Symbol, b: Symbol, g: Symbol) -> TripleModel {
    if order == 0 {
        (p, b, g)
    } else if order == 1 {
        (g, p, b)
    } else if order == 2 {
        (b, g, p)
    } else if order == 3 {
        (p, g, b)
    } else if order == 4 {
        (b, p, g)
    } else {
        (g, b, p)
    }
}

/// The subindex entry (symbol, first key, second key) that stands for `t` in subindex
/// `order`; the inverse of `entry_triple`.
pub open spec fn entry_of(order: int, t: TripleModel) -> (Symbol, Symbol, Symbol) {
    if order == 0 {
        (t.0, t.1, t.2)
    } else if order == 1 {
        (t.1, t.2, t.0)
    } else if order == 2 {
        (t.2, t.0, t.1)
    } else if order == 3 {
        (t.0, t.2, t.1)
    } else if order == 4 {
        (t.1, t.0, t.2)
    } else {
        (t.2, t.1, t.0)
    }
}

proof fn lemma_entry_inverse(order: int, p: Symbol, b: Symbol, g: Symbol, t: TripleModel)
    requires
        0 <= order < 6,
    ensures
        (entry_triple(order, p, b, g) == t) == (entry_of(order, t) == (p, b, g)),
{
}

pub open spec fn triple_model(t: Triple) -> TripleModel {
    (t[0], t[1], t[2])
}

/// One of the six orders a subindex keeps a triple in.
#[derive(Clone, Copy, PartialEq, Eq, Structural, Debug)]
pub enum TripleIndex {
    EAV,
    AVE,
    VEA,
    EVA,
    AEV,
    VAE,
}

/// One of the ten query procedures; the letters give, in the chosen order, whether the
/// symbol, first-level and second-level slot are matched (M), enumerated (V) or ignored (I).
#[derive(Clone, Copy, PartialEq, Eq, Structural, Debug)]
pub enum TripleQueryFunc {
    SearchMMM,
    SearchMMI,
    SearchMII,
    SearchIII,
    SearchMMV,
    SearchMVV,
    SearchMVI,
    SearchVII,
    SearchVVI,
    SearchVVV,
}

/// The subindex order each of the 27 query masks is answered from.
pub const INDEX_LOOKUP: [TripleIndex; 27] = [
    TripleIndex::EAV, TripleIndex::AVE, TripleIndex::AVE,
    TripleIndex::VEA, TripleIndex::VEA, TripleIndex::VAE,
    TripleIndex::VEA, TripleIndex::VEA, TripleIndex::VEA,
    TripleIndex::EAV, TripleIndex::AVE, TripleIndex::AVE,
    TripleIndex::EAV, TripleIndex::EAV, TripleIndex::AVE,
    TripleIndex::EVA, TripleIndex::VEA, TripleIndex::VEA,
    TripleIndex::EAV, TripleIndex::AEV, TripleIndex::AVE,
    TripleIndex::EAV, TripleIndex::EAV, TripleIndex::AVE,
    TripleIndex::EAV, TripleIndex::EAV, TripleIndex::EAV,
];

/// The procedure each of the 27 query masks is answered by.
pub const SEARCH_LOOKUP: [TripleQueryFunc; 27] = [
    TripleQueryFunc::SearchMMM, TripleQueryFunc::SearchMMV, TripleQueryFunc::SearchMMI,
    TripleQueryFunc::SearchMMV, TripleQueryFunc::SearchMVV, TripleQueryFunc::SearchMVI,
    TripleQueryFunc::SearchMMI, TripleQueryFunc::SearchMVI, TripleQueryFunc::SearchMII,
    TripleQueryFunc::SearchMMV, TripleQueryFunc::SearchMVV, TripleQueryFunc::SearchMVI,
    TripleQueryFunc::SearchMVV, TripleQueryFunc::SearchVVV, TripleQueryFunc::SearchVVI,
    TripleQueryFunc::SearchMVI, TripleQueryFunc::SearchVVI, TripleQueryFunc::SearchVII,
    TripleQueryFunc::SearchMMI, TripleQueryFunc::SearchMVI, TripleQueryFunc::SearchMII,
    TripleQueryFunc::SearchMVI, TripleQueryFunc::SearchVVI, TripleQueryFunc::SearchVII,
    TripleQueryFunc::SearchMII, TripleQueryFunc::SearchVII, TripleQueryFunc::SearchIII,
];

/// For each order (column), the position of the entity, attribute, value triple that goes
/// to each slot (row) of the ordered triple, and the way back.
pub type TriplePermutation = [[usize; 6]; 3];

pub const TRIPLE_PRIORITIZED: TriplePermutation = [
    [0, 1, 2, 0, 1, 2],
    [1, 2, 0, 2, 0, 1],
    [2, 0, 1, 1, 2, 0],
];

pub const TRIPLE_NORMALIZED: TriplePermutation = [
    [0, 2, 1, 0, 1, 2],
    [1, 0, 2, 2, 0, 1],
    [2, 1, 0, 1, 2, 0],
];

pub open spec fn order_of(t: TripleIndex) -> int {
    match t {
        TripleIndex::EAV => 0,
        TripleIndex::AVE => 1,
        TripleIndex::VEA => 2,
        TripleIndex::EVA => 3,
        TripleIndex::AEV => 4,
        TripleIndex::VAE => 5,
    }
}

fn order_index(t: TripleIndex) -> (r: usize)
    ensures
        r == order_of(t),
{
    match t {
        TripleIndex::EAV => 0,
        TripleIndex::AVE => 1,
        TripleIndex::VEA => 2,
        TripleIndex::EVA => 3,
        TripleIndex::AEV => 4,
        TripleIndex::VAE => 5,
    }
}

/// The letters (0 match, 1 enumerate, 2 ignore) of a procedure, slot by slot.
pub open spec fn letters_of(f: TripleQueryFunc) -> (int, int, int) {
    match f {
        TripleQueryFunc::SearchMMM => (0, 0, 0),
        TripleQueryFunc::SearchMMI => (0, 0, 2),
        TripleQueryFunc::SearchMII => (0, 2, 2),
        TripleQueryFunc::SearchIII => (2, 2, 2),
        TripleQueryFunc::SearchMMV => (0, 0, 1),
        TripleQueryFunc::SearchMVV => (0, 1, 1),
        TripleQueryFunc::SearchMVI => (0, 1, 2),
        TripleQueryFunc::SearchVII => (1, 2, 2),
        TripleQueryFunc::SearchVVI => (1, 1, 2),
        TripleQueryFunc::SearchVVV => (1, 1, 1),
    }
}

/// Digit `pos` of a query mask in base 3: 0 matches the given symbol, 1 enumerates, 2 ignores.
pub open spec fn mask_digit(mask: int, pos: int) -> int {
    if pos == 0 {
        mask % 3
    } else if pos == 1 {
        (mask / 3) % 3
    } else {
        (mask / 9) % 3
    }
}

/// The letters of a mask, position by position (entity, attribute, value).
pub open spec fn mask_letters(mask: int) -> (int, int, int) {
    (mask_digit(mask, 0), mask_digit(mask, 1), mask_digit(mask, 2))
}

/// What a query with letters `l` and query triple `q` yields from `triples`: for every
/// triple that agrees with `q` where `l` matches, the triple with the enumerated positions
/// taken from it and the others from `q`.
pub open spec fn query_result(triples: Set<TripleModel>, l: (int, int, int), q: TripleModel) -> Set<TripleModel> {
    Set::new(
        |u: TripleModel|
            exists|t: TripleModel|
                #![trigger triples.contains(t)]
                triples.contains(t) && slot_ok(l.0, t.0, q.0) && slot_ok(l.1, t.1, q.1) && slot_ok(l.2, t.2, q.2) && u
                    == (slot_out(l.0, t.0, q.0), slot_out(l.1, t.1, q.1), slot_out(l.2, t.2, q.2)),
    )
}

/// The triples as subindex `order` keeps them: symbol, first key, second key.
pub open spec fn entries(triples: Set<TripleModel>, order: int) -> Set<TripleModel> {
    Set::new(|e: TripleModel| triples.contains(entry_triple(order, e.0, e.1, e.2)))
}

/// Letter `pos` (entity, attribute, value) of `l`.
pub open spec fn letter_at(l: (int, int, int), pos: int) -> int {
    if pos == 0 {
        l.0
    } else if pos == 1 {
        l.1
    } else {
        l.2
    }
}

/// The letters of the mask, in the slots of subindex `order`.
pub open spec fn ordered_letters(mask: int, order: int) -> (int, int, int) {
    let l = mask_letters(mask);
    (
        letter_at(l, TRIPLE_PRIORITIZED[0][order] as int),
        letter_at(l, TRIPLE_PRIORITIZED[1][order] as int),
        letter_at(l, TRIPLE_PRIORITIZED[2][order] as int),
    )
}

/// The lookup tables agree with the mask digits: the chosen order puts matched positions
/// first and ignored ones last, and the procedure's letters are the mask's in that order.
pub proof fn lemma_lookup_tables(mask: int)
    requires
        0 <= mask < 27,
    ensures
        letters_of(SEARCH_LOOKUP[mask]) == ordered_letters(mask, order_of(INDEX_LOOKUP[mask])),
{
    assert(mask == 0 || mask == 1 || mask == 2 || mask == 3 || mask == 4 || mask == 5 || mask == 6 || mask == 7
        || mask == 8 || mask == 9 || mask == 10 || mask == 11 || mask == 12 || mask == 13 || mask == 14 || mask == 15
        || mask == 16 || mask == 17 || mask == 18 || mask == 19 || mask == 20 || mask == 21 || mask == 22 || mask == 23
        || mask == 24 || mask == 25 || mask == 26);
}


/// The triple in subindex order `order`, mapped back to entity, attribute, value order.
pub open spec fn normalized(order: int, u: TripleModel) -> TripleModel {
    entry_triple(order, u.0, u.1, u.2)
}

proof fn lemma_normalized_inverse(order: int, t: TripleModel, u: TripleModel)
    requires
        0 <= order < 6,
    ensures
        normalized(order, entry_of(order, t)) == t,
        entry_of(order, normalized(order, u)) == u,
        (normalized(order, u) == t) == (u == entry_of(order, t)),
{
}

fn reorder_triple(order: &TriplePermutation, triple_index: TripleIndex, triple: &Triple) -> (r: Triple)
    requires
        *order == TRIPLE_PRIORITIZED || *order == TRIPLE_NORMALIZED,
    ensures
        *order == TRIPLE_PRIORITIZED ==> triple_model(r) == entry_of(order_of(triple_index), triple_model(*triple)),
        *order == TRIPLE_NORMALIZED ==> triple_model(r) == normalized(order_of(triple_index), triple_model(*triple)),
{
    let index = order_index(triple_index);
    [triple[order[0][index]], triple[order[1][index]], triple[order[2][index]]]
}

/// Answering a query from subindex `order`, with the mask's letters and the query triple
/// put in that order, and mapping the results back, answers the query itself.
proof fn lemma_query_in_order(triples: Set<TripleModel>, mask: int, order: int, q: TripleModel)
    requires
        0 <= order < 6,
    ensures
        query_result(entries(triples, order), ordered_letters(mask, order), entry_of(order, q)).map(
            |u: TripleModel| normalized(order, u),
        ) == query_result(triples, mask_letters(mask), q),
{
    let l = mask_letters(mask);
    let lo = ordered_letters(mask, order);
    let qo = entry_of(order, q);
    let e_set = entries(triples, order);
    let lhs = query_result(e_set, lo, qo).map(|u: TripleModel| normalized(order, u));
    let rhs = query_result(triples, l, q);
    assert forall|u: TripleModel| lhs.contains(u) implies rhs.contains(u) by {
        let uo = choose|uo: TripleModel| query_result(e_set, lo, qo).contains(uo) && u == normalized(order, uo);
        let e = choose|e: TripleModel|
            #![trigger e_set.contains(e)]
            e_set.contains(e) && slot_ok(lo.0, e.0, qo.0) && slot_ok(lo.1, e.1, qo.1) && slot_ok(lo.2, e.2, qo.2) && uo
                == (slot_out(lo.0, e.0, qo.0), slot_out(lo.1, e.1, qo.1), slot_out(lo.2, e.2, qo.2));
        let t = normalized(order, e);
        assert(triples.contains(t));
    }
    assert forall|u: TripleModel| rhs.contains(u) implies lhs.contains(u) by {
        let t = choose|t: TripleModel|
            #![trigger triples.contains(t)]
            triples.contains(t) && slot_ok(l.0, t.0, q.0) && slot_ok(l.1, t.1, q.1) && slot_ok(l.2, t.2, q.2) && u == (
                slot_out(l.0, t.0, q.0), slot_out(l.1, t.1, q.1), slot_out(l.2, t.2, q.2));
        let e = entry_of(order, t);
        lemma_normalized_inverse(order, t, e);
        assert(e_set.contains(e));
        let uo = (slot_out(lo.0, e.0, qo.0), slot_out(lo.1, e.1, qo.1), slot_out(lo.2, e.2, qo.2));
        assert(query_result(e_set, lo, qo).contains(uo));
        assert(u == normalized(order, uo));
    }
    assert(lhs =~= rhs);
}

/// A symbol's state: its payload (`data_length` bits in the low end of `data_content`) and
/// its six subindices, in the orders EAV, AVE, VEA, EVA, AEV, VAE. Subindex `i` maps the key
/// of the first following symbol to the keys of the second; no key maps to an empty set.
struct SymbolHandle {
    data_content: Vec<u64>,
    data_length: usize,
    subindices: Vec<BetaCollection>,
}

/// A namespace: the local identities in use and the pool of those that are free.
struct NamespaceHandle {
    free_pool: IdentityPool,
    symbol_index: HashSet<Identity>,
}

/// What the store holds: the manifest namespaces, the symbols with their payload bits, and
/// the linked triples. The six subindices of every symbol are determined by the triples.
pub struct StoreModel {
    pub namespaces: Set<Identity>,
    pub symbols: Map<Symbol, Seq<bool>>,
    pub triples: Set<TripleModel>,
}

/// The symbolic graph store. The symbol handles of all namespaces sit in one map keyed by
/// `key_of(symbol)`; each namespace lists its identities. The ghost set of linked triples is
/// what the subindices index.
pub struct Store {
    namespace_index: HashMap<Identity, NamespaceHandle>,
    symbol_index: HashMap<u128, SymbolHandle>,
    triples: Ghost<Set<TripleModel>>,
}

impl SymbolHandle {
    spec fn payload(&self) -> Seq<bool> {
        bits_of(self.data_content@, 0, self.data_length as int)
    }

    spec fn wf(&self) -> bool {
        &&& self.data_length <= self.data_content@.len() * 64
        &&& self.subindices@.len() == 6
        &&& forall|i: int| 0 <= i < 6 ==> beta_wf(#[trigger] self.subindices@[i]@)
    }
}

/// Whether the symbol `s` exists in `v`.
pub open spec fn has_symbol(v: StoreModel, s: Symbol) -> bool {
    v.symbols.contains_key(s)
}

/// Whether all three symbols of `t` exist.
pub open spec fn has_endpoints(v: StoreModel, t: TripleModel) -> bool {
    has_symbol(v, t.0) && has_symbol(v, t.1) && has_symbol(v, t.2)
}

/// Whether `t` has a symbol of namespace `ns`.
pub open spec fn touches_namespace(t: TripleModel, ns: Identity) -> bool {
    t.0.0 == ns || t.1.0 == ns || t.2.0 == ns
}

/// Whether `t` has the symbol `s`.
pub open spec fn touches_symbol(t: TripleModel, s: Symbol) -> bool {
    t.0 == s || t.1 == s || t.2 == s
}

/// Whether `t` has a symbol of namespace `ns` whose identity is in `ids`.
pub open spec fn touches_taken(t: TripleModel, ns: Identity, ids: Seq<Identity>) -> bool {
    (t.0.0 == ns && ids.contains(t.0.1)) || (t.1.0 == ns && ids.contains(t.1.1)) || (t.2.0 == ns && ids.contains(t.2.1))
}

proof fn lemma_push_contains<A>(s: Seq<A>, x: A, y: A)
    ensures
        s.push(x).contains(y) == (s.contains(y) || y == x),
{
    if s.push(x).contains(y) {
        let k = choose|k: int| 0 <= k < s.push(x).len() && s.push(x)[k] == y;
        if k < s.len() {
            assert(s[k] == y);
        }
    }
    if s.contains(y) {
        let k = choose|k: int| 0 <= k < s.len() && s[k] == y;
        assert(s.push(x)[k] == y);
    }
    if y == x {
        assert(s.push(x)[s.len() as int] == y);
    }
}

/// The store after `set_triple(t, linked)`: nothing changes unless all three symbols exist.
pub open spec fn with_triple(v: StoreModel, t: TripleModel, linked: bool) -> StoreModel {
    StoreModel {
        triples: if !has_endpoints(v, t) {
            v.triples
        } else if linked {
            v.triples.insert(t)
        } else {
            v.triples.remove(t)
        },
        ..v
    }
}

/// Linking a new triple between existing symbols and unlinking it again gives back the
/// store as it was.
pub proof fn lemma_link_unlink_restores(v: StoreModel, t: TripleModel)
    requires
        has_endpoints(v, t),
        !v.triples.contains(t),
    ensures
        with_triple(with_triple(v, t, true), t, false) == v,
{
    assert(with_triple(with_triple(v, t, true), t, false).triples =~= v.triples);
}

/// A linked triple answers the all-matching query on itself, and only it does.
pub proof fn lemma_ground_query(triples: Set<TripleModel>, t: TripleModel)
    requires
        triples.contains(t),
    ensures
        query_result(triples, mask_letters(0), t) == set![t],
{
    assert(query_result(triples, mask_letters(0), t) =~= set![t]);
}

/// A linked triple is among the results of every mask asked with itself as query triple.
pub proof fn lemma_query_finds_triple(triples: Set<TripleModel>, t: TripleModel, mask: int)
    requires
        triples.contains(t),
        0 <= mask < 27,
    ensures
        query_result(triples, mask_letters(mask), t).contains(t),
{
    let l = mask_letters(mask);
    assert(t == (slot_out(l.0, t.0, t.0), slot_out(l.1, t.1, t.1), slot_out(l.2, t.2, t.2)));
}

/// Whether the symbol `s` may be released: an empty payload and no triples.
pub open spec fn is_bare(v: StoreModel, s: Symbol) -> bool {
    &&& v.symbols[s].len() == 0
    &&& forall|t: TripleModel| #[trigger] v.triples.contains(t) ==> !touches_symbol(t, s)
}

/// The store after releasing the existing symbol `s`: `s` is gone and, where `s` is the
/// meta symbol of namespace `n`, so are namespace `n`, its symbols and its triples.
pub open spec fn released(v: StoreModel, s: Symbol) -> StoreModel {
    if s.0 == META_NAMESPACE_IDENTITY {
        StoreModel {
            namespaces: v.namespaces.remove(s.1),
            symbols: v.symbols.remove(s).restrict(Set::new(|x: Symbol| x.0 != s.1)),
            triples: v.triples.filter(|t: TripleModel| !touches_namespace(t, s.1)),
        }
    } else {
        StoreModel { symbols: v.symbols.remove(s), ..v }
    }
}

/// The identity `create_symbol` picks in namespace `ns`: the lowest identity from which on
/// none is in use.
pub open spec fn is_next_fresh(v: StoreModel, ns: Identity, n: int) -> bool {
    &&& 0 <= n <= usize::MAX
    &&& forall|x: int| n <= x < usize::MAX ==> !#[trigger] v.symbols.contains_key(Symbol(ns, x as usize))
    &&& n > 0 ==> v.symbols.contains_key(Symbol(ns, (n - 1) as usize))
}

/// The store after `manifest_symbol(s)`.
pub open spec fn manifested(v: StoreModel, s: Symbol) -> StoreModel {
    StoreModel {
        namespaces: if s.0 == META_NAMESPACE_IDENTITY {
            v.namespaces.insert(s.0).insert(s.1)
        } else {
            v.namespaces.insert(s.0)
        },
        symbols: if v.symbols.contains_key(s) {
            v.symbols
        } else {
            v.symbols.insert(s, Seq::empty())
        },
        triples: v.triples,
    }
}

/// `p` with the bits `[offset, offset + length)` taken from the low bits of the words `src`.
pub open spec fn written_bits(p: Seq<bool>, offset: int, length: int, src: Seq<u64>) -> Seq<bool> {
    Seq::new(p.len(), |k: int| if offset <= k < offset + length { seq_bit(src, k - offset) } else { p[k] })
}

/// `p` with the bits `[offset, offset + length)` taken from `q`, starting at `q_offset`.
pub open spec fn replaced_bits(p: Seq<bool>, offset: int, q: Seq<bool>, q_offset: int, length: int) -> Seq<bool> {
    Seq::new(p.len(), |k: int| if offset <= k < offset + length { q[q_offset + (k - offset)] } else { p[k] })
}

/// Whether a crease of `delta` bits at `offset` fits a payload of `len` bits.
pub open spec fn crease_fits(len: int, offset: int, delta: int) -> bool {
    if delta < 0 {
        offset - delta <= len
    } else {
        offset <= len && len + delta <= usize::MAX
    }
}

/// `p` with `delta` zero bits opened at `offset` (`delta >= 0`), or with the `-delta` bits
/// from `offset` on removed (`delta < 0`).
pub open spec fn creased(p: Seq<bool>, offset: int, delta: int) -> Seq<bool> {
    if delta < 0 {
        p.subrange(0, offset) + p.subrange(offset - delta, p.len() as int)
    } else {
        p.subrange(0, offset) + Seq::new(delta as nat, |i: int| false) + p.subrange(offset, p.len() as int)
    }
}

impl View for Store {
    type V = StoreModel;

    closed spec fn view(&self) -> StoreModel {
        StoreModel {
            namespaces: self.namespace_index@.dom(),
            symbols: Map::new(
                |s: Symbol| self.symbol_index@.contains_key(key_of(s)),
                |s: Symbol| self.symbol_index@[key_of(s)].payload(),
            ),
            triples: self.triples@,
        }
    }
}

impl Store {
    spec fn sub(&self, s: Symbol, i: int) -> Map<u128, GammaCollection> {
        self.symbol_index@[key_of(s)].subindices@[i]@
    }

    /// Whether subindex `i` of `s` holds the entry `kb -> kg`.
    spec fn sub_has(&self, s: Symbol, i: int, kb: u128, kg: u128) -> bool {
        &&& self.symbol_index@.contains_key(key_of(s))
        &&& 0 <= i < 6
        &&& beta_has(self.sub(s, i), kb, kg)
    }

    spec fn namespaces_wf(&self) -> bool {
        forall|ns: Identity|
            #[trigger] self.namespace_index@.contains_key(ns) ==> {
                let h = self.namespace_index@[ns];
                &&& h.free_pool.wf()
                &&& forall|x: int|
                    #[trigger] h.free_pool@.contains(x) <==> (0 <= x < usize::MAX && !h.symbol_index@.contains(
                        x as usize,
                    ))
            }
    }

    spec fn symbols_wf(&self) -> bool {
        &&& forall|k: u128|
            #[trigger] self.symbol_index@.contains_key(k) ==> is_key(k) && self.symbol_index@[k].wf()
        &&& forall|s: Symbol|
            #[trigger] self.symbol_index@.contains_key(key_of(s)) <==> (self.namespace_index@.contains_key(s.0)
                && self.namespace_index@[s.0].symbol_index@.contains(s.1))
        &&& forall|n: Identity|
            #[trigger] self.symbol_index@.contains_key(key_of(Symbol(META_NAMESPACE_IDENTITY, n)))
                ==> self.namespace_index@.contains_key(n)
    }

    spec fn index_wf(&self) -> bool {
        &&& forall|s: Symbol, i: int, kb: u128, kg: u128|
            #[trigger] self.sub_has(s, i, kb, kg) ==> is_key(kb) && is_key(kg) && self.triples@.contains(
                entry_triple(i, s, symbol_of(kb), symbol_of(kg)),
            )
        &&& forall|t: TripleModel|
            #[trigger] self.triples@.contains(t) ==> {
                &&& self.sub_has(t.0, 0, key_of(t.1), key_of(t.2))
                &&& self.sub_has(t.1, 1, key_of(t.2), key_of(t.0))
                &&& self.sub_has(t.2, 2, key_of(t.0), key_of(t.1))
                &&& self.sub_has(t.0, 3, key_of(t.2), key_of(t.1))
                &&& self.sub_has(t.1, 4, key_of(t.0), key_of(t.2))
                &&& self.sub_has(t.2, 5, key_of(t.1), key_of(t.0))
            }
    }

    /// The store's invariant.
    pub closed spec fn wf(&self) -> bool {
        &&& self.namespaces_wf()
        &&& self.symbols_wf()
        &&& self.index_wf()
    }

    /// The free identities of namespace `ns`, as its pool holds them.
    pub closed spec fn free_identities(&self, ns: Identity) -> Set<int> {
        self.namespace_index@[ns].free_pool@
    }

    /// What the invariant gives callers about the model; among it, that the free ranges of a
    /// namespace's pool hold exactly the identities no symbol of the namespace uses.
    pub proof fn lemma_wf(&self)
        requires
            self.wf(),
        ensures
            forall|ns: Identity, x: int| #[trigger] self@.namespaces.contains(ns) && 0 <= x < usize::MAX ==> (
                #[trigger] self.free_identities(ns).contains(x) <==> !self@.symbols.contains_key(Symbol(ns, x as usize))),
            forall|ns: Identity, x: int| #[trigger] self.free_identities(ns).contains(x) && self@.namespaces.contains(ns)
                ==> 0 <= x < usize::MAX,
            forall|s: Symbol| #[trigger] self@.symbols.contains_key(s) ==> self@.namespaces.contains(s.0),
            forall|n: Identity|
                #[trigger] self@.symbols.contains_key(Symbol(META_NAMESPACE_IDENTITY, n)) ==> self@.namespaces.contains(n),
            forall|t: TripleModel| #[trigger] self@.triples.contains(t) ==> has_endpoints(self@, t),
    {
        assert forall|ns: Identity, x: int| #[trigger] self@.namespaces.contains(ns) && 0 <= x < usize::MAX implies (
            #[trigger] self.free_identities(ns).contains(x) <==> !self@.symbols.contains_key(Symbol(ns, x as usize))) by {
            assert(self.symbol_index@.contains_key(key_of(Symbol(ns, x as usize))) <==> (self.namespace_index@.contains_key(ns)
                && self.namespace_index@[ns].symbol_index@.contains(x as usize)));
        }
        assert forall|t: TripleModel| #[trigger] self@.triples.contains(t) implies has_endpoints(self@, t) by {
            assert(self.sub_has(t.0, 0, key_of(t.1), key_of(t.2)));
            assert(self.sub_has(t.1, 1, key_of(t.2), key_of(t.0)));
            assert(self.sub_has(t.2, 2, key_of(t.0), key_of(t.1)));
        }
    }

    /// An empty store.
    pub fn new() -> (r: Store)
        ensures
            r.wf(),
            r@.namespaces == Set::<Identity>::empty(),
            r@.symbols == Map::<Symbol, Seq<bool>>::empty(),
            r@.triples == Set::<TripleModel>::empty(),
    {
        let r = Store { namespace_index: HashMap::new(), symbol_index: HashMap::new(), triples: Ghost(Set::empty()) };
        proof {
            assert(r@.symbols =~= Map::<Symbol, Seq<bool>>::empty());
            assert(r@.namespaces =~= Set::<Identity>::empty());
        }
        r
    }

    /// The invariant's triple part depends on the symbol map and the triples alone.
    #[verifier::rlimit(30)]
    proof fn lemma_index_frame(a: &Store, b: &Store)
        requires
            a.index_wf(),
            a.symbol_index@ == b.symbol_index@,
            a.triples@ == b.triples@,
        ensures
            b.index_wf(),
    {
        assert forall|t: Symbol, i: int, kb: u128, kg: u128| #[trigger] b.sub_has(t, i, kb, kg) == a.sub_has(t, i, kb, kg) by {}
        assert forall|t: Symbol, i: int, kb: u128, kg: u128| #[trigger] b.sub_has(t, i, kb, kg) implies is_key(kb)
            && is_key(kg) && b.triples@.contains(entry_triple(i, t, symbol_of(kb), symbol_of(kg))) by {
            assert(a.sub_has(t, i, kb, kg));
        }
        assert forall|t: TripleModel| #[trigger] b.triples@.contains(t) implies {
            &&& b.sub_has(t.0, 0, key_of(t.1), key_of(t.2))
            &&& b.sub_has(t.1, 1, key_of(t.2), key_of(t.0))
            &&& b.sub_has(t.2, 2, key_of(t.0), key_of(t.1))
            &&& b.sub_has(t.0, 3, key_of(t.2), key_of(t.1))
            &&& b.sub_has(t.1, 4, key_of(t.0), key_of(t.2))
            &&& b.sub_has(t.2, 5, key_of(t.1), key_of(t.0))
        } by {
            assert(a.triples@.contains(t));
        }
    }

    /// Adding a symbol whose subindices are empty keeps the triple part of the invariant.
    #[verifier::rlimit(50)]
    proof fn lemma_index_add_symbol(a: &Store, b: &Store, s: Symbol)
        requires
            a.index_wf(),
            a.symbols_wf(),
            !a.symbol_index@.contains_key(key_of(s)),
            b.symbol_index@.contains_key(key_of(s)),
            forall|i: int| 0 <= i < 6 ==> #[trigger] b.symbol_index@[key_of(s)].subindices@[i]@ == Map::<u128, GammaCollection>::empty(),
            b.symbol_index@ == a.symbol_index@.insert(key_of(s), b.symbol_index@[key_of(s)]),
            a.triples@ == b.triples@,
            forall|t: TripleModel| #[trigger] a.triples@.contains(t) ==> a.symbol_index@.contains_key(key_of(t.0))
                && a.symbol_index@.contains_key(key_of(t.1)) && a.symbol_index@.contains_key(key_of(t.2)),
        ensures
            b.index_wf(),
    {
        assert forall|t: Symbol, i: int, kb: u128, kg: u128| #[trigger] b.sub_has(t, i, kb, kg) implies a.sub_has(t, i, kb, kg) by {
            lemma_key_injective(s, t);
        }
        assert forall|t: Symbol, i: int, kb: u128, kg: u128| #[trigger] b.sub_has(t, i, kb, kg) implies is_key(kb)
            && is_key(kg) && b.triples@.contains(entry_triple(i, t, symbol_of(kb), symbol_of(kg))) by {
            assert(a.sub_has(t, i, kb, kg));
        }
        assert forall|t: TripleModel| #[trigger] b.triples@.contains(t) implies {
            &&& b.sub_has(t.0, 0, key_of(t.1), key_of(t.2))
            &&& b.sub_has(t.1, 1, key_of(t.2), key_of(t.0))
            &&& b.sub_has(t.2, 2, key_of(t.0), key_of(t.1))
            &&& b.sub_has(t.0, 3, key_of(t.2), key_of(t.1))
            &&& b.sub_has(t.1, 4, key_of(t.0), key_of(t.2))
            &&& b.sub_has(t.2, 5, key_of(t.1), key_of(t.0))
        } by {
            assert(a.triples@.contains(t));
            assert(a.sub_has(t.0, 0, key_of(t.1), key_of(t.2)));
            assert(a.sub_has(t.1, 1, key_of(t.2), key_of(t.0)));
            assert(a.sub_has(t.2, 2, key_of(t.0), key_of(t.1)));
            assert(a.sub_has(t.0, 3, key_of(t.2), key_of(t.1)));
            assert(a.sub_has(t.1, 4, key_of(t.0), key_of(t.2)));
            assert(a.sub_has(t.2, 5, key_of(t.1), key_of(t.0)));
            lemma_key_injective(s, t.0);
            lemma_key_injective(s, t.1);
            lemma_key_injective(s, t.2);
        }
    }

    fn manifest_namespace(&mut self, namespace_identity: Identity)
        requires
            old(self).wf(),
        ensures
            final(self).wf(),
            final(self)@ == (StoreModel { namespaces: old(self)@.namespaces.insert(namespace_identity), ..old(self)@ }),
            final(self).symbol_index@ == old(self).symbol_index@,
    {
        if !self.namespace_index.contains_key(&namespace_identity) {
            let namespace_handle = NamespaceHandle { free_pool: IdentityPool::new(), symbol_index: HashSet::new() };
            self.namespace_index.insert(namespace_identity, namespace_handle);
            proof {
                assert forall|s: Symbol| #[trigger] self.symbol_index@.contains_key(key_of(s)) <==> (
                    self.namespace_index@.contains_key(s.0) && self.namespace_index@[s.0].symbol_index@.contains(s.1)) by {
                    assert(old(self).symbol_index@.contains_key(key_of(s)) <==> (old(self).namespace_index@.contains_key(s.0)
                        && old(self).namespace_index@[s.0].symbol_index@.contains(s.1)));
                }
                assert(self.namespaces_wf());
                Self::lemma_index_frame(old(self), self);
            }
        }
        proof {
            assert(self@.namespaces =~= old(self)@.namespaces.insert(namespace_identity));
            assert(self@.symbols =~= old(self)@.symbols);
        }
    }

    fn new_symbol_handle() -> (h: SymbolHandle)
        ensures
            h.wf(),
            h.data_length == 0,
            h.data_content@ == Seq::<u64>::empty(),
            forall|i: int| 0 <= i < 6 ==> #[trigger] h.subindices@[i]@ == Map::<u128, GammaCollection>::empty(),
    {
        let mut subindices: Vec<BetaCollection> = Vec::new();
        let mut i: usize = 0;
        while i < 6
            invariant
                i <= 6,
                subindices@.len() == i,
                forall|j: int| 0 <= j < i ==> #[trigger] subindices@[j]@ == Map::<u128, GammaCollection>::empty(),
            decreases 6 - i,
        {
            subindices.push(HashMap::new());
            i = i + 1;
        }
        SymbolHandle { data_content: Vec::new(), data_length: 0, subindices }
    }

    proof fn lemma_namespace_add(a: &Store, b: &Store, s: Symbol)
        requires
            a.namespaces_wf(),
            a.namespace_index@.contains_key(s.0),
            !a.namespace_index@[s.0].symbol_index@.contains(s.1),
            b.namespace_index@ == a.namespace_index@.insert(s.0, b.namespace_index@[s.0]),
            b.namespace_index@[s.0].symbol_index@ == a.namespace_index@[s.0].symbol_index@.insert(s.1),
            b.namespace_index@[s.0].free_pool.wf(),
            b.namespace_index@[s.0].free_pool@ == a.namespace_index@[s.0].free_pool@.remove(s.1 as int),
        ensures
            b.namespaces_wf(),
    {
        assert forall|ns: Identity| #[trigger] b.namespace_index@.contains_key(ns) implies ({
            let h = b.namespace_index@[ns];
            &&& h.free_pool.wf()
            &&& forall|x: int|
                #[trigger] h.free_pool@.contains(x) <==> (0 <= x < usize::MAX && !h.symbol_index@.contains(x as usize))
        }) by {
            if ns == s.0 {
                let h = b.namespace_index@[ns];
                let oh = a.namespace_index@[ns];
                assert forall|x: int| #[trigger] h.free_pool@.contains(x) <==> (0 <= x < usize::MAX
                    && !h.symbol_index@.contains(x as usize)) by {
                    assert(oh.free_pool@.contains(x) <==> (0 <= x < usize::MAX && !oh.symbol_index@.contains(x as usize)));
                }
            }
        }
    }

    /// Adds the symbol `s` (whose namespace exists) with an empty payload and no triples.
    #[verifier::rlimit(30)]
    fn insert_symbol(&mut self, s: Symbol)
        requires
            old(self).wf(),
            old(self)@.namespaces.contains(s.0),
            s.0 == META_NAMESPACE_IDENTITY ==> old(self)@.namespaces.contains(s.1),
            !old(self)@.symbols.contains_key(s),
        ensures
            final(self).wf(),
            final(self)@ == (StoreModel { symbols: old(self)@.symbols.insert(s, Seq::empty()), ..old(self)@ }),
    {
        let ghost old_self = *self;
        proof {
            old_self.lemma_wf();
            assert forall|t: TripleModel| #[trigger] old_self.triples@.contains(t) implies old_self.symbol_index@.contains_key(key_of(t.0))
                && old_self.symbol_index@.contains_key(key_of(t.1)) && old_self.symbol_index@.contains_key(key_of(t.2)) by {
                assert(has_endpoints(old_self@, t));
            }
        }
        let k = symbol_key(s);
        proof {
            lemma_key(s);
        }
        let handle = Self::new_symbol_handle();
        self.symbol_index.insert(k, handle);
        let ghost mid = *self;
        proof {
            Self::lemma_index_add_symbol(&old_self, &mid, s);
        }
        let mut namespace_handle = self.namespace_index.remove(&s.0).unwrap();
        namespace_handle.symbol_index.insert(s.1);
        namespace_handle.free_pool.remove(s.1);
        self.namespace_index.insert(s.0, namespace_handle);
        proof {
            assert(self.namespace_index@ =~= old_self.namespace_index@.insert(s.0, self.namespace_index@[s.0]));
            Self::lemma_index_frame(&mid, self);
            Self::lemma_namespace_add(&old_self, self, s);
            assert forall|t: Symbol| #[trigger] self.symbol_index@.contains_key(key_of(t)) <==> (
                self.namespace_index@.contains_key(t.0) && self.namespace_index@[t.0].symbol_index@.contains(t.1)) by {
                lemma_key_injective(s, t);
                assert(old_self.symbol_index@.contains_key(key_of(t)) <==> (old_self.namespace_index@.contains_key(t.0)
                    && old_self.namespace_index@[t.0].symbol_index@.contains(t.1)));
            }
            assert forall|n: Identity|
                #[trigger] self.symbol_index@.contains_key(key_of(Symbol(META_NAMESPACE_IDENTITY, n)))
                    implies self.namespace_index@.contains_key(n) by {
                lemma_key_injective(s, Symbol(META_NAMESPACE_IDENTITY, n));
                if s != Symbol(META_NAMESPACE_IDENTITY, n) {
                    assert(old_self.symbol_index@.contains_key(key_of(Symbol(META_NAMESPACE_IDENTITY, n))));
                }
            }
            assert(self.symbols_wf());
            assert(self@.symbols =~= old_self@.symbols.insert(s, Seq::empty())) by {
                assert forall|t: Symbol| #[trigger] self@.symbols.contains_key(t) == old_self@.symbols.insert(s, Seq::empty()).contains_key(t) by {
                    lemma_key_injective(s, t);
                }
                assert(bits_of(Seq::<u64>::empty(), 0, 0) =~= Seq::<bool>::empty());
                assert forall|t: Symbol| #[trigger] self@.symbols.contains_key(t) implies self@.symbols[t] == old_self@.symbols.insert(s, Seq::empty())[t] by {
                    lemma_key_injective(s, t);
                }
            }
            assert(self@.namespaces =~= old_self@.namespaces);
        }
    }

    fn manifest_symbol_internal(&mut self, symbol: Symbol) -> (r: bool)
        requires
            old(self).wf(),
        ensures
            final(self).wf(),
            r == !old(self)@.symbols.contains_key(symbol),
            final(self)@ == manifested(old(self)@, symbol),
    {
        proof {
            self.lemma_wf();
        }
        self.manifest_namespace(symbol.0);
        let k = symbol_key(symbol);
        if self.symbol_index.contains_key(&k) {
            proof {
                self.lemma_wf();
                if symbol.0 == META_NAMESPACE_IDENTITY {
                    assert(self@.namespaces.contains(symbol.1));
                    assert(self@.namespaces.insert(symbol.1) =~= self@.namespaces);
                }
                assert(self@.symbols.contains_key(symbol));
            }
            return false;
        }
        if symbol.0 == META_NAMESPACE_IDENTITY {
            self.manifest_namespace(symbol.1);
        }
        proof {
            assert(!self@.symbols.contains_key(symbol));
        }
        self.insert_symbol(symbol);
        proof {
            assert(self@.namespaces =~= manifested(old(self)@, symbol).namespaces);
        }
        true
    }



    /// Links or unlinks the entry `b -> g` of subindex `i` of the existing symbol `p`.
    fn set_entry(&mut self, p: Symbol, i: usize, b: Symbol, g: Symbol, linked: bool) -> (r: bool)
        requires
            old(self).symbols_wf(),
            old(self).symbol_index@.contains_key(key_of(p)),
            i < 6,
        ensures
            final(self).symbols_wf(),
            final(self).namespace_index@ == old(self).namespace_index@,
            final(self).triples@ == old(self).triples@,
            final(self)@.symbols == old(self)@.symbols,
            r == (linked != old(self).sub_has(p, i as int, key_of(b), key_of(g))),
            forall|s: Symbol, j: int, kb: u128, kg: u128| #[trigger] final(self).sub_has(s, j, kb, kg) == if s == p && j
                == i && kb == key_of(b) && kg == key_of(g) {
                linked
            } else {
                old(self).sub_has(s, j, kb, kg)
            },
    {
        let ghost old_self = *self;
        let k = symbol_key(p);
        let kb = symbol_key(b);
        let kg = symbol_key(g);
        let mut handle = self.symbol_index.remove(&k).unwrap();
        let ghost h0 = handle;
        let mut beta_self = handle.subindices.remove(i);
        let r = set_triple_subindex(&mut beta_self, kb, kg, linked);
        handle.subindices.insert(i, beta_self);
        self.symbol_index.insert(k, handle);
        proof {
            assert(handle.subindices@ =~= h0.subindices@.update(i as int, beta_self));
            assert(self.symbol_index@ =~= old_self.symbol_index@.insert(k, handle));
            assert(handle.payload() == h0.payload());
            assert forall|s: Symbol, j: int, xb: u128, xg: u128| #[trigger] self.sub_has(s, j, xb, xg) == if s == p
                && j == i && xb == key_of(b) && xg == key_of(g) {
                linked
            } else {
                old_self.sub_has(s, j, xb, xg)
            } by {
                lemma_key_injective(s, p);
            }
            assert(self@.symbols =~= old_self@.symbols);
            assert forall|s: Symbol| #[trigger] self.symbol_index@.contains_key(key_of(s)) <==> (
                self.namespace_index@.contains_key(s.0) && self.namespace_index@[s.0].symbol_index@.contains(s.1)) by {
                assert(old_self.symbol_index@.contains_key(key_of(s)) <==> (old_self.namespace_index@.contains_key(s.0)
                    && old_self.namespace_index@[s.0].symbol_index@.contains(s.1)));
            }
            assert forall|n: Identity|
                #[trigger] self.symbol_index@.contains_key(key_of(Symbol(META_NAMESPACE_IDENTITY, n)))
                    implies self.namespace_index@.contains_key(n) by {
                assert(old_self.symbol_index@.contains_key(key_of(Symbol(META_NAMESPACE_IDENTITY, n))));
            }
            assert forall|x: u128| #[trigger] self.symbol_index@.contains_key(x) implies is_key(x) && self.symbol_index@[x].wf() by {
                if x != k {
                    assert(old_self.symbol_index@.contains_key(x));
                } else {
                    assert forall|j: int| 0 <= j < 6 implies beta_wf(#[trigger] handle.subindices@[j]@) by {
                        if j != i {
                            assert(handle.subindices@[j] == h0.subindices@[j]);
                        }
                    }
                }
            }
        }
        r
    }

    /// Sets the six subindex entries of `triple`, whose symbols exist; true where the
    /// triple's linked state changes.
    #[verifier::rlimit(50)]
    fn set_triple_entries(&mut self, triple: Triple, linked: bool) -> (r: bool)
        requires
            old(self).wf(),
            has_endpoints(old(self)@, triple_model(triple)),
        ensures
            final(self).symbols_wf(),
            final(self).namespace_index@ == old(self).namespace_index@,
            final(self).triples@ == old(self).triples@,
            final(self)@.symbols == old(self)@.symbols,
            r == (linked != old(self)@.triples.contains(triple_model(triple))),
            forall|s: Symbol, j: int, kb: u128, kg: u128| #[trigger] final(self).sub_has(s, j, kb, kg) == if 0 <= j < 6
                && (s, kb, kg) == (entry_of(j, triple_model(triple)).0, key_of(entry_of(j, triple_model(triple)).1), key_of(
                entry_of(j, triple_model(triple)).2)) {
                linked
            } else {
                old(self).sub_has(s, j, kb, kg)
            },
    {
        let ghost old_self = *self;
        let ghost t = triple_model(triple);
        proof {
            assert(old_self.sub_has(t.0, 0, key_of(t.1), key_of(t.2)) == old_self.triples@.contains(t)) by {
                if old_self.sub_has(t.0, 0, key_of(t.1), key_of(t.2)) {
                    lemma_key(t.1);
                    lemma_key(t.2);
                }
            }
        }
        let ghost c = linked != old_self.triples@.contains(t);
        proof {
            if old_self.triples@.contains(t) {
                assert(old_self.sub_has(t.1, 1, key_of(t.2), key_of(t.0)));
                assert(old_self.sub_has(t.2, 2, key_of(t.0), key_of(t.1)));
                assert(old_self.sub_has(t.0, 3, key_of(t.2), key_of(t.1)));
                assert(old_self.sub_has(t.1, 4, key_of(t.0), key_of(t.2)));
                assert(old_self.sub_has(t.2, 5, key_of(t.1), key_of(t.0)));
            } else {
                Self::lemma_entries_absent(&old_self, t);
            }
        }
        let r0 = self.set_entry(triple[0], 0, triple[1], triple[2], linked);
        let ghost st0 = *self;
        let r1 = self.set_entry(triple[1], 1, triple[2], triple[0], linked);
        proof {
            assert(st0.sub_has(t.1, 1, key_of(t.2), key_of(t.0)) == old_self.sub_has(t.1, 1, key_of(t.2), key_of(t.0)));
        }
        let ghost st1 = *self;
        let r2 = self.set_entry(triple[2], 2, triple[0], triple[1], linked);
        proof {
            assert(st1.sub_has(t.2, 2, key_of(t.0), key_of(t.1)) == st0.sub_has(t.2, 2, key_of(t.0), key_of(t.1)));
            assert(st0.sub_has(t.2, 2, key_of(t.0), key_of(t.1)) == old_self.sub_has(t.2, 2, key_of(t.0), key_of(t.1)));
        }
        let ghost st2 = *self;
        let r3 = self.set_entry(triple[0], 3, triple[2], triple[1], linked);
        proof {
            assert(st2.sub_has(t.0, 3, key_of(t.2), key_of(t.1)) == st1.sub_has(t.0, 3, key_of(t.2), key_of(t.1)));
            assert(st1.sub_has(t.0, 3, key_of(t.2), key_of(t.1)) == st0.sub_has(t.0, 3, key_of(t.2), key_of(t.1)));
            assert(st0.sub_has(t.0, 3, key_of(t.2), key_of(t.1)) == old_self.sub_has(t.0, 3, key_of(t.2), key_of(t.1)));
        }
        let ghost st3 = *self;
        let r4 = self.set_entry(triple[1], 4, triple[0], triple[2], linked);
        proof {
            assert(st3.sub_has(t.1, 4, key_of(t.0), key_of(t.2)) == st2.sub_has(t.1, 4, key_of(t.0), key_of(t.2)));
            assert(st2.sub_has(t.1, 4, key_of(t.0), key_of(t.2)) == st1.sub_has(t.1, 4, key_of(t.0), key_of(t.2)));
            assert(st1.sub_has(t.1, 4, key_of(t.0), key_of(t.2)) == st0.sub_has(t.1, 4, key_of(t.0), key_of(t.2)));
            assert(st0.sub_has(t.1, 4, key_of(t.0), key_of(t.2)) == old_self.sub_has(t.1, 4, key_of(t.0), key_of(t.2)));
        }
        let ghost st4 = *self;
        let r5 = self.set_entry(triple[2], 5, triple[1], triple[0], linked);
        proof {
            assert(st4.sub_has(t.2, 5, key_of(t.1), key_of(t.0)) == st3.sub_has(t.2, 5, key_of(t.1), key_of(t.0)));
            assert(st3.sub_has(t.2, 5, key_of(t.1), key_of(t.0)) == st2.sub_has(t.2, 5, key_of(t.1), key_of(t.0)));
            assert(st2.sub_has(t.2, 5, key_of(t.1), key_of(t.0)) == st1.sub_has(t.2, 5, key_of(t.1), key_of(t.0)));
            assert(st1.sub_has(t.2, 5, key_of(t.1), key_of(t.0)) == st0.sub_has(t.2, 5, key_of(t.1), key_of(t.0)));
            assert(st0.sub_has(t.2, 5, key_of(t.1), key_of(t.0)) == old_self.sub_has(t.2, 5, key_of(t.1), key_of(t.0)));
        }
        let ghost st5 = *self;
        proof {
            Self::lemma_six_entries(&old_self, &st0, &st1, &st2, &st3, &st4, &st5, self, t, linked);
            assert(self@.symbols == old_self@.symbols);
        }
        r0 || r1 || r2 || r3 || r4 || r5
    }

    #[verifier::rlimit(30)]
    fn set_triple_internal(&mut self, triple: Triple, linked: bool) -> (r: bool)
        requires
            old(self).wf(),
        ensures
            final(self).wf(),
            r == (has_endpoints(old(self)@, triple_model(triple)) && linked != old(self)@.triples.contains(triple_model(triple))),
            final(self)@ == (StoreModel {
                triples: if !has_endpoints(old(self)@, triple_model(triple)) {
                    old(self)@.triples
                } else if linked {
                    old(self)@.triples.insert(triple_model(triple))
                } else {
                    old(self)@.triples.remove(triple_model(triple))
                },
                ..old(self)@
            }),
    {
        let ghost old_self = *self;
        let ghost t = triple_model(triple);
        let k0 = symbol_key(triple[0]);
        let k1 = symbol_key(triple[1]);
        let k2 = symbol_key(triple[2]);
        if !self.symbol_index.contains_key(&k0) || !self.symbol_index.contains_key(&k1) || !self.symbol_index.contains_key(&k2) {
            return false;
        }
        let r = self.set_triple_entries(triple, linked);
        let ghost mid = *self;
        let ghost new_triples = if linked { old_self.triples@.insert(t) } else { old_self.triples@.remove(t) };
        self.triples = Ghost(new_triples);
        proof {
            assert forall|s: Symbol, j: int, kb: u128, kg: u128| #[trigger] self.sub_has(s, j, kb, kg) == mid.sub_has(s, j, kb, kg) by {}
            Self::lemma_set_triple_index(&old_self, self, t, linked);
            assert(self@.symbols == old_self@.symbols);
        }
        r
    }

    /// A triple that is not linked has none of its six entries.
    proof fn lemma_entries_absent(a: &Store, t: TripleModel)
        requires
            a.index_wf(),
            !a.triples@.contains(t),
        ensures
            !a.sub_has(t.0, 0, key_of(t.1), key_of(t.2)),
            !a.sub_has(t.1, 1, key_of(t.2), key_of(t.0)),
            !a.sub_has(t.2, 2, key_of(t.0), key_of(t.1)),
            !a.sub_has(t.0, 3, key_of(t.2), key_of(t.1)),
            !a.sub_has(t.1, 4, key_of(t.0), key_of(t.2)),
            !a.sub_has(t.2, 5, key_of(t.1), key_of(t.0)),
    {
        lemma_key(t.0);
        lemma_key(t.1);
        lemma_key(t.2);
        assert(!a.sub_has(t.0, 0, key_of(t.1), key_of(t.2)));
        assert(!a.sub_has(t.1, 1, key_of(t.2), key_of(t.0)));
        assert(!a.sub_has(t.2, 2, key_of(t.0), key_of(t.1)));
        assert(!a.sub_has(t.0, 3, key_of(t.2), key_of(t.1)));
        assert(!a.sub_has(t.1, 4, key_of(t.0), key_of(t.2)));
        assert(!a.sub_has(t.2, 5, key_of(t.1), key_of(t.0)));
    }

    /// Six entry updates, one per subindex, compose into setting the entries of `t`.
    proof fn lemma_six_entries(
        old_self: &Store,
        st0: &Store,
        st1: &Store,
        st2: &Store,
        st3: &Store,
        st4: &Store,
        st5: &Store,
        b: &Store,
        t: TripleModel,
        linked: bool,
    )
        requires
            forall|s: Symbol, j: int, kb: u128, kg: u128| #[trigger] st0.sub_has(s, j, kb, kg) == if s == t.0 && j == 0
                && kb == key_of(t.1) && kg == key_of(t.2) { linked } else { old_self.sub_has(s, j, kb, kg) },
            forall|s: Symbol, j: int, kb: u128, kg: u128| #[trigger] st1.sub_has(s, j, kb, kg) == if s == t.1 && j == 1
                && kb == key_of(t.2) && kg == key_of(t.0) { linked } else { st0.sub_has(s, j, kb, kg) },
            forall|s: Symbol, j: int, kb: u128, kg: u128| #[trigger] st2.sub_has(s, j, kb, kg) == if s == t.2 && j == 2
                && kb == key_of(t.0) && kg == key_of(t.1) { linked } else { st1.sub_has(s, j, kb, kg) },
            forall|s: Symbol, j: int, kb: u128, kg: u128| #[trigger] st3.sub_has(s, j, kb, kg) == if s == t.0 && j == 3
                && kb == key_of(t.2) && kg == key_of(t.1) { linked } else { st2.sub_has(s, j, kb, kg) },
            forall|s: Symbol, j: int, kb: u128, kg: u128| #[trigger] st4.sub_has(s, j, kb, kg) == if s == t.1 && j == 4
                && kb == key_of(t.0) && kg == key_of(t.2) { linked } else { st3.sub_has(s, j, kb, kg) },
            forall|s: Symbol, j: int, kb: u128, kg: u128| #[trigger] st5.sub_has(s, j, kb, kg) == if s == t.2 && j == 5
                && kb == key_of(t.1) && kg == key_of(t.0) { linked } else { st4.sub_has(s, j, kb, kg) },
            b.symbol_index@ == st5.symbol_index@,
        ensures
            forall|s: Symbol, j: int, kb: u128, kg: u128| #[trigger] b.sub_has(s, j, kb, kg) == if 0 <= j < 6 && (s, kb, kg)
                == (entry_of(j, t).0, key_of(entry_of(j, t).1), key_of(entry_of(j, t).2)) {
                linked
            } else {
                old_self.sub_has(s, j, kb, kg)
            },
    {
            assert forall|s: Symbol, j: int, kb: u128, kg: u128| #[trigger] b.sub_has(s, j, kb, kg) == if 0 <= j < 6
                && (s, kb, kg) == (entry_of(j, t).0, key_of(entry_of(j, t).1), key_of(entry_of(j, t).2)) {
                linked
            } else {
                old_self.sub_has(s, j, kb, kg)
            } by {
                assert(b.sub_has(s, j, kb, kg) == st5.sub_has(s, j, kb, kg));
                assert(st5.sub_has(s, j, kb, kg) == if s == t.2 && j == 5 && kb == key_of(t.1) && kg == key_of(t.0) {
                    linked
                } else {
                    st4.sub_has(s, j, kb, kg)
                });
                assert(st4.sub_has(s, j, kb, kg) == if s == t.1 && j == 4 && kb == key_of(t.0) && kg == key_of(t.2) {
                    linked
                } else {
                    st3.sub_has(s, j, kb, kg)
                });
                assert(st3.sub_has(s, j, kb, kg) == if s == t.0 && j == 3 && kb == key_of(t.2) && kg == key_of(t.1) {
                    linked
                } else {
                    st2.sub_has(s, j, kb, kg)
                });
                assert(st2.sub_has(s, j, kb, kg) == if s == t.2 && j == 2 && kb == key_of(t.0) && kg == key_of(t.1) {
                    linked
                } else {
                    st1.sub_has(s, j, kb, kg)
                });
                assert(st1.sub_has(s, j, kb, kg) == if s == t.1 && j == 1 && kb == key_of(t.2) && kg == key_of(t.0) {
                    linked
                } else {
                    st0.sub_has(s, j, kb, kg)
                });
                assert(st0.sub_has(s, j, kb, kg) == if s == t.0 && j == 0 && kb == key_of(t.1) && kg == key_of(t.2) {
                    linked
                } else {
                    old_self.sub_has(s, j, kb, kg)
                });
            }
    }

    proof fn lemma_set_triple_index(a: &Store, b: &Store, t: TripleModel, linked: bool)
        requires
            a.index_wf(),
            b.triples@ == if linked { a.triples@.insert(t) } else { a.triples@.remove(t) },
            a.symbol_index@.contains_key(key_of(t.0)),
            a.symbol_index@.contains_key(key_of(t.1)),
            a.symbol_index@.contains_key(key_of(t.2)),
            forall|s: Symbol, j: int, kb: u128, kg: u128| #[trigger] b.sub_has(s, j, kb, kg) == if 0 <= j < 6 && (s, kb, kg)
                == (entry_of(j, t).0, key_of(entry_of(j, t).1), key_of(entry_of(j, t).2)) {
                linked
            } else {
                a.sub_has(s, j, kb, kg)
            },
        ensures
            b.index_wf(),
    {
        assert forall|s: Symbol, i: int, kb: u128, kg: u128| #[trigger] b.sub_has(s, i, kb, kg) implies is_key(kb)
            && is_key(kg) && b.triples@.contains(entry_triple(i, s, symbol_of(kb), symbol_of(kg))) by {
            if 0 <= i < 6 && (s, kb, kg) == (entry_of(i, t).0, key_of(entry_of(i, t).1), key_of(entry_of(i, t).2)) {
                lemma_key(entry_of(i, t).1);
                lemma_key(entry_of(i, t).2);
                lemma_entry_inverse(i, s, symbol_of(kb), symbol_of(kg), t);
            } else {
                assert(a.sub_has(s, i, kb, kg));
                lemma_key_of_symbol(kb);
                lemma_key_of_symbol(kg);
                lemma_entry_inverse(i, s, symbol_of(kb), symbol_of(kg), t);
            }
        }
        assert forall|u: TripleModel| #[trigger] b.triples@.contains(u) implies {
            &&& b.sub_has(u.0, 0, key_of(u.1), key_of(u.2))
            &&& b.sub_has(u.1, 1, key_of(u.2), key_of(u.0))
            &&& b.sub_has(u.2, 2, key_of(u.0), key_of(u.1))
            &&& b.sub_has(u.0, 3, key_of(u.2), key_of(u.1))
            &&& b.sub_has(u.1, 4, key_of(u.0), key_of(u.2))
            &&& b.sub_has(u.2, 5, key_of(u.1), key_of(u.0))
        } by {
            if u != t {
                assert(a.triples@.contains(u));
                lemma_key_injective(u.0, t.0);
                lemma_key_injective(u.1, t.1);
                lemma_key_injective(u.2, t.2);
                lemma_key_injective(u.0, t.1);
                lemma_key_injective(u.1, t.2);
                lemma_key_injective(u.2, t.0);
                lemma_key_injective(u.0, t.2);
                lemma_key_injective(u.1, t.0);
                lemma_key_injective(u.2, t.1);
            }
        }
    }


    fn get_symbol_handle(&self, symbol: Symbol) -> (r: Option<&SymbolHandle>)
        ensures
            r is Some == self.symbol_index@.contains_key(key_of(symbol)),
            r is Some ==> *r->0 == self.symbol_index@[key_of(symbol)],
    {
        let k = symbol_key(symbol);
        self.symbol_index.get(&k)
    }

    /// Putting back, under key `k`, a handle whose payload changed keeps the invariant.
    proof fn lemma_payload_replaced(a: &Store, b: &Store, k: u128, h: SymbolHandle)
        requires
            a.wf(),
            a.symbol_index@.contains_key(k),
            b.symbol_index@ == a.symbol_index@.insert(k, h),
            h.subindices@ == a.symbol_index@[k].subindices@,
            h.data_length <= h.data_content@.len() * 64,
            b.namespace_index@ == a.namespace_index@,
            b.triples@ == a.triples@,
        ensures
            b.wf(),
            b@ == (StoreModel { symbols: a@.symbols.insert(symbol_of(k), h.payload()), ..a@ }),
    {
        assert forall|s: Symbol, i: int, kb: u128, kg: u128| #[trigger] b.sub_has(s, i, kb, kg) == a.sub_has(s, i, kb, kg) by {
            lemma_key_injective(s, symbol_of(k));
            lemma_key_of_symbol(k);
        }
        Self::lemma_index_frame_sub(a, b);
        assert forall|s: Symbol| #[trigger] b.symbol_index@.contains_key(key_of(s)) <==> (
            b.namespace_index@.contains_key(s.0) && b.namespace_index@[s.0].symbol_index@.contains(s.1)) by {
            assert(a.symbol_index@.contains_key(key_of(s)) <==> (a.namespace_index@.contains_key(s.0)
                && a.namespace_index@[s.0].symbol_index@.contains(s.1)));
        }
        assert forall|n: Identity|
            #[trigger] b.symbol_index@.contains_key(key_of(Symbol(META_NAMESPACE_IDENTITY, n)))
                implies b.namespace_index@.contains_key(n) by {
            assert(a.symbol_index@.contains_key(key_of(Symbol(META_NAMESPACE_IDENTITY, n))));
        }
        assert forall|x: u128| #[trigger] b.symbol_index@.contains_key(x) implies is_key(x) && b.symbol_index@[x].wf() by {
            assert(a.symbol_index@.contains_key(x));
        }
        lemma_key_of_symbol(k);
        assert(b@.symbols =~= a@.symbols.insert(symbol_of(k), h.payload())) by {
            assert forall|s: Symbol| #[trigger] b@.symbols.contains_key(s) == a@.symbols.insert(symbol_of(k), h.payload()).contains_key(s) by {
                lemma_key_injective(s, symbol_of(k));
            }
            assert forall|s: Symbol| #[trigger] b@.symbols.contains_key(s) implies b@.symbols[s] == a@.symbols.insert(symbol_of(k), h.payload())[s] by {
                lemma_key_injective(s, symbol_of(k));
            }
        }
    }

    proof fn lemma_index_frame_sub(a: &Store, b: &Store)
        requires
            a.index_wf(),
            forall|s: Symbol, i: int, kb: u128, kg: u128| #[trigger] b.sub_has(s, i, kb, kg) == a.sub_has(s, i, kb, kg),
            a.triples@ == b.triples@,
        ensures
            b.index_wf(),
    {
        assert forall|t: Symbol, i: int, kb: u128, kg: u128| #[trigger] b.sub_has(t, i, kb, kg) implies is_key(kb)
            && is_key(kg) && b.triples@.contains(entry_triple(i, t, symbol_of(kb), symbol_of(kg))) by {
            assert(a.sub_has(t, i, kb, kg));
        }
        assert forall|t: TripleModel| #[trigger] b.triples@.contains(t) implies {
            &&& b.sub_has(t.0, 0, key_of(t.1), key_of(t.2))
            &&& b.sub_has(t.1, 1, key_of(t.2), key_of(t.0))
            &&& b.sub_has(t.2, 2, key_of(t.0), key_of(t.1))
            &&& b.sub_has(t.0, 3, key_of(t.2), key_of(t.1))
            &&& b.sub_has(t.1, 4, key_of(t.0), key_of(t.2))
            &&& b.sub_has(t.2, 5, key_of(t.1), key_of(t.0))
        } by {
            assert(a.triples@.contains(t));
            assert(a.sub_has(t.0, 0, key_of(t.1), key_of(t.2)));
            assert(a.sub_has(t.1, 1, key_of(t.2), key_of(t.0)));
            assert(a.sub_has(t.2, 2, key_of(t.0), key_of(t.1)));
            assert(a.sub_has(t.0, 3, key_of(t.2), key_of(t.1)));
            assert(a.sub_has(t.1, 4, key_of(t.0), key_of(t.2)));
            assert(a.sub_has(t.2, 5, key_of(t.1), key_of(t.0)));
        }
    }





    /// A buffer of `words` zero words.
    fn zero_words(words: usize) -> (r: Vec<u64>)
        ensures
            r@.len() == words,
            forall|k: int| 0 <= k < words * 64 ==> !#[trigger] seq_bit(r@, k),
    {
        let mut r: Vec<u64> = Vec::new();
        let mut i: usize = 0;
        while i < words
            invariant
                i <= words,
                r@.len() == i,
                forall|w: int| 0 <= w < i ==> #[trigger] r@[w] == 0u64,
            decreases words - i,
        {
            r.push(0u64);
            i = i + 1;
        }
        proof {
            assert forall|k: int| 0 <= k < words * 64 implies !#[trigger] seq_bit(r@, k) by {
                lemma_bit_split(k);
                assert(k / 64 < words) by (nonlinear_arith)
                    requires
                        k == (k / 64) * 64 + k % 64,
                        0 <= k % 64 < 64,
                        k < words * 64,
                ;
                let j = (k % 64) as u64;
                assert((0u64 >> j) & 1u64 == 0u64) by (bit_vector);
            }
        }
        r
    }


    /// Every entry of subindex `i` stands in that subindex of its symbol.
    proof fn lemma_entry_indexed(&self, i: int, e: TripleModel)
        requires
            self.wf(),
            0 <= i < 6,
            entries(self.triples@, i).contains(e),
        ensures
            self.sub_has(e.0, i, key_of(e.1), key_of(e.2)),
    {
        let t = entry_triple(i, e.0, e.1, e.2);
        assert(self.triples@.contains(t));
        lemma_normalized_inverse(i, t, e);
    }

    /// The results of a query for symbol `p` in the enumerated or matched slot 0.
    spec fn pivot_rows(e_set: Set<TripleModel>, p: Symbol, l1: int, l2: int, q: TripleModel) -> Set<TripleModel> {
        Set::new(
            |u: TripleModel|
                exists|e: TripleModel|
                    #![trigger e_set.contains(e)]
                    e_set.contains(e) && e.0 == p && slot_ok(l1, e.1, q.1) && slot_ok(l2, e.2, q.2) && u == (
                        p,
                        slot_out(l1, e.1, q.1),
                        slot_out(l2, e.2, q.2),
                    ),
        )
    }

    /// What the subindex `i` of the existing symbol `p` yields, decoded, is the rows for `p`.
    #[verifier::rlimit(50)]
    proof fn lemma_pivot_rows(&self, i: int, p: Symbol, l1: int, l2: int, q: TripleModel)
        requires
            self.wf(),
            0 <= i < 6,
            self.symbol_index@.contains_key(key_of(p)),
        ensures
            beta_result(self.sub(p, i), l1, l2, key_of(q.1), key_of(q.2)).map(
                |x: (u128, u128)| (p, symbol_of(x.0), symbol_of(x.1)),
            ) == Self::pivot_rows(entries(self.triples@, i), p, l1, l2, q),
            forall|x: (u128, u128)| #[trigger] beta_result(self.sub(p, i), l1, l2, key_of(q.1), key_of(q.2)).contains(x) ==> is_key(x.0) && is_key(x.1),
    {
        let m = self.sub(p, i);
        let e_set = entries(self.triples@, i);
        let br = beta_result(m, l1, l2, key_of(q.1), key_of(q.2));
        let lhs = br.map(|x: (u128, u128)| (p, symbol_of(x.0), symbol_of(x.1)));
        let rhs = Self::pivot_rows(e_set, p, l1, l2, q);
        lemma_key(q.1);
        lemma_key(q.2);
        assert forall|x: (u128, u128)| #[trigger] br.contains(x) implies is_key(x.0) && is_key(x.1) by {
            let (b, g) = choose|b: u128, g: u128|
                #![trigger beta_has(m, b, g)]
                beta_has(m, b, g) && slot_ok(l1, b, key_of(q.1)) && slot_ok(l2, g, key_of(q.2)) && x == (slot_out(l1, b, key_of(q.1)), slot_out(l2, g, key_of(q.2)));
            assert(self.sub_has(p, i, b, g));
        }
        assert forall|u: TripleModel| lhs.contains(u) implies rhs.contains(u) by {
            let x = choose|x: (u128, u128)| br.contains(x) && u == (p, symbol_of(x.0), symbol_of(x.1));
            let (b, g) = choose|b: u128, g: u128|
                #![trigger beta_has(m, b, g)]
                beta_has(m, b, g) && slot_ok(l1, b, key_of(q.1)) && slot_ok(l2, g, key_of(q.2)) && x == (slot_out(l1, b, key_of(q.1)), slot_out(l2, g, key_of(q.2)));
            assert(self.sub_has(p, i, b, g));
            let e = (p, symbol_of(b), symbol_of(g));
            assert(e_set.contains(e));
            lemma_key_of_symbol(b);
            lemma_key_of_symbol(g);
            lemma_key_injective(symbol_of(b), q.1);
            lemma_key_injective(symbol_of(g), q.2);
        }
        assert forall|u: TripleModel| rhs.contains(u) implies lhs.contains(u) by {
            let e = choose|e: TripleModel|
                #![trigger e_set.contains(e)]
                e_set.contains(e) && e.0 == p && slot_ok(l1, e.1, q.1) && slot_ok(l2, e.2, q.2) && u == (p, slot_out(l1, e.1, q.1), slot_out(l2, e.2, q.2));
            self.lemma_entry_indexed(i, e);
            lemma_key(e.1);
            lemma_key(e.2);
            lemma_key_injective(e.1, q.1);
            lemma_key_injective(e.2, q.2);
            let x = (slot_out(l1, key_of(e.1), key_of(q.1)), slot_out(l2, key_of(e.2), key_of(q.2)));
            assert(beta_has(m, key_of(e.1), key_of(e.2)));
            assert(br.contains(x));
        }
        assert(lhs =~= rhs);
    }

    /// Appends `(p, first, second)` for each decoded pair of `outs`.
    fn push_rows(r: &mut Vec<Triple>, p: Symbol, outs: &Vec<(u128, u128)>)
        requires
            all_keys(outs@),
        ensures
            final(r)@.map_values(|t: Triple| triple_model(t)) == old(r)@.map_values(|t: Triple| triple_model(t))
                + outs@.map_values(|x: (u128, u128)| (p, symbol_of(x.0), symbol_of(x.1))),
    {
        let ghost r0 = r@.map_values(|t: Triple| triple_model(t));
        let ghost f = |x: (u128, u128)| (p, symbol_of(x.0), symbol_of(x.1));
        let mut j: usize = 0;
        proof {
            assert(outs@.take(0).map_values(f) =~= Seq::<TripleModel>::empty());
            assert(r0 + outs@.take(0).map_values(f) =~= r0);
        }
        while j < outs.len()
            invariant
                j <= outs@.len(),
                all_keys(outs@),
                f == (|x: (u128, u128)| (p, symbol_of(x.0), symbol_of(x.1))),
                r@.map_values(|t: Triple| triple_model(t)) == r0 + outs@.take(j as int).map_values(f),
            decreases outs@.len() - j,
        {
            let (x1, x2) = outs[j];
            let ghost before = r@;
            let row: Triple = [p, key_symbol(x1), key_symbol(x2)];
            r.push(row);
            j = j + 1;
            proof {
                assert(outs@[j - 1] == (x1, x2));
                assert(triple_model(row) == (p, symbol_of(x1), symbol_of(x2)));
                assert(r@.map_values(|t: Triple| triple_model(t)) =~= before.map_values(|t: Triple| triple_model(t)).push(
                    triple_model(row)));
                assert(outs@.take(j as int).map_values(f) =~= outs@.take(j - 1).map_values(f).push(f(outs@[j - 1])));
                assert(r@.map_values(|t: Triple| triple_model(t)) =~= r0 + outs@.take(j as int).map_values(f));
            }
        }
        proof {
            assert(outs@.take(outs@.len() as int) =~= outs@);
        }
    }

    /// The decoded rows of symbol `p`, each once.
    proof fn lemma_rows_distinct(p: Symbol, outs: Seq<(u128, u128)>)
        requires
            outs.no_duplicates(),
            forall|j: int| 0 <= j < outs.len() ==> is_key(#[trigger] outs[j].0) && is_key(outs[j].1),
        ensures
            outs.map_values(|x: (u128, u128)| (p, symbol_of(x.0), symbol_of(x.1))).no_duplicates(),
            outs.map_values(|x: (u128, u128)| (p, symbol_of(x.0), symbol_of(x.1))).to_set() == outs.to_set().map(
                |x: (u128, u128)| (p, symbol_of(x.0), symbol_of(x.1)),
            ),
    {
        let rows = outs.map_values(|x: (u128, u128)| (p, symbol_of(x.0), symbol_of(x.1)));
        assert forall|a: int, c: int| 0 <= a < rows.len() && 0 <= c < rows.len() && a != c implies rows[a] != rows[c] by {
            lemma_key_of_symbol(outs[a].0);
            lemma_key_of_symbol(outs[a].1);
            lemma_key_of_symbol(outs[c].0);
            lemma_key_of_symbol(outs[c].1);
        }
        assert forall|u: TripleModel| rows.to_set().contains(u) == outs.to_set().map(
            |x: (u128, u128)| (p, symbol_of(x.0), symbol_of(x.1))).contains(u) by {
            if rows.to_set().contains(u) {
                let k = choose|k: int| 0 <= k < rows.len() && rows[k] == u;
                assert(outs.to_set().contains(outs[k]));
            }
            if outs.to_set().map(|x: (u128, u128)| (p, symbol_of(x.0), symbol_of(x.1))).contains(u) {
                let x = choose|x: (u128, u128)| outs.to_set().contains(x) && u == (p, symbol_of(x.0), symbol_of(x.1));
                let k = choose|k: int| 0 <= k < outs.len() && outs[k] == x;
                assert(rows[k] == u);
            }
        }
        assert(rows.to_set() =~= outs.to_set().map(|x: (u128, u128)| (p, symbol_of(x.0), symbol_of(x.1))));
    }

    /// Answers a query whose slot 0 is matched, in subindex order `i`.
    fn search_pivot(&self, i: usize, q: Triple, l1: usize, l2: usize) -> (r: Vec<Triple>)
        requires
            self.wf(),
            i < 6,
            letters_ordered(l1 as int, l2 as int),
        ensures
            r@.map_values(|t: Triple| triple_model(t)).no_duplicates(),
            r@.map_values(|t: Triple| triple_model(t)).to_set() == query_result(
                entries(self.triples@, i as int),
                (0, l1 as int, l2 as int),
                triple_model(q),
            ),
    {
        let ghost qm = triple_model(q);
        let ghost e_set = entries(self.triples@, i as int);
        let ghost target = query_result(e_set, (0, l1 as int, l2 as int), qm);
        let p = q[0];
        let mut r: Vec<Triple> = Vec::new();
        proof {
            assert(target =~= Self::pivot_rows(e_set, p, l1 as int, l2 as int, qm));
        }
        match self.get_symbol_handle(p) {
            Some(symbol_handle) => {
                proof {
                    assert(symbol_handle.wf());
                }
                let outs = beta_outputs(&symbol_handle.subindices[i], l1, l2, symbol_key(q[1]), symbol_key(q[2]));
                proof {
                    self.lemma_pivot_rows(i as int, p, l1 as int, l2 as int, qm);
                    assert forall|j: int| 0 <= j < outs@.len() implies is_key(#[trigger] outs@[j].0) && is_key(outs@[j].1) by {
                        assert(outs@.to_set().contains(outs@[j]));
                    }
                    Self::lemma_rows_distinct(p, outs@);
                }
                Self::push_rows(&mut r, p, &outs);
                proof {
                    assert(r@.map_values(|t: Triple| triple_model(t)) =~= outs@.map_values(
                        |x: (u128, u128)| (p, symbol_of(x.0), symbol_of(x.1))));
                }
            },
            None => {
                proof {
                    assert forall|u: TripleModel| !target.contains(u) by {
                        if target.contains(u) {
                            let e = choose|e: TripleModel|
                                #![trigger e_set.contains(e)]
                                e_set.contains(e) && e.0 == p && slot_ok(l1 as int, e.1, qm.1) && slot_ok(l2 as int, e.2, qm.2)
                                    && u == (p, slot_out(l1 as int, e.1, qm.1), slot_out(l2 as int, e.2, qm.2));
                            self.lemma_entry_indexed(i as int, e);
                        }
                    }
                    assert(r@.map_values(|t: Triple| triple_model(t)).to_set() =~= target);
                }
            },
        }
        r
    }

    /// Answers a query whose slot 0 is enumerated, in subindex order `i`.
    #[verifier::rlimit(30)]
    fn search_all(&self, i: usize, q: Triple, l1: usize, l2: usize) -> (r: Vec<Triple>)
        requires
            self.wf(),
            i < 6,
            letters_ordered(l1 as int, l2 as int),
        ensures
            r@.map_values(|t: Triple| triple_model(t)).no_duplicates(),
            r@.map_values(|t: Triple| triple_model(t)).to_set() == query_result(
                entries(self.triples@, i as int),
                (1, l1 as int, l2 as int),
                triple_model(q),
            ),
    {
        let ghost qm = triple_model(q);
        let ghost e_set = entries(self.triples@, i as int);
        let ghost target = query_result(e_set, (1, l1 as int, l2 as int), qm);
        let keys = map_keys(&self.symbol_index);
        let kq1 = symbol_key(q[1]);
        let kq2 = symbol_key(q[2]);
        let mut r: Vec<Triple> = Vec::new();
        let mut j: usize = 0;
        proof {
            assert forall|u: TripleModel| #[trigger] target.contains(u) == Self::pivot_rows(e_set, u.0, l1 as int, l2 as int, qm).contains(u) by {
                if target.contains(u) {
                    let e = choose|e: TripleModel|
                        #![trigger e_set.contains(e)]
                        e_set.contains(e) && slot_ok(1, e.0, qm.0) && slot_ok(l1 as int, e.1, qm.1) && slot_ok(l2 as int, e.2, qm.2)
                            && u == (slot_out(1, e.0, qm.0), slot_out(l1 as int, e.1, qm.1), slot_out(l2 as int, e.2, qm.2));
                }
                if Self::pivot_rows(e_set, u.0, l1 as int, l2 as int, qm).contains(u) {
                    let e = choose|e: TripleModel|
                        #![trigger e_set.contains(e)]
                        e_set.contains(e) && e.0 == u.0 && slot_ok(l1 as int, e.1, qm.1) && slot_ok(l2 as int, e.2, qm.2) && u == (
                            u.0, slot_out(l1 as int, e.1, qm.1), slot_out(l2 as int, e.2, qm.2));
                    assert(target.contains(u));
                }
            }
            assert(r@.map_values(|t: Triple| triple_model(t)).to_set() =~= Set::new(
                |u: TripleModel| target.contains(u) && keys@.subrange(0, 0).contains(key_of(u.0))));
        }
        while j < keys.len()
            invariant
                self.wf(),
                i < 6,
                letters_ordered(l1 as int, l2 as int),
                j <= keys@.len(),
                keys@.no_duplicates(),
                keys@.to_set() == self.symbol_index@.dom(),
                kq1 == key_of(qm.1),
                kq2 == key_of(qm.2),
                e_set == entries(self.triples@, i as int),
                target == query_result(e_set, (1, l1 as int, l2 as int), qm),
                forall|u: TripleModel| #[trigger] target.contains(u) == Self::pivot_rows(e_set, u.0, l1 as int, l2 as int, qm).contains(u),
                r@.map_values(|t: Triple| triple_model(t)).no_duplicates(),
                r@.map_values(|t: Triple| triple_model(t)).to_set() == Set::new(
                    |u: TripleModel| target.contains(u) && keys@.subrange(0, j as int).contains(key_of(u.0)),
                ),
            decreases keys@.len() - j,
        {
            let k = keys[j];
            proof {
                assert(keys@.to_set().contains(k));
                lemma_key_of_symbol(k);
            }
            let p = key_symbol(k);
            let symbol_handle = self.symbol_index.get(&k).unwrap();
            proof {
                assert(symbol_handle.wf());
            }
            let outs = beta_outputs(&symbol_handle.subindices[i], l1, l2, kq1, kq2);
            let ghost r0 = r@.map_values(|t: Triple| triple_model(t));
            let mut rows: Vec<Triple> = Vec::new();
            proof {
                self.lemma_pivot_rows(i as int, p, l1 as int, l2 as int, qm);
                assert forall|jj: int| 0 <= jj < outs@.len() implies is_key(#[trigger] outs@[jj].0) && is_key(outs@[jj].1) by {
                    assert(outs@.to_set().contains(outs@[jj]));
                }
                Self::lemma_rows_distinct(p, outs@);
            }
            Self::push_rows(&mut rows, p, &outs);
            let ghost added = rows@.map_values(|t: Triple| triple_model(t));
            proof {
                assert(added =~= outs@.map_values(|x: (u128, u128)| (p, symbol_of(x.0), symbol_of(x.1))));
                assert(added.to_set() == Self::pivot_rows(e_set, p, l1 as int, l2 as int, qm));
                assert forall|a: int, c: int| 0 <= a < r0.len() && 0 <= c < added.len() implies r0[a] != added[c] by {
                    assert(r0.to_set().contains(r0[a]));
                    assert(added.to_set().contains(added[c]));
                    let pr = Self::pivot_rows(e_set, p, l1 as int, l2 as int, qm);
                    assert(pr.contains(added[c]));
                    if r0[a] == added[c] {
                        let jj = choose|jj: int| 0 <= jj < j && #[trigger] keys@.subrange(0, j as int)[jj] == key_of(r0[a].0);
                        assert(keys@[jj] == keys@[j as int]);
                    }
                }
                vstd::seq_lib::lemma_no_dup_in_concat(r0, added);
            }
            let ghost rows_before = rows@;
            r.append(&mut rows);
            proof {
                assert(r@.map_values(|t: Triple| triple_model(t)) =~= r0 + added);
                crate::subindex::lemma_concat_to_set(r0, added);
                assert forall|u: TripleModel| #[trigger] keys@.subrange(0, j + 1).contains(key_of(u.0)) == (keys@.subrange(0, j as int).contains(key_of(u.0)) || u.0 == p) by {
                    lemma_key_injective(u.0, p);
                    if keys@.subrange(0, j + 1).contains(key_of(u.0)) {
                        let jj = choose|jj: int| 0 <= jj < j + 1 && #[trigger] keys@.subrange(0, j + 1)[jj] == key_of(u.0);
                        if jj < j {
                            assert(keys@.subrange(0, j as int)[jj] == key_of(u.0));
                        }
                    }
                    if keys@.subrange(0, j as int).contains(key_of(u.0)) {
                        let jj = choose|jj: int| 0 <= jj < j && #[trigger] keys@.subrange(0, j as int)[jj] == key_of(u.0);
                        assert(keys@.subrange(0, j + 1)[jj] == key_of(u.0));
                    }
                    if u.0 == p {
                        assert(keys@.subrange(0, j + 1)[j as int] == key_of(u.0));
                    }
                }
                assert forall|u: TripleModel| #[trigger] added.to_set().contains(u) == (target.contains(u) && u.0 == p) by {
                    if added.to_set().contains(u) {
                        let pr = Self::pivot_rows(e_set, p, l1 as int, l2 as int, qm);
                        assert(pr.contains(u));
                    }
                }
                assert(r@.map_values(|t: Triple| triple_model(t)).to_set() =~= Set::new(
                    |u: TripleModel| target.contains(u) && keys@.subrange(0, j + 1).contains(key_of(u.0))));
            }
            j = j + 1;
        }
        proof {
            assert(keys@.subrange(0, keys@.len() as int) =~= keys@);
            assert forall|u: TripleModel| target.contains(u) implies keys@.contains(key_of(u.0)) by {
                let e = choose|e: TripleModel|
                    #![trigger e_set.contains(e)]
                    e_set.contains(e) && e.0 == u.0 && slot_ok(l1 as int, e.1, qm.1) && slot_ok(l2 as int, e.2, qm.2) && u == (
                        u.0, slot_out(l1 as int, e.1, qm.1), slot_out(l2 as int, e.2, qm.2));
                self.lemma_entry_indexed(i as int, e);
                assert(keys@.to_set().contains(key_of(u.0)));
            }
            assert(r@.map_values(|t: Triple| triple_model(t)).to_set() =~= target);
        }
        r
    }

    /// Answers a query that ignores all three slots: the query triple once where any triple
    /// is linked.
    fn search_any(&self, i: usize, q: Triple) -> (r: Vec<Triple>)
        requires
            self.wf(),
            i < 6,
        ensures
            r@.map_values(|t: Triple| triple_model(t)).no_duplicates(),
            r@.map_values(|t: Triple| triple_model(t)).to_set() == query_result(
                entries(self.triples@, i as int),
                (2, 2, 2),
                triple_model(q),
            ),
    {
        let ghost qm = triple_model(q);
        let ghost e_set = entries(self.triples@, i as int);
        let ghost target = query_result(e_set, (2, 2, 2), qm);
        let keys = map_keys(&self.symbol_index);
        let mut found = false;
        let mut j: usize = 0;
        while j < keys.len() && !found
            invariant
                self.wf(),
                i < 6,
                j <= keys@.len(),
                keys@.to_set() == self.symbol_index@.dom(),
                e_set == entries(self.triples@, i as int),
                found ==> exists|e: TripleModel| e_set.contains(e),
                !found ==> forall|jj: int| 0 <= jj < j ==> #[trigger] self.symbol_index@[keys@[jj]].subindices@[i as int]@.dom().is_empty(),
            decreases keys@.len() - j,
        {
            let k = keys[j];
            proof {
                assert(keys@.to_set().contains(k));
                lemma_key_of_symbol(k);
            }
            let symbol_handle = self.symbol_index.get(&k).unwrap();
            if !symbol_handle.subindices[i].is_empty() {
                found = true;
                proof {
                    let m = symbol_handle.subindices@[i as int]@;
                    assert(symbol_handle.wf());
                    assert(beta_wf(m));
                    assert(exists|b: u128| m.contains_key(b)) by {
                        if forall|b: u128| !m.contains_key(b) {
                            assert(m =~= Map::<u128, GammaCollection>::empty());
                        }
                    }
                    let b = choose|b: u128| m.contains_key(b);
                    let g = crate::subindex::lemma_some_item(m[b]@);
                    let p = symbol_of(k);
                    assert(self.sub_has(p, i as int, b, g));
                    assert(e_set.contains((p, symbol_of(b), symbol_of(g))));
                }
            }
            j = j + 1;
        }
        let mut r: Vec<Triple> = Vec::new();
        if found {
            r.push(q);
            proof {
                assert(r@.map_values(|t: Triple| triple_model(t)) =~= seq![qm]);
                assert forall|u: TripleModel| target.contains(u) == (u == qm) by {
                    if u == qm {
                        let e = choose|e: TripleModel| e_set.contains(e);
                        assert(e_set.contains(e));
                    }
                }
                assert(seq![qm].to_set() =~= target) by {
                    assert(seq![qm][0] == qm);
                }
            }
        } else {
            proof {
                assert forall|u: TripleModel| !target.contains(u) by {
                    if target.contains(u) {
                        let e = choose|e: TripleModel|
                            #![trigger e_set.contains(e)]
                            e_set.contains(e) && u == qm;
                        self.lemma_entry_indexed(i as int, e);
                        assert(keys@.to_set().contains(key_of(e.0)));
                        let jj = choose|jj: int| 0 <= jj < keys@.len() && keys@[jj] == key_of(e.0);
                        lemma_key(e.0);
                        assert(self.symbol_index@[keys@[jj]].subindices@[i as int]@.dom().is_empty());
                        assert(self.symbol_index@[keys@[jj]].subindices@[i as int]@.dom().contains(key_of(e.1)));
                    }
                }
                assert(r@.map_values(|t: Triple| triple_model(t)).to_set() =~= target);
            }
        }
        r
    }

    /// Runs procedure `f` in subindex order `i` on the query triple `q` (in that order).
    fn search(&self, f: TripleQueryFunc, i: usize, q: Triple) -> (r: Vec<Triple>)
        requires
            self.wf(),
            i < 6,
        ensures
            r@.map_values(|t: Triple| triple_model(t)).no_duplicates(),
            r@.map_values(|t: Triple| triple_model(t)).to_set() == query_result(
                entries(self.triples@, i as int),
                letters_of(f),
                triple_model(q),
            ),
    {
        match f {
            TripleQueryFunc::SearchMMM => self.search_pivot(i, q, 0, 0),
            TripleQueryFunc::SearchMMI => self.search_pivot(i, q, 0, 2),
            TripleQueryFunc::SearchMII => self.search_pivot(i, q, 2, 2),
            TripleQueryFunc::SearchIII => self.search_any(i, q),
            TripleQueryFunc::SearchMMV => self.search_pivot(i, q, 0, 1),
            TripleQueryFunc::SearchMVV => self.search_pivot(i, q, 1, 1),
            TripleQueryFunc::SearchMVI => self.search_pivot(i, q, 1, 2),
            TripleQueryFunc::SearchVII => self.search_all(i, q, 2, 2),
            TripleQueryFunc::SearchVVI => self.search_all(i, q, 1, 2),
            TripleQueryFunc::SearchVVV => self.search_all(i, q, 1, 1),
        }
    }



    /// Unlinks every triple that has the symbol `s` in position 0, 1 or 2 (`order`).
    #[verifier::rlimit(30)]
    fn unlink_position(&mut self, s: Symbol, order: usize)
        requires
            old(self).wf(),
            order < 3,
        ensures
            final(self).wf(),
            final(self)@ == (StoreModel {
                triples: old(self)@.triples.filter(|t: TripleModel| entry_of(order as int, t).0 != s),
                ..old(self)@
            }),
    {
        let ghost t0 = self@.triples;
        let ghost v0 = self@;
        let triple_index = if order == 0 {
            TripleIndex::EAV
        } else if order == 1 {
            TripleIndex::AVE
        } else {
            TripleIndex::VEA
        };
        let found = self.search_pivot(order, [s, s, s], 1, 1);
        let ghost fm = found@.map_values(|t: Triple| triple_model(t));
        proof {
            assert forall|u: TripleModel| #[trigger] fm.to_set().contains(u) == (entries(t0, order as int).contains(u) && u.0 == s) by {
                let e_set = entries(t0, order as int);
                let qm = triple_model([s, s, s]);
                if fm.to_set().contains(u) {
                    let e = choose|e: TripleModel|
                        #![trigger e_set.contains(e)]
                        e_set.contains(e) && slot_ok(0, e.0, qm.0) && slot_ok(1, e.1, qm.1) && slot_ok(1, e.2, qm.2) && u == (
                            slot_out(0, e.0, qm.0), slot_out(1, e.1, qm.1), slot_out(1, e.2, qm.2));
                }
                if e_set.contains(u) && u.0 == s {
                    assert(query_result(e_set, (0, 1, 1), qm).contains(u));
                }
            }
        }
        let mut j: usize = 0;
        proof {
            let removed0 = fm.take(0).map_values(|u: TripleModel| normalized(order as int, u));
            assert(removed0 =~= Seq::<TripleModel>::empty());
            assert(removed0.to_set() =~= Set::<TripleModel>::empty());
            assert(t0.difference(removed0.to_set()) =~= t0);
            assert(self@ =~= (StoreModel { triples: t0.difference(removed0.to_set()), ..v0 }));
        }
        while j < found.len()
            invariant
                self.wf(),
                order < 3,
                order_of(triple_index) == order,
                j <= found@.len(),
                fm == found@.map_values(|t: Triple| triple_model(t)),
                forall|u: TripleModel| #[trigger] fm.to_set().contains(u) == (entries(t0, order as int).contains(u) && u.0 == s),
                self@ == (StoreModel {
                    triples: t0.difference(fm.take(j as int).map_values(|u: TripleModel| normalized(order as int, u)).to_set()),
                    ..v0
                }),
            decreases found@.len() - j,
        {
            let t = reorder_triple(&TRIPLE_NORMALIZED, triple_index, &found[j]);
            let ghost before = self@.triples;
            self.set_triple_internal(t, false);
            proof {
                self.lemma_wf();
                let removed = fm.take(j as int).map_values(|u: TripleModel| normalized(order as int, u));
                let removed2 = fm.take(j + 1).map_values(|u: TripleModel| normalized(order as int, u));
                assert(removed2 =~= removed.push(triple_model(t)));
                removed.lemma_push_to_set_commute(triple_model(t));
                if !has_endpoints(v0, triple_model(t)) {
                    assert(!before.contains(triple_model(t))) by {
                        if before.contains(triple_model(t)) {
                            assert(t0.contains(triple_model(t)));
                        }
                    }
                }
                assert(self@.triples =~= t0.difference(removed2.to_set()));
                assert(self@ =~= (StoreModel { triples: t0.difference(removed2.to_set()), ..v0 }));
            }
            j = j + 1;
        }
        proof {
            assert(fm.take(fm.len() as int) =~= fm);
            Self::lemma_unlinked_position(t0, fm, order as int, s);
        }
    }

    proof fn lemma_unlinked_position(t0: Set<TripleModel>, fm: Seq<TripleModel>, order: int, s: Symbol)
        requires
            0 <= order < 3,
            forall|u: TripleModel| #[trigger] fm.to_set().contains(u) == (entries(t0, order).contains(u) && u.0 == s),
        ensures
            t0.difference(fm.map_values(|u: TripleModel| normalized(order, u)).to_set()) == t0.filter(
                |t: TripleModel| entry_of(order, t).0 != s,
            ),
    {
        let removed = fm.map_values(|u: TripleModel| normalized(order, u));
        assert forall|t: TripleModel| t0.contains(t) implies (removed.to_set().contains(t) == (entry_of(order, t).0 == s)) by {
            let e = entry_of(order, t);
            lemma_normalized_inverse(order, t, e);
            if entry_of(order, t).0 == s {
                assert(entries(t0, order).contains(e));
                assert(fm.to_set().contains(e));
                let k = choose|k: int| 0 <= k < fm.len() && fm[k] == e;
                assert(removed[k] == t);
            }
            if removed.to_set().contains(t) {
                let k = choose|k: int| 0 <= k < removed.len() && removed[k] == t;
                assert(fm.to_set().contains(fm[k]));
                lemma_normalized_inverse(order, t, fm[k]);
            }
        }
        assert(t0.difference(removed.to_set()) =~= t0.filter(|t: TripleModel| entry_of(order, t).0 != s));
    }

    /// Unlinks every triple that has the symbol `s`.
    #[verifier::rlimit(30)]
    fn unlink_symbol(&mut self, s: Symbol)
        requires
            old(self).wf(),
        ensures
            final(self).wf(),
            final(self)@ == (StoreModel {
                triples: old(self)@.triples.filter(|t: TripleModel| !touches_symbol(t, s)),
                ..old(self)@
            }),
    {
        let ghost v0 = self@;
        self.unlink_position(s, 0);
        let ghost t1 = self@.triples;
        self.unlink_position(s, 1);
        let ghost t2 = self@.triples;
        self.unlink_position(s, 2);
        proof {
            assert forall|t: TripleModel| #[trigger] self@.triples.contains(t) == (v0.triples.contains(t) && !touches_symbol(t, s)) by {
                assert(self@.triples.contains(t) == (t2.contains(t) && t.2 != s));
                assert(t2.contains(t) == (t1.contains(t) && t.1 != s));
                assert(t1.contains(t) == (v0.triples.contains(t) && t.0 != s));
            }
            assert(self@.triples =~= v0.triples.filter(|t: TripleModel| !touches_symbol(t, s)));
        }
    }

    /// Removes the symbol `s`, which no triple has, and returns its identity to the pool.
    #[verifier::rlimit(30)]
    fn remove_symbol(&mut self, s: Symbol)
        requires
            old(self).wf(),
            old(self)@.symbols.contains_key(s),
            forall|t: TripleModel| old(self)@.triples.contains(t) ==> !touches_symbol(t, s),
        ensures
            final(self).wf(),
            final(self)@ == (StoreModel { symbols: old(self)@.symbols.remove(s), ..old(self)@ }),
    {
        let ghost old_self = *self;
        let k = symbol_key(s);
        proof {
            lemma_key(s);
        }
        self.symbol_index.remove(&k);
        let mut namespace_handle = self.namespace_index.remove(&s.0).unwrap();
        namespace_handle.symbol_index.remove(&s.1);
        namespace_handle.free_pool.insert(s.1);
        self.namespace_index.insert(s.0, namespace_handle);
        proof {
            assert(self.namespace_index@ =~= old_self.namespace_index@.insert(s.0, namespace_handle));
            assert forall|t: Symbol, i: int, kb: u128, kg: u128| #[trigger] self.sub_has(t, i, kb, kg) == old_self.sub_has(t, i, kb, kg) by {
                lemma_key_injective(s, t);
                if t == s && old_self.sub_has(t, i, kb, kg) {
                    let tt = entry_triple(i, t, symbol_of(kb), symbol_of(kg));
                    assert(old_self.triples@.contains(tt));
                    assert(touches_symbol(tt, s));
                    assert(old_self@.triples.contains(tt));
                }
            }
            Self::lemma_index_frame_sub(&old_self, self);
            let oh = old_self.namespace_index@[s.0];
            assert forall|ns: Identity| #[trigger] self.namespace_index@.contains_key(ns) implies ({
                let h = self.namespace_index@[ns];
                &&& h.free_pool.wf()
                &&& forall|x: int|
                    #[trigger] h.free_pool@.contains(x) <==> (0 <= x < usize::MAX && !h.symbol_index@.contains(x as usize))
            }) by {
                if ns == s.0 {
                    assert forall|x: int| #[trigger] namespace_handle.free_pool@.contains(x) <==> (0 <= x < usize::MAX
                        && !namespace_handle.symbol_index@.contains(x as usize)) by {
                        assert(oh.free_pool@.contains(x) <==> (0 <= x < usize::MAX && !oh.symbol_index@.contains(x as usize)));
                        assert(old_self.symbol_index@.contains_key(key_of(s)));
                    }
                }
            }
            assert forall|t: Symbol| #[trigger] self.symbol_index@.contains_key(key_of(t)) <==> (
                self.namespace_index@.contains_key(t.0) && self.namespace_index@[t.0].symbol_index@.contains(t.1)) by {
                lemma_key_injective(s, t);
                assert(old_self.symbol_index@.contains_key(key_of(t)) <==> (old_self.namespace_index@.contains_key(t.0)
                    && old_self.namespace_index@[t.0].symbol_index@.contains(t.1)));
            }
            assert forall|n: Identity|
                #[trigger] self.symbol_index@.contains_key(key_of(Symbol(META_NAMESPACE_IDENTITY, n)))
                    implies self.namespace_index@.contains_key(n) by {
                assert(old_self.symbol_index@.contains_key(key_of(Symbol(META_NAMESPACE_IDENTITY, n))));
            }
            assert forall|x: u128| #[trigger] self.symbol_index@.contains_key(x) implies is_key(x) && self.symbol_index@[x].wf() by {
                assert(old_self.symbol_index@.contains_key(x));
            }
            assert(self@.symbols =~= old_self@.symbols.remove(s)) by {
                assert forall|t: Symbol| #[trigger] self@.symbols.contains_key(t) == old_self@.symbols.remove(s).contains_key(t) by {
                    lemma_key_injective(s, t);
                }
            }
            assert(self@.namespaces =~= old_self@.namespaces);
        }
    }

    /// Unlinks every triple that has a symbol `(n, id)` with `id` in `ids`.
    fn unlink_symbols(&mut self, n: Identity, ids: &Vec<Identity>)
        requires
            old(self).wf(),
        ensures
            final(self).wf(),
            final(self)@ == (StoreModel {
                triples: old(self)@.triples.filter(|t: TripleModel| !touches_taken(t, n, ids@)),
                ..old(self)@
            }),
    {
        let ghost v0 = self@;
        let mut j: usize = 0;
        proof {
            assert(self@.triples =~= v0.triples.filter(|t: TripleModel| !touches_taken(t, n, ids@.take(0))));
        }
        while j < ids.len()
            invariant
                self.wf(),
                j <= ids@.len(),
                self@.namespaces == v0.namespaces,
                self@.symbols == v0.symbols,
                self@.triples == v0.triples.filter(|t: TripleModel| !touches_taken(t, n, ids@.take(j as int))),
            decreases ids@.len() - j,
        {
            self.unlink_symbol(Symbol(n, ids[j]));
            proof {
                let x = ids@[j as int];
                assert(ids@.take(j + 1) =~= ids@.take(j as int).push(x));
                assert forall|t: TripleModel| #[trigger] touches_taken(t, n, ids@.take(j + 1)) == (touches_taken(
                    t, n, ids@.take(j as int)) || touches_symbol(t, Symbol(n, x))) by {
                    lemma_push_contains(ids@.take(j as int), x, t.0.1);
                    lemma_push_contains(ids@.take(j as int), x, t.1.1);
                    lemma_push_contains(ids@.take(j as int), x, t.2.1);
                }
                assert(self@.triples =~= v0.triples.filter(|t: TripleModel| !touches_taken(t, n, ids@.take(j + 1))));
            }
            j = j + 1;
        }
        proof {
            assert(ids@.take(ids@.len() as int) =~= ids@);
        }
    }

    /// Removes the symbols `(n, id)`, `id` in `ids`, none of which has a triple.
    fn remove_symbols(&mut self, n: Identity, ids: &Vec<Identity>)
        requires
            old(self).wf(),
            ids@.no_duplicates(),
            forall|k: int| 0 <= k < ids@.len() ==> old(self)@.symbols.contains_key(Symbol(n, #[trigger] ids@[k])),
            forall|t: TripleModel| #[trigger] old(self)@.triples.contains(t) ==> !touches_namespace(t, n),
        ensures
            final(self).wf(),
            final(self)@ == (StoreModel {
                symbols: old(self)@.symbols.remove_keys(Set::new(|x: Symbol| x.0 == n && ids@.contains(x.1))),
                ..old(self)@
            }),
    {
        let ghost v0 = self@;
        let mut j: usize = 0;
        proof {
            assert(self@.symbols =~= v0.symbols.remove_keys(Set::new(|x: Symbol| x.0 == n && ids@.take(0).contains(x.1))));
        }
        while j < ids.len()
            invariant
                self.wf(),
                j <= ids@.len(),
                ids@.no_duplicates(),
                forall|k: int| 0 <= k < ids@.len() ==> v0.symbols.contains_key(Symbol(n, #[trigger] ids@[k])),
                forall|t: TripleModel| #[trigger] v0.triples.contains(t) ==> !touches_namespace(t, n),
                self@.namespaces == v0.namespaces,
                self@.triples == v0.triples,
                self@.symbols == v0.symbols.remove_keys(Set::new(|x: Symbol| x.0 == n && ids@.take(j as int).contains(x.1))),
            decreases ids@.len() - j,
        {
            let s = Symbol(n, ids[j]);
            proof {
                assert(!ids@.take(j as int).contains(ids@[j as int]));
                assert(self@.symbols.contains_key(s));
            }
            self.remove_symbol(s);
            proof {
                let x = ids@[j as int];
                assert(ids@.take(j + 1) =~= ids@.take(j as int).push(x));
                assert forall|y: Identity| #[trigger] ids@.take(j + 1).contains(y) == (ids@.take(j as int).contains(y) || y == x) by {
                    lemma_push_contains(ids@.take(j as int), x, y);
                }
                assert(self@.symbols =~= v0.symbols.remove_keys(Set::new(|x: Symbol| x.0 == n && ids@.take(j + 1).contains(x.1))));
            }
            j = j + 1;
        }
        proof {
            assert(ids@.take(ids@.len() as int) =~= ids@);
        }
    }

    /// Drops namespace `n`: unlinks every triple that has one of its symbols, removes those
    /// symbols, then the namespace itself.
    #[verifier::rlimit(30)]
    fn release_namespace(&mut self, n: Identity)
        requires
            old(self).wf(),
            !old(self)@.symbols.contains_key(Symbol(META_NAMESPACE_IDENTITY, n)),
        ensures
            final(self).wf(),
            final(self)@ == (StoreModel {
                namespaces: old(self)@.namespaces.remove(n),
                symbols: old(self)@.symbols.restrict(Set::new(|x: Symbol| x.0 != n)),
                triples: old(self)@.triples.filter(|t: TripleModel| !touches_namespace(t, n)),
            }),
    {
        let ghost v0 = self@;
        proof {
            self.lemma_wf();
        }
        let ids = query_symbols(self, n);
        self.unlink_symbols(n, &ids);
        proof {
            assert forall|t: TripleModel| v0.triples.contains(t) implies touches_taken(t, n, ids@) == touches_namespace(t, n) by {
                assert(has_endpoints(v0, t));
                assert(ids@.to_set().contains(t.0.1) == v0.symbols.contains_key(Symbol(n, t.0.1)));
                assert(ids@.to_set().contains(t.1.1) == v0.symbols.contains_key(Symbol(n, t.1.1)));
                assert(ids@.to_set().contains(t.2.1) == v0.symbols.contains_key(Symbol(n, t.2.1)));
            }
            assert(self@.triples =~= v0.triples.filter(|t: TripleModel| !touches_namespace(t, n)));
            assert forall|k: int| 0 <= k < ids@.len() implies self@.symbols.contains_key(Symbol(n, #[trigger] ids@[k])) by {
                assert(ids@.to_set().contains(ids@[k]));
            }
        }
        self.remove_symbols(n, &ids);
        let ghost old_self = *self;
        self.namespace_index.remove(&n);
        proof {
            assert(self@.symbols =~= v0.symbols.restrict(Set::new(|x: Symbol| x.0 != n))) by {
                assert forall|x: Symbol| #[trigger] self@.symbols.contains_key(x) == v0.symbols.restrict(Set::new(|x: Symbol| x.0 != n)).contains_key(x) by {
                    if x.0 == n && v0.symbols.contains_key(x) {
                        assert(ids@.to_set().contains(x.1));
                    }
                }
            }
            Self::lemma_index_frame(&old_self, self);
            assert forall|x: Symbol| x.0 == n implies !old_self.symbol_index@.contains_key(#[trigger] key_of(x)) by {
                assert(!old_self@.symbols.contains_key(x)) by {
                    if v0.symbols.contains_key(x) {
                        assert(ids@.to_set().contains(x.1));
                    }
                }
            }
            assert(!old_self@.symbols.contains_key(Symbol(META_NAMESPACE_IDENTITY, n)));
            Self::lemma_namespace_dropped(&old_self, self, n);
            assert(self@.namespaces =~= v0.namespaces.remove(n));
        }
    }

    proof fn lemma_namespace_dropped(a: &Store, b: &Store, n: Identity)
        requires
            a.namespaces_wf(),
            a.symbols_wf(),
            b.symbol_index@ == a.symbol_index@,
            b.namespace_index@ == a.namespace_index@.remove(n),
            forall|s: Symbol| s.0 == n ==> !a.symbol_index@.contains_key(#[trigger] key_of(s)),
            !a.symbol_index@.contains_key(key_of(Symbol(META_NAMESPACE_IDENTITY, n))),
        ensures
            b.namespaces_wf(),
            b.symbols_wf(),
    {
        assert forall|s: Symbol| #[trigger] b.symbol_index@.contains_key(key_of(s)) <==> (
            b.namespace_index@.contains_key(s.0) && b.namespace_index@[s.0].symbol_index@.contains(s.1)) by {
            assert(a.symbol_index@.contains_key(key_of(s)) <==> (a.namespace_index@.contains_key(s.0)
                && a.namespace_index@[s.0].symbol_index@.contains(s.1)));
        }
        assert forall|x: Identity|
            #[trigger] b.symbol_index@.contains_key(key_of(Symbol(META_NAMESPACE_IDENTITY, x)))
                implies b.namespace_index@.contains_key(x) by {
            assert(a.symbol_index@.contains_key(key_of(Symbol(META_NAMESPACE_IDENTITY, x))));
        }
        assert forall|ns: Identity| #[trigger] b.namespace_index@.contains_key(ns) implies ({
            let h = b.namespace_index@[ns];
            &&& h.free_pool.wf()
            &&& forall|x: int|
                #[trigger] h.free_pool@.contains(x) <==> (0 <= x < usize::MAX && !h.symbol_index@.contains(x as usize))
        }) by {
            assert(a.namespace_index@.contains_key(ns));
        }
    }

}

/// Makes sure the symbol exists (creating its namespace where needed); true where it
/// was created by this call. A meta-namespace symbol `(META_NAMESPACE_IDENTITY, n)`
/// manifests namespace `n` too.
pub fn manifest_symbol(store: &mut Store, symbol: Symbol) -> (r: bool)
    requires
        old(store).wf(),
    ensures
        final(store).wf(),
        r == !old(store)@.symbols.contains_key(symbol),
        final(store)@ == manifested(old(store)@, symbol),
{
    store.manifest_symbol_internal(symbol)
}

/// Creates the next fresh symbol of namespace `namespace_identity`, manifesting the
/// namespace where needed.
pub fn create_symbol(store: &mut Store, namespace_identity: Identity) -> (r: Symbol)
    requires
        old(store).wf(),
    ensures
        final(store).wf(),
        r.0 == namespace_identity,
        is_next_fresh(old(store)@, namespace_identity, r.1 as int),
        r.1 < usize::MAX ==> !old(store)@.symbols.contains_key(r),
        final(store)@ == manifested(old(store)@, r),
{
    store.manifest_namespace(namespace_identity);
    let ghost mid = *store;
    let symbol_identity = match store.namespace_index.get(&namespace_identity) {
        Some(namespace_handle) => namespace_handle.free_pool.get(),
        None => 0,
    };
    proof {
        let h = mid.namespace_index@[namespace_identity];
        assert forall|x: int| symbol_identity <= x < usize::MAX implies !#[trigger] old(store)@.symbols.contains_key(
            Symbol(namespace_identity, x as usize)) by {
            assert(h.free_pool@.contains(x));
            assert(!mid.symbol_index@.contains_key(key_of(Symbol(namespace_identity, x as usize))));
        }
        if symbol_identity < usize::MAX {
            assert(!old(store)@.symbols.contains_key(Symbol(namespace_identity, symbol_identity as usize)));
        }
        if symbol_identity > 0 {
            assert(!h.free_pool@.contains(symbol_identity - 1));
            assert(mid.symbol_index@.contains_key(key_of(Symbol(namespace_identity, (symbol_identity - 1) as usize))));
        }
    }
    let symbol = Symbol(namespace_identity, symbol_identity);
    store.manifest_symbol_internal(symbol);
    proof {
        assert(manifested(mid@, symbol).namespaces =~= manifested(old(store)@, symbol).namespaces);
    }
    symbol
}

/// Releases the symbol: true where it existed. Its identity returns to the namespace's
/// pool; releasing `(META_NAMESPACE_IDENTITY, n)` drops namespace `n` as well, with its
/// symbols and every triple that has one of them. The symbol itself must be bare: an
/// empty payload and no triples.
pub fn release_symbol(store: &mut Store, symbol: Symbol) -> (r: bool)
    requires
        old(store).wf(),
        old(store)@.symbols.contains_key(symbol) ==> is_bare(old(store)@, symbol),
    ensures
        final(store).wf(),
        r == old(store)@.symbols.contains_key(symbol),
        final(store)@ == if r {
            released(old(store)@, symbol)
        } else {
            old(store)@
        },
{
    let k = symbol_key(symbol);
    if !store.symbol_index.contains_key(&k) {
        return false;
    }
    store.remove_symbol(symbol);
    if symbol.0 == META_NAMESPACE_IDENTITY {
        store.release_namespace(symbol.1);
    }
    true
}

/// The payload length of the symbol in bits, 0 where it does not exist.
pub fn get_length(store: &Store, symbol: Symbol) -> (r: usize)
    requires
        store.wf(),
    ensures
        r == if store@.symbols.contains_key(symbol) {
            store@.symbols[symbol].len()
        } else {
            0
        },
{
    match store.get_symbol_handle(symbol) {
        Some(symbol_handle) => symbol_handle.data_length,
        None => 0,
    }
}

/// Opens a hole of `length` zero bits at `offset` (`length >= 0`), or removes the
/// `-length` bits from `offset` on (`length < 0`); false (and nothing changes) where the
/// symbol is missing or the crease does not fit its payload.
#[verifier::rlimit(30)]
pub fn crease_length(store: &mut Store, symbol: Symbol, offset: usize, length: isize) -> (r: bool)
    requires
        old(store).wf(),
    ensures
        final(store).wf(),
        r == (old(store)@.symbols.contains_key(symbol) && crease_fits(
            old(store)@.symbols[symbol].len() as int,
            offset as int,
            length as int,
        )),
        final(store)@ == if r {
            StoreModel {
                symbols: old(store)@.symbols.insert(
                    symbol,
                    creased(old(store)@.symbols[symbol], offset as int, length as int),
                ),
                ..old(store)@
            }
        } else {
            old(store)@
        },
{
    let k = symbol_key(symbol);
    let data_length = match store.symbol_index.get(&k) {
        Some(symbol_handle) => symbol_handle.data_length,
        None => { return false; },
    };
    let length_abs: usize;
    let new_data_length: usize;
    if length < 0 {
        length_abs = (0i128 - length as i128) as usize;
        if offset > data_length || length_abs > data_length - offset {
            return false;
        }
        new_data_length = data_length - length_abs;
    } else {
        length_abs = length as usize;
        if offset > data_length || length_abs > usize::MAX - data_length {
            return false;
        }
        new_data_length = data_length + length_abs;
    }
    let ghost old_self = *store;
    proof {
        lemma_key(symbol);
    }
    let mut symbol_handle = store.symbol_index.remove(&k).unwrap();
    let ghost h0 = symbol_handle;
    let ghost c0 = h0.data_content@;
    let words = new_data_length / ARCHITECTURE_SIZE + if new_data_length % ARCHITECTURE_SIZE > 0 { 1 } else { 0 };
    proof {
        lemma_bit_split(new_data_length as int);
    }
    let mut new_data_content = Store::zero_words(words);
    let ghost z = new_data_content@;
    bitwise_copy_nonoverlapping(new_data_content.as_mut_slice(), symbol_handle.data_content.as_slice(), 0, 0, offset);
    let ghost p1 = new_data_content@;
    if length < 0 {
        bitwise_copy_nonoverlapping(
            new_data_content.as_mut_slice(),
            symbol_handle.data_content.as_slice(),
            offset,
            offset + length_abs,
            data_length - offset - length_abs,
        );
    } else {
        bitwise_copy_nonoverlapping(
            new_data_content.as_mut_slice(),
            symbol_handle.data_content.as_slice(),
            offset + length_abs,
            offset,
            data_length - offset,
        );
    }
    symbol_handle.data_length = new_data_length;
    symbol_handle.data_content = new_data_content;
    store.symbol_index.insert(k, symbol_handle);
    proof {
        assert(store.symbol_index@ =~= old_self.symbol_index@.insert(k, symbol_handle));
        Store::lemma_payload_replaced(&old_self, store, k, symbol_handle);
        let p = old_self@.symbols[symbol];
        assert(p == h0.payload());
        let q = symbol_handle.payload();
        let c = creased(p, offset as int, length as int);
        assert(q.len() == c.len());
        assert forall|x: int| 0 <= x < q.len() implies q[x] == c[x] by {
            assert(q[x] == seq_bit(new_data_content@, x));
            assert(seq_bit(p1, x) == if 0 <= x < offset { seq_bit(c0, x) } else { seq_bit(z, x) });
        }
        assert(q =~= c);
    }
    true
}

/// Reads `length` payload bits from `offset` on into `dst`, a word per 64 bits, the bits
/// above `length` in the last word zero; false (and `dst` untouched) where the symbol is
/// missing or the range does not fit its payload.
pub fn read_data(store: &Store, symbol: Symbol, offset: usize, length: usize, dst: &mut [u64]) -> (r: bool)
    requires
        store.wf(),
        store@.symbols.contains_key(symbol) && offset + length <= store@.symbols[symbol].len() ==> length <= old(dst)@.len() * 64,
    ensures
        r == (store@.symbols.contains_key(symbol) && offset + length <= store@.symbols[symbol].len()),
        !r ==> final(dst)@ == old(dst)@,
        r ==> final(dst)@.len() == old(dst)@.len(),
        r ==> forall|j: int| 0 <= j < old(dst)@.len() * 64 ==> #[trigger] seq_bit(final(dst)@, j) == if j < length {
            store@.symbols[symbol][offset + j]
        } else if j / 64 < (length + 63) / 64 {
            false
        } else {
            seq_bit(old(dst)@, j)
        },
{
    let symbol_handle = match store.get_symbol_handle(symbol) {
        Some(symbol_handle) => symbol_handle,
        None => { return false; },
    };
    if offset > symbol_handle.data_length || length > symbol_handle.data_length - offset {
        return false;
    }
    let ghost d0 = dst@;
    let ghost content = symbol_handle.data_content@;
    let mut bitwise_read = BitwiseRead::new(symbol_handle.data_content.as_slice(), length, offset);
    let mut index: usize = 0;
    let ghost mut done: int = 0;
    while bitwise_read.length > 0
        invariant
            bitwise_read.wf(),
            bitwise_read.src@ == content,
            dst@.len() == d0.len(),
            length <= d0.len() * 64,
            done == index * 64,
            bitwise_read.length > 0 ==> bitwise_read.position() == offset + done && bitwise_read.length == length - done,
            bitwise_read.length == 0 ==> done >= length,
            done < length + 64,
            forall|w: int| 0 <= w < index ==> is_read_word(#[trigger] dst@[w], content, offset + w * 64, length - w * 64),
            forall|w: int| index <= w < d0.len() ==> #[trigger] dst@[w] == d0[w],
        decreases bitwise_read.length,
    {
        proof {
            assert(index < d0.len()) by (nonlinear_arith)
                requires
                    index * 64 < length,
                    length <= d0.len() * 64,
            ;
        }
        let ghost n = bitwise_read.length as int;
        match bitwise_read.next() {
            Some(word) => {
                dst[index] = word;
            },
            None => {},
        }
        index = index + 1;
        proof {
            done = done + 64;
        }
    }
    proof {
        let ws = (length + 63) / 64;
        assert(index == ws) by (nonlinear_arith)
            requires
                done == index * 64,
                done >= length,
                done < length + 64,
                ws == (length + 63) / 64,
        ;
        assert forall|j: int| 0 <= j < d0.len() * 64 implies #[trigger] seq_bit(dst@, j) == if j < length {
            store@.symbols[symbol][offset + j]
        } else if j / 64 < (length + 63) / 64 {
            false
        } else {
            seq_bit(d0, j)
        } by {
            let w = j / 64;
            let rr = j % 64;
            assert(j == w * 64 + rr);
            if w < index {
                assert(is_read_word(dst@[w], content, offset + w * 64, length - w * 64));
                assert(word_bit(dst@[w], rr) == (rr < length - w * 64 && seq_bit(content, offset + w * 64 + rr)));
            }
        }
    }
    true
}

/// Writes `length` bits, taken from the low end of the words of `src`, over the payload
/// from `offset` on; false (and nothing changes) where the symbol is missing or the range
/// does not fit its payload.
#[verifier::rlimit(30)]
pub fn write_data(store: &mut Store, symbol: Symbol, offset: usize, length: usize, src: &[u64]) -> (r: bool)
    requires
        old(store).wf(),
        old(store)@.symbols.contains_key(symbol) && offset + length <= old(store)@.symbols[symbol].len() ==> length
            <= src@.len() * 64,
    ensures
        final(store).wf(),
        r == (old(store)@.symbols.contains_key(symbol) && offset + length <= old(store)@.symbols[symbol].len()),
        final(store)@ == if r {
            StoreModel {
                symbols: old(store)@.symbols.insert(
                    symbol,
                    written_bits(old(store)@.symbols[symbol], offset as int, length as int, src@),
                ),
                ..old(store)@
            }
        } else {
            old(store)@
        },
{
    let k = symbol_key(symbol);
    let data_length = match store.symbol_index.get(&k) {
        Some(symbol_handle) => symbol_handle.data_length,
        None => { return false; },
    };
    if offset > data_length || length > data_length - offset {
        return false;
    }
    let ghost old_self = *store;
    let mut symbol_handle = store.symbol_index.remove(&k).unwrap();
    let ghost h0 = symbol_handle;
    let ghost c0 = symbol_handle.data_content@;
    let mut bitwise_write = BitwiseWrite::new(length, offset);
    let mut index: usize = 0;
    let ghost mut done: int = 0;
    while bitwise_write.more()
        invariant
            bitwise_write.wf(symbol_handle.data_content@.len() as int),
            symbol_handle.data_content@.len() == c0.len(),
            symbol_handle.subindices == h0.subindices,
            symbol_handle.data_length == h0.data_length,
            length <= src@.len() * 64,
            done == index * 64,
            bitwise_write.length > 0 ==> bitwise_write.position() == offset + done && bitwise_write.length == length - done,
            bitwise_write.length == 0 ==> done >= length,
            is_bits_copied(symbol_handle.data_content@, c0, src@, offset as int, 0, if done < length { done } else { length as int }),
        decreases bitwise_write.length,
    {
        proof {
            assert(index < src@.len()) by (nonlinear_arith)
                requires
                    index * 64 < length,
                    length <= src@.len() * 64,
            ;
        }
        let ghost before = symbol_handle.data_content@;
        let ghost n = bitwise_write.length as int;
        let ghost m: int = if n < 64 { n } else { 64 };
        let word = src[index];
        bitwise_write.next(symbol_handle.data_content.as_mut_slice(), word);
        proof {
            let t = symbol_handle.data_content@;
            assert forall|x: int| 0 <= x < c0.len() * 64 implies #[trigger] seq_bit(t, x) == if offset <= x < offset
                + done + m {
                seq_bit(src@, 0 + (x - offset))
            } else {
                seq_bit(c0, x)
            } by {
                assert(seq_bit(before, x) == if offset <= x < offset + done {
                    seq_bit(src@, 0 + (x - offset))
                } else {
                    seq_bit(c0, x)
                });
                if offset + done <= x < offset + done + m {
                    lemma_bit_position(index as int, x - offset - done);
                    assert(x - offset == index * 64 + (x - offset - done));
                }
            }
            done = done + 64;
        }
        index = index + 1;
    }
    store.symbol_index.insert(k, symbol_handle);
    proof {
        assert(store.symbol_index@ =~= old_self.symbol_index@.insert(k, symbol_handle));
        Store::lemma_payload_replaced(&old_self, store, k, symbol_handle);
        lemma_key(symbol);
        assert(symbol_handle.payload() =~= written_bits(old_self@.symbols[symbol], offset as int, length as int, src@));
    }
    true
}

/// Copies `length` payload bits of `src_symbol` from `src_offset` on over the payload of
/// `dst_symbol` from `dst_offset` on; false (and nothing changes) where either symbol is
/// missing or either range does not fit. The two may be the same symbol: the bits are
/// read as they were before the call.
pub fn replace_data(
    store: &mut Store,
    dst_symbol: Symbol,
    dst_offset: usize,
    src_symbol: Symbol,
    src_offset: usize,
    length: usize,
) -> (r: bool)
    requires
        old(store).wf(),
    ensures
        final(store).wf(),
        r == (old(store)@.symbols.contains_key(dst_symbol) && old(store)@.symbols.contains_key(src_symbol) && dst_offset
            + length <= old(store)@.symbols[dst_symbol].len() && src_offset + length <= old(store)@.symbols[src_symbol].len()),
        final(store)@ == if r {
            StoreModel {
                symbols: old(store)@.symbols.insert(
                    dst_symbol,
                    replaced_bits(
                        old(store)@.symbols[dst_symbol],
                        dst_offset as int,
                        old(store)@.symbols[src_symbol],
                        src_offset as int,
                        length as int,
                    ),
                ),
                ..old(store)@
            }
        } else {
            old(store)@
        },
{
    let kd = symbol_key(dst_symbol);
    let ks = symbol_key(src_symbol);
    let dst_length = match store.symbol_index.get(&kd) {
        Some(symbol_handle) => symbol_handle.data_length,
        None => { return false; },
    };
    let src_length = match store.symbol_index.get(&ks) {
        Some(symbol_handle) => symbol_handle.data_length,
        None => { return false; },
    };
    if dst_offset > dst_length || length > dst_length - dst_offset || src_offset > src_length || length > src_length
        - src_offset {
        return false;
    }
    let ghost old_self = *store;
    proof {
        lemma_key(dst_symbol);
        lemma_key(src_symbol);
        lemma_key_injective(dst_symbol, src_symbol);
    }
    let mut dst_handle = store.symbol_index.remove(&kd).unwrap();
    let ghost h0 = dst_handle;
    if kd == ks {
        let mut temporary: Vec<u64> = Vec::new();
        let mut i: usize = 0;
        while i < dst_handle.data_content.len()
            invariant
                i <= dst_handle.data_content@.len(),
                dst_handle == h0,
                temporary@ == h0.data_content@.subrange(0, i as int),
            decreases dst_handle.data_content@.len() - i,
        {
            temporary.push(dst_handle.data_content[i]);
            i = i + 1;
        }
        proof {
            assert(temporary@ =~= h0.data_content@);
        }
        bitwise_copy_nonoverlapping(dst_handle.data_content.as_mut_slice(), temporary.as_slice(), dst_offset, src_offset, length);
    } else {
        match store.symbol_index.get(&ks) {
            Some(src_handle) => {
                proof {
                    assert(*src_handle == old_self.symbol_index@[ks]);
                }
                bitwise_copy_nonoverlapping(
                    dst_handle.data_content.as_mut_slice(),
                    src_handle.data_content.as_slice(),
                    dst_offset,
                    src_offset,
                    length,
                );
            },
            None => {},
        }
    }
    store.symbol_index.insert(kd, dst_handle);
    proof {
        assert(store.symbol_index@ =~= old_self.symbol_index@.insert(kd, dst_handle));
        Store::lemma_payload_replaced(&old_self, store, kd, dst_handle);
        assert(dst_handle.payload() =~= replaced_bits(
            old_self@.symbols[dst_symbol],
            dst_offset as int,
            old_self@.symbols[src_symbol],
            src_offset as int,
            length as int,
        ));
    }
    true
}

/// Links (`linked`) or unlinks the triple; true where that changed the store. Nothing
/// changes unless all three symbols exist.
pub fn set_triple(store: &mut Store, triple: Triple, linked: bool) -> (r: bool)
    requires
        old(store).wf(),
    ensures
        final(store).wf(),
        r == (has_endpoints(old(store)@, triple_model(triple)) && linked != old(store)@.triples.contains(triple_model(triple))),
        final(store)@ == with_triple(old(store)@, triple_model(triple), linked),
{
    store.set_triple_internal(triple, linked)
}

/// The local identities of the symbols of a namespace, each once; empty where the
/// namespace does not exist.
pub fn query_symbols(store: &Store, namespace_identity: Identity) -> (r: Vec<Identity>)
    requires
        store.wf(),
    ensures
        r@.no_duplicates(),
        r@.to_set() == Set::new(|id: Identity| store@.symbols.contains_key(Symbol(namespace_identity, id))),
{
    let mut result: Vec<Identity> = Vec::new();
    match store.namespace_index.get(&namespace_identity) {
        Some(namespace_handle) => {
            let ghost ks = namespace_handle.symbol_index.iter().remaining();
            for key in it: namespace_handle.symbol_index.iter()
                invariant
                    it.seq() == ks,
                    result@ == ks.take(it.index() as int).map_values(|k: &Identity| *k),
            {
                result.push(*key);
            }
            proof {
                assert(ks.take(ks.len() as int) =~= ks);
                assert(result@ =~= ks.unref());
                assert forall|id: Identity| result@.to_set().contains(id) == store@.symbols.contains_key(
                    Symbol(namespace_identity, id)) by {
                    assert(store.symbol_index@.contains_key(key_of(Symbol(namespace_identity, id))) == (
                        store.namespace_index@.contains_key(namespace_identity) && store.namespace_index@[namespace_identity].symbol_index@.contains(id)));
                }
                assert(result@.to_set() =~= Set::new(|id: Identity| store@.symbols.contains_key(Symbol(namespace_identity, id))));
            }
        },
        None => {
            proof {
                assert forall|id: Identity| !store@.symbols.contains_key(Symbol(namespace_identity, id)) by {
                    assert(store.symbol_index@.contains_key(key_of(Symbol(namespace_identity, id))) == (
                        store.namespace_index@.contains_key(namespace_identity) && store.namespace_index@[namespace_identity].symbol_index@.contains(id)));
                }
                assert(result@.to_set() =~= Set::new(|id: Identity| store@.symbols.contains_key(Symbol(namespace_identity, id))));
            }
        },
    }
    result
}

/// The triples matching `triple` under `mask`: position `k` (entity, attribute, value) of
/// the mask is its base-3 digit `k`, 0 to match `triple[k]`, 1 to enumerate, 2 to ignore.
/// Each result keeps the enumerated positions of a linked triple and takes the others
/// from `triple`; no result comes twice.
#[verifier::rlimit(30)]
pub fn query_triples(store: &Store, mask: usize, triple: Triple) -> (r: Vec<Triple>)
    requires
        store.wf(),
        mask < 27,
    ensures
        r@.map_values(|t: Triple| triple_model(t)).no_duplicates(),
        r@.map_values(|t: Triple| triple_model(t)).to_set() == query_result(
            store@.triples,
            mask_letters(mask as int),
            triple_model(triple),
        ),
{
    let triple_index = INDEX_LOOKUP[mask];
    let i = order_index(triple_index);
    let ordered = reorder_triple(&TRIPLE_PRIORITIZED, triple_index, &triple);
    let found = store.search(SEARCH_LOOKUP[mask], i, ordered);
    let ghost fm = found@.map_values(|t: Triple| triple_model(t));
    let mut result: Vec<Triple> = Vec::new();
    let mut j: usize = 0;
    while j < found.len()
        invariant
            j <= found@.len(),
            i == order_of(triple_index),
            i < 6,
            fm == found@.map_values(|t: Triple| triple_model(t)),
            result@.map_values(|t: Triple| triple_model(t)) == fm.take(j as int).map_values(
                |u: TripleModel| normalized(i as int, u),
            ),
        decreases found@.len() - j,
    {
        let row = reorder_triple(&TRIPLE_NORMALIZED, triple_index, &found[j]);
        let ghost before = result@;
        result.push(row);
        j = j + 1;
        proof {
            assert(result@.map_values(|t: Triple| triple_model(t)) =~= before.map_values(|t: Triple| triple_model(t)).push(
                triple_model(row)));
            assert(fm.take(j as int) =~= fm.take(j - 1).push(fm[j - 1]));
            assert(result@.map_values(|t: Triple| triple_model(t)) =~= fm.take(j as int).map_values(
                |u: TripleModel| normalized(i as int, u)));
        }
    }
    proof {
        assert(fm.take(fm.len() as int) =~= fm);
        let rm = result@.map_values(|t: Triple| triple_model(t));
        assert(rm == fm.map_values(|u: TripleModel| normalized(i as int, u)));
        lemma_lookup_tables(mask as int);
        lemma_query_in_order(store.triples@, mask as int, i as int, triple_model(triple));
        assert forall|a: int, c: int| 0 <= a < rm.len() && 0 <= c < rm.len() && a != c implies rm[a] != rm[c] by {
            lemma_normalized_inverse(i as int, rm[a], fm[a]);
            lemma_normalized_inverse(i as int, rm[c], fm[c]);
        }
        assert forall|u: TripleModel| rm.to_set().contains(u) == fm.to_set().map(
            |v: TripleModel| normalized(i as int, v)).contains(u) by {
            if rm.to_set().contains(u) {
                let k = choose|k: int| 0 <= k < rm.len() && rm[k] == u;
                assert(fm.to_set().contains(fm[k]));
            }
            if fm.to_set().map(|v: TripleModel| normalized(i as int, v)).contains(u) {
                let v = choose|v: TripleModel| fm.to_set().contains(v) && u == normalized(i as int, v);
                let k = choose|k: int| 0 <= k < fm.len() && fm[k] == v;
                assert(rm[k] == u);
            }
        }
        assert(rm.to_set() =~= fm.to_set().map(|v: TripleModel| normalized(i as int, v)));
    }
    result
}

} // verus!
