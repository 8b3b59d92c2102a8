use std::collections::HashMap;
use std::collections::HashSet;
use vstd::prelude::*;
use vstd::std_specs::iter::IteratorSpec;

verus! {

broadcast use vstd::std_specs::hash::group_hash_axioms;

pub type GammaCollection = HashSet<u128>;

pub type BetaCollection = HashMap<u128, GammaCollection>;

/// Whether the map `m` holds the entry `kb -> kg`.
pub open spec fn beta_has(m: Map<u128, GammaCollection>, kb: u128, kg: u128) -> bool {
    m.contains_key(kb) && m[kb]@.contains(kg)
}

pub open spec fn beta_wf(m: Map<u128, GammaCollection>) -> bool {
    forall|b: u128| #[trigger] m.contains_key(b) ==> !m[b]@.is_empty()
}

/// Links (or unlinks) the entry `beta -> gamma` of one subindex; true where it changed.
pub fn set_triple_subindex(beta_self: &mut BetaCollection, beta: u128, gamma: u128, linked: bool) -> (r: bool)
    requires
        beta_wf(old(beta_self)@),
    ensures
        beta_wf(final(beta_self)@),
        r == (linked != beta_has(old(beta_self)@, beta, gamma)),
        forall|kb: u128, kg: u128| #[trigger] beta_has(final(beta_self)@, kb, kg) == if kb == beta && kg == gamma {
            linked
        } else {
            beta_has(old(beta_self)@, kb, kg)
        },
{
    let ghost m0 = beta_self@;
    if linked {
        match beta_self.remove(&beta) {
            Some(mut gamma_self) => {
                let ghost g0 = gamma_self@;
                let r = gamma_self.insert(gamma);
                beta_self.insert(beta, gamma_self);
                proof {
                    assert(g0 == m0[beta]@);
                    assert(beta_self@ =~= m0.insert(beta, gamma_self));
                    assert(gamma_self@ == g0.insert(gamma));
                    assert(gamma_self@.contains(gamma));
                    assert forall|b: u128| #[trigger] beta_self@.contains_key(b) implies !beta_self@[b]@.is_empty() by {
                        if b == beta {
                            assert(!Set::<u128>::empty().contains(gamma));
                        }
                    }
                }
                r
            },
            None => {
                let mut gamma_self: GammaCollection = HashSet::new();
                gamma_self.insert(gamma);
                beta_self.insert(beta, gamma_self);
                proof {
                    assert(gamma_self@ =~= Set::<u128>::empty().insert(gamma));
                    assert(beta_self@ =~= m0.insert(beta, gamma_self));
                    assert forall|b: u128| #[trigger] beta_self@.contains_key(b) implies !beta_self@[b]@.is_empty() by {
                        if b == beta {
                            assert(gamma_self@.contains(gamma));
                            assert(!Set::<u128>::empty().contains(gamma));
                        }
                    }
                }
                true
            },
        }
    } else {
        match beta_self.remove(&beta) {
            Some(mut gamma_self) => {
                let ghost g0 = gamma_self@;
                let r = gamma_self.remove(&gamma);
                proof {
                    assert(g0 == m0[beta]@);
                    assert(gamma_self@ == g0.remove(gamma));
                }
                if !gamma_self.is_empty() {
                    beta_self.insert(beta, gamma_self);
                    proof {
                        assert(beta_self@ =~= m0.insert(beta, gamma_self));
                    }
                } else {
                    proof {
                        assert(beta_self@ =~= m0.remove(beta));
                        assert forall|kg: u128| !gamma_self@.contains(kg) by {
                            assert(!Set::<u128>::empty().contains(kg));
                        }
                    }
                }
                r
            },
            None => {
                proof {
                    assert(beta_self@ =~= m0);
                }
                false
            },
        }
    }
}

/// Whether slot value `e` passes a slot of letter `l` (0 match, 1 enumerate, 2 ignore)
/// whose query value is `q`.
pub open spec fn slot_ok<T>(l: int, e: T, q: T) -> bool {
    l != 0 || e == q
}

/// What a slot of letter `l` shows: the found value where it enumerates, else the query's.
pub open spec fn slot_out<T>(l: int, e: T, q: T) -> T {
    if l == 1 {
        e
    } else {
        q
    }
}

/// The pairs one subindex yields for the letters `l1`, `l2` of its two levels.
pub open spec fn beta_result(m: Map<u128, GammaCollection>, l1: int, l2: int, kb: u128, kc: u128) -> Set<(u128, u128)> {
    Set::new(
        |x: (u128, u128)|
            exists|b: u128, g: u128|
                #![trigger beta_has(m, b, g)]
                beta_has(m, b, g) && slot_ok(l1, b, kb) && slot_ok(l2, g, kc) && x == (slot_out(l1, b, kb), slot_out(
                    l2,
                    g,
                    kc,
                )),
    )
}

/// The letter pairs a subindex level can be queried with: matches first, ignores last.
pub open spec fn letters_ordered(l1: int, l2: int) -> bool {
    0 <= l1 <= l2 <= 2
}

/// The keys of a map, each once.
pub fn map_keys<V>(m: &HashMap<u128, V>) -> (r: Vec<u128>)
    ensures
        r@.no_duplicates(),
        r@.to_set() == m@.dom(),
{
    let mut r: Vec<u128> = Vec::new();
    let ghost ks = m.keys().remaining();
    for k in it: m.keys()
        invariant
            it.seq() == ks,
            r@ == ks.take(it.index() as int).map_values(|k: &u128| *k),
    {
        r.push(*k);
    }
    proof {
        assert(ks.take(ks.len() as int) =~= ks);
        assert(ks.unref().to_set() == m@.dom());
        assert(r@ =~= ks.unref());
    }
    r
}

/// The items of a set, each once.
pub fn set_items(m: &HashSet<u128>) -> (r: Vec<u128>)
    ensures
        r@.no_duplicates(),
        r@.to_set() == m@,
{
    let mut r: Vec<u128> = Vec::new();
    let ghost ks = m.iter().remaining();
    for k in it: m.iter()
        invariant
            it.seq() == ks,
            r@ == ks.take(it.index() as int).map_values(|k: &u128| *k),
    {
        r.push(*k);
    }
    proof {
        assert(ks.take(ks.len() as int) =~= ks);
        assert(r@ =~= ks.unref());
    }
    r
}

/// Appends `(prefix, g)` for each `g` of `gs`.
fn push_pairs(r: &mut Vec<(u128, u128)>, prefix: u128, gs: &Vec<u128>)
    ensures
        final(r)@ == old(r)@ + gs@.map_values(|g: u128| (prefix, g)),
{
    let ghost r0 = r@;
    let mut j: usize = 0;
    while j < gs.len()
        invariant
            j <= gs@.len(),
            r@ == r0 + gs@.take(j as int).map_values(|g: u128| (prefix, g)),
        decreases gs@.len() - j,
    {
        r.push((prefix, gs[j]));
        j = j + 1;
        proof {
            assert(gs@.take(j as int) =~= gs@.take(j - 1) + seq![gs@[j - 1]]);
            assert(r@ =~= r0 + gs@.take(j as int).map_values(|g: u128| (prefix, g)));
        }
    }
    proof {
        assert(gs@.take(gs@.len() as int) =~= gs@);
    }
}

pub proof fn lemma_concat_to_set<A>(a: Seq<A>, b: Seq<A>)
    ensures
        (a + b).to_set() == a.to_set().union(b.to_set()),
{
    assert forall|x: A| (a + b).to_set().contains(x) == a.to_set().union(b.to_set()).contains(x) by {
        if (a + b).to_set().contains(x) {
            let k = choose|k: int| 0 <= k < (a + b).len() && (a + b)[k] == x;
            if k < a.len() {
                assert(a[k] == x);
            } else {
                assert(b[k - a.len()] == x);
            }
        }
        if a.to_set().contains(x) {
            let k = choose|k: int| 0 <= k < a.len() && a[k] == x;
            assert((a + b)[k] == x);
        }
        if b.to_set().contains(x) {
            let k = choose|k: int| 0 <= k < b.len() && b[k] == x;
            assert((a + b)[a.len() + k] == x);
        }
    }
    assert((a + b).to_set() =~= a.to_set().union(b.to_set()));
}

/// Some item of a non-empty set.
pub proof fn lemma_some_item(s: Set<u128>) -> (g: u128)
    requires
        !s.is_empty(),
    ensures
        s.contains(g),
{
    assert(exists|g: u128| s.contains(g)) by {
        if forall|g: u128| !s.contains(g) {
            assert(s =~= Set::<u128>::empty());
        }
    }
    choose|g: u128| s.contains(g)
}

/// The pairs one subindex yields for the letters `l1`, `l2`, each once.
#[verifier::rlimit(30)]
pub fn beta_outputs(m: &BetaCollection, l1: usize, l2: usize, kb: u128, kc: u128) -> (r: Vec<(u128, u128)>)
    requires
        beta_wf(m@),
        letters_ordered(l1 as int, l2 as int),
    ensures
        r@.no_duplicates(),
        r@.to_set() == beta_result(m@, l1 as int, l2 as int, kb, kc),
{
    let ghost target = beta_result(m@, l1 as int, l2 as int, kb, kc);
    let mut r: Vec<(u128, u128)> = Vec::new();
    if l1 == 0 {
        match m.get(&kb) {
            Some(gamma_self) => {
                if l2 == 0 {
                    if gamma_self.contains(&kc) {
                        r.push((kb, kc));
                    }
                    proof {
                        assert(r@.to_set() =~= target) by {
                            if gamma_self@.contains(kc) {
                                assert(beta_has(m@, kb, kc));
                                assert(r@ == seq![(kb, kc)]);
                                assert(r@[0] == (kb, kc));
                            }
                        }
                    }
                } else if l2 == 1 {
                    let gs = set_items(gamma_self);
                    push_pairs(&mut r, kb, &gs);
                    proof {
                        assert(r@ =~= gs@.map_values(|g: u128| (kb, g)));
                        assert forall|x: (u128, u128)| r@.to_set().contains(x) == target.contains(x) by {
                            if r@.to_set().contains(x) {
                                let j = choose|j: int| 0 <= j < r@.len() && r@[j] == x;
                                assert(gs@.to_set().contains(gs@[j]));
                                assert(beta_has(m@, kb, gs@[j]));
                            }
                            if target.contains(x) {
                                let (b, g) = choose|b: u128, g: u128|
                                    #![trigger beta_has(m@, b, g)]
                                    beta_has(m@, b, g) && slot_ok(l1 as int, b, kb) && slot_ok(l2 as int, g, kc) && x == (
                                    slot_out(l1 as int, b, kb), slot_out(l2 as int, g, kc));
                                assert(gs@.to_set().contains(g));
                                let j = choose|j: int| 0 <= j < gs@.len() && gs@[j] == g;
                                assert(r@[j] == x);
                            }
                        }
                        assert(r@.to_set() =~= target);
                        assert forall|i: int, j: int| 0 <= i < r@.len() && 0 <= j < r@.len() && i != j implies r@[i] != r@[j] by {
                            assert(gs@[i] != gs@[j]);
                        }
                    }
                } else {
                    r.push((kb, kc));
                    proof {
                        let g = lemma_some_item(gamma_self@);
                        assert(beta_has(m@, kb, g));
                        assert(r@ == seq![(kb, kc)]);
                        assert(r@.to_set() =~= target) by {
                            assert(r@[0] == (kb, kc));
                        }
                    }
                }
            },
            None => {
                proof {
                    assert(r@.to_set() =~= target);
                }
            },
        }
    } else if l1 == 1 {
        let keys = map_keys(m);
        let mut i: usize = 0;
        while i < keys.len()
            invariant
                i <= keys@.len(),
                keys@.no_duplicates(),
                keys@.to_set() == m@.dom(),
                beta_wf(m@),
                l1 == 1,
                l2 == 1 || l2 == 2,
                target == beta_result(m@, l1 as int, l2 as int, kb, kc),
                r@.no_duplicates(),
                r@.to_set() == Set::new(|x: (u128, u128)| target.contains(x) && keys@.subrange(0, i as int).contains(x.0)),
            decreases keys@.len() - i,
        {
            let kbeta = keys[i];
            proof {
                assert(keys@.to_set().contains(kbeta));
            }
            let gamma_self = m.get(&kbeta).unwrap();
            let ghost r0 = r@;
            let ghost row = Set::new(|x: (u128, u128)| target.contains(x) && x.0 == kbeta);
            let mut added: Vec<(u128, u128)> = Vec::new();
            if l2 == 1 {
                let gs = set_items(gamma_self);
                push_pairs(&mut added, kbeta, &gs);
                proof {
                    assert(added@ =~= gs@.map_values(|g: u128| (kbeta, g)));
                    assert forall|x: (u128, u128)| added@.to_set().contains(x) == row.contains(x) by {
                        if added@.to_set().contains(x) {
                            let k = choose|k: int| 0 <= k < added@.len() && added@[k] == x;
                            assert(gs@.to_set().contains(gs@[k]));
                            assert(beta_has(m@, kbeta, gs@[k]));
                        }
                        if row.contains(x) {
                            assert(target.contains(x));
                            let (b, g) = choose|b: u128, g: u128|
                                #![trigger beta_has(m@, b, g)]
                                beta_has(m@, b, g) && slot_ok(l1 as int, b, kb) && slot_ok(l2 as int, g, kc) && x == (
                                slot_out(l1 as int, b, kb), slot_out(l2 as int, g, kc));
                            assert(gs@.to_set().contains(g));
                            let k = choose|k: int| 0 <= k < gs@.len() && gs@[k] == g;
                            assert(added@[k] == x);
                        }
                    }
                    assert forall|a: int, c: int| 0 <= a < added@.len() && 0 <= c < added@.len() && a != c implies added@[a]
                        != added@[c] by {
                        assert(gs@[a] != gs@[c]);
                    }
                }
            } else {
                added.push((kbeta, kc));
                proof {
                    let g0 = lemma_some_item(gamma_self@);
                    assert(beta_has(m@, kbeta, g0));
                    assert(added@ == seq![(kbeta, kc)]);
                    assert forall|x: (u128, u128)| added@.to_set().contains(x) == row.contains(x) by {
                        if row.contains(x) {
                            assert(target.contains(x));
                            let (b, g) = choose|b: u128, g: u128|
                                #![trigger beta_has(m@, b, g)]
                                beta_has(m@, b, g) && slot_ok(l1 as int, b, kb) && slot_ok(l2 as int, g, kc) && x == (
                                slot_out(l1 as int, b, kb), slot_out(l2 as int, g, kc));
                            assert(x == (kbeta, kc));
                            assert(added@[0] == x);
                        }
                        if added@.to_set().contains(x) {
                            assert(x == (kbeta, kc));
                            assert(target.contains(x));
                        }
                    }
                }
            }
            proof {
                assert(added@.to_set() =~= row);
                assert forall|a: int, c: int| 0 <= a < r0.len() && 0 <= c < added@.len() implies r0[a] != added@[c] by {
                    assert(r0.to_set().contains(r0[a]));
                    assert(row.contains(added@[c])) by {
                        assert(added@.to_set().contains(added@[c]));
                    }
                    if r0[a] == added@[c] {
                        let j = choose|j: int| 0 <= j < i && #[trigger] keys@.subrange(0, i as int)[j] == r0[a].0;
                        assert(keys@[j] == keys@[i as int]);
                    }
                }
                vstd::seq_lib::lemma_no_dup_in_concat(r0, added@);
            }
            let ghost added_s = added@;
            r.append(&mut added);
            proof {
                assert(r@ == r0 + added_s);
                lemma_concat_to_set(r0, added_s);
                assert(r@.to_set() =~= Set::new(|x: (u128, u128)| target.contains(x) && keys@.subrange(0, i + 1).contains(x.0))) by {
                    assert forall|x: (u128, u128)| #[trigger] keys@.subrange(0, i + 1).contains(x.0) == (keys@.subrange(0, i as int).contains(x.0) || x.0 == kbeta) by {
                        if keys@.subrange(0, i + 1).contains(x.0) {
                            let j = choose|j: int| 0 <= j < i + 1 && #[trigger] keys@.subrange(0, i + 1)[j] == x.0;
                            if j < i {
                                assert(keys@.subrange(0, i as int)[j] == x.0);
                            }
                        }
                        if keys@.subrange(0, i as int).contains(x.0) {
                            let j = choose|j: int| 0 <= j < i && #[trigger] keys@.subrange(0, i as int)[j] == x.0;
                            assert(keys@.subrange(0, i + 1)[j] == x.0);
                        }
                        if x.0 == kbeta {
                            assert(keys@.subrange(0, i + 1)[i as int] == x.0);
                        }
                    }
                }
            }
            i = i + 1;
        }
        proof {
            assert(keys@.subrange(0, keys@.len() as int) =~= keys@);
            assert forall|x: (u128, u128)| target.contains(x) implies keys@.contains(x.0) by {
                let (b, g) = choose|b: u128, g: u128|
                    #![trigger beta_has(m@, b, g)]
                    beta_has(m@, b, g) && slot_ok(l1 as int, b, kb) && slot_ok(l2 as int, g, kc) && x == (
                    slot_out(l1 as int, b, kb), slot_out(l2 as int, g, kc));
                assert(keys@.to_set().contains(b));
            }
            assert(r@.to_set() =~= target);
        }
    } else {
        if !m.is_empty() {
            r.push((kb, kc));
            proof {
                assert(exists|b: u128| m@.contains_key(b)) by {
                    if forall|b: u128| !m@.contains_key(b) {
                        assert(m@ =~= Map::<u128, GammaCollection>::empty());
                    }
                }
                let b = choose|b: u128| m@.contains_key(b);
                let g = lemma_some_item(m@[b]@);
                assert(beta_has(m@, b, g));
                assert(r@ == seq![(kb, kc)]);
                assert(r@.to_set() =~= target) by {
                    assert(r@[0] == (kb, kc));
                }
            }
        } else {
            proof {
                assert forall|b: u128, g: u128| !beta_has(m@, b, g) by {
                    assert(!m@.contains_key(b));
                }
                assert(r@.to_set() =~= target);
            }
        }
    }
    r
}

} // verus!
