//! One hook event, decided for its context: the scopes its triggers turn on
//! and its `forget` rules turn off, what the context is owed, and what is
//! recorded of it.
//!
//! Everything here is a function of the catalog snapshot, the context's state
//! and the event alone; reading the store and answering the request are the
//! server's.
use vstd::prelude::*;

use crate::catalog::{holds, holds_string, string_views, Catalog, MemoryKind, ScopeEntry};
use crate::render::{Rendered, Section, SectionMemory};
use crate::context::{KeyView, activated, activation_map, baselined, compute_needs, delivered_map, needs_delivered, owed_ids, record_delivery, recorded, retracted_ids, retraction_pairs, retractions, tokens_filled, withdrawn, ContextKey, Delivered, Form, Needs, Owed, PreviousText, Retraction, RetractReason, is_critical_in, activation_of, clear_activation, delivered_ids, unchanged_identity, unique_activations, Activation, ContextState};
use crate::events::{EventPlan, TriggerField};
use crate::patterns::{field_name, fired};
use crate::text::{lemma_seq_lt_asymmetric, lemma_seq_lt_irreflexive, lemma_seq_lt_total, lemma_seq_lt_transitive, seq_lt, strictly_sorted};

verus! {

/// The ids of a list of scopes, as a set.
pub open spec fn set_of(v: Seq<String>) -> Set<Seq<char>> {
    Set::new(|k: Seq<char>| holds(v, k))
}

/// Places `s` among the scope ids of `v`, kept in id order, unless it is
/// there already.
pub fn sorted_insert(v: &mut Vec<String>, s: &String)
    requires
        strictly_sorted(string_views(old(v)@)),
    ensures
        strictly_sorted(string_views(final(v)@)),
        set_of(final(v)@) == set_of(old(v)@).insert(s@),
        holds(old(v)@, s@) ==> final(v)@ == old(v)@,
{
    let ghost before = v@;
    let mut p: usize = 0;
    while p < v.len() && crate::text::chars_lt(&crate::text::chars_of(v[p].as_str()), &crate::text::chars_of(s.as_str()))
        invariant
            v@ == before,
            p <= v@.len(),
            forall|i: int| 0 <= i < p ==> seq_lt(#[trigger] v@[i]@, s@),
        decreases v.len() - p,
    {
        p += 1;
    }
    if p < v.len() && v[p] == *s {
        assert(holds(before, s@));
        assert(set_of(before) =~= set_of(before).insert(s@));
        return;
    }
    proof {
        if p < before.len() {
            lemma_seq_lt_total(before[p as int]@, s@);
        }
        assert forall|i: int| 0 <= i < before.len() implies (#[trigger] before[i])@ != s@ by {
            if i < p {
                lemma_seq_lt_irreflexive(s@);
            } else if i > p {
                assert(string_views(before)[p as int] == before[p as int]@);
                assert(string_views(before)[i] == before[i]@);
                lemma_seq_lt_transitive(s@, before[p as int]@, before[i]@);
                lemma_seq_lt_irreflexive(s@);
            }
        }
    }
    v.insert(p, s.clone());
    proof {
        let after = v@;
        assert(after =~= before.take(p as int).push(*s) + before.skip(p as int));
        assert forall|i: int, j: int| 0 <= i < j < after.len() implies seq_lt(#[trigger] string_views(after)[i], #[trigger] string_views(after)[j]) by {
            assert(string_views(after)[i] == after[i]@);
            assert(string_views(after)[j] == after[j]@);
            if j < p {
                assert(after[i] == before[i] && after[j] == before[j]);
                assert(string_views(before)[i] == before[i]@ && string_views(before)[j] == before[j]@);
            } else if j == p {
                assert(after[i] == before[i]);
            } else if i < p {
                assert(after[i] == before[i] && after[j] == before[j - 1]);
                assert(string_views(before)[p as int] == before[p as int]@);
                assert(string_views(before)[j - 1] == before[j - 1]@);
                if j - 1 > p {
                    lemma_seq_lt_transitive(s@, before[p as int]@, before[j - 1]@);
                }
                lemma_seq_lt_transitive(before[i]@, s@, before[j - 1]@);
            } else if i == p {
                assert(after[j] == before[j - 1]);
                assert(string_views(before)[p as int] == before[p as int]@);
                assert(string_views(before)[j - 1] == before[j - 1]@);
                if j - 1 > p {
                    lemma_seq_lt_transitive(s@, before[p as int]@, before[j - 1]@);
                }
            } else {
                assert(after[i] == before[i - 1] && after[j] == before[j - 1]);
                assert(string_views(before)[i - 1] == before[i - 1]@ && string_views(before)[j - 1] == before[j - 1]@);
            }
        }
        assert forall|k: Seq<char>| #[trigger] set_of(after).contains(k) == set_of(before).insert(s@).contains(k) by {
            if holds(after, k) {
                let i = choose|i: int| 0 <= i < after.len() && (#[trigger] after[i])@ == k;
                if i < p {
                    assert(after[i] == before[i]);
                } else if i > p {
                    assert(after[i] == before[i - 1]);
                }
            }
            if holds(before, k) {
                let i = choose|i: int| 0 <= i < before.len() && (#[trigger] before[i])@ == k;
                if i < p {
                    assert(after[i] == before[i]);
                } else {
                    assert(after[i + 1] == before[i]);
                }
            }
            if k == s@ {
                assert(after[p as int] == *s);
            }
        }
        assert(set_of(after) =~= set_of(before).insert(s@));
    }
}


/// The scopes the first file of `scope` says it implies.
pub open spec fn implies_of(scopes: Seq<ScopeEntry>, scope: Seq<char>) -> Seq<String>
    decreases scopes.len(),
{
    if scopes.len() == 0 {
        Seq::empty()
    } else if scopes[0].id@ == scope {
        scopes[0].implies@
    } else {
        implies_of(scopes.skip(1), scope)
    }
}

/// Whether a set of scopes holds every scope any of its members implies.
pub open spec fn closed_under(set: Set<Seq<char>>, scopes: Seq<ScopeEntry>) -> bool {
    forall|x: Seq<char>, y: Seq<char>|
        #![trigger set.contains(x), holds(implies_of(scopes, x), y)]
        set.contains(x) && holds(implies_of(scopes, x), y) ==> set.contains(y)
}

/// Every scope named in any `implies` of the store.
pub open spec fn all_implied(scopes: Seq<ScopeEntry>) -> Seq<String>
    decreases scopes.len(),
{
    if scopes.len() == 0 {
        Seq::empty()
    } else {
        all_implied(scopes.drop_last()) + scopes.last().implies@
    }
}

/// How many entries of `pool` name a scope `r` does not hold.
pub open spec fn missing(pool: Seq<String>, r: Seq<String>) -> nat
    decreases pool.len(),
{
    if pool.len() == 0 {
        0
    } else {
        missing(pool.drop_last(), r) + if holds(r, pool.last()@) {
            0nat
        } else {
            1nat
        }
    }
}

proof fn lemma_missing_shrinks(pool: Seq<String>, r: Seq<String>, r2: Seq<String>)
    requires
        set_of(r) <= set_of(r2),
    ensures
        missing(pool, r2) <= missing(pool, r),
        forall|j: int| 0 <= j < pool.len() && !holds(r, pool[j]@) && holds(r2, pool[j]@) ==> missing(pool, r2) < missing(pool, r),
    decreases pool.len(),
{
    if pool.len() > 0 {
        lemma_missing_shrinks(pool.drop_last(), r, r2);
        assert(set_of(r).contains(pool.last()@) ==> set_of(r2).contains(pool.last()@));
        assert forall|j: int| 0 <= j < pool.len() && !holds(r, pool[j]@) && holds(r2, pool[j]@) implies missing(pool, r2) < missing(pool, r) by {
            if j < pool.len() - 1 {
                assert(pool.drop_last()[j] == pool[j]);
            }
        }
    }
}

proof fn lemma_all_implied_holds(scopes: Seq<ScopeEntry>, e: int, y: Seq<char>)
    requires
        0 <= e < scopes.len(),
        holds(scopes[e].implies@, y),
    ensures
        holds(all_implied(scopes), y),
    decreases scopes.len(),
{
    let i = choose|i: int| 0 <= i < scopes[e].implies@.len() && (#[trigger] scopes[e].implies@[i])@ == y;
    if e == scopes.len() - 1 {
        let pre = all_implied(scopes.drop_last());
        assert(all_implied(scopes)[pre.len() + i] == scopes[e].implies@[i]);
    } else {
        assert(scopes.drop_last()[e] == scopes[e]);
        lemma_all_implied_holds(scopes.drop_last(), e, y);
        let j = choose|j: int| 0 <= j < all_implied(scopes.drop_last()).len() && (#[trigger] all_implied(scopes.drop_last())[j])@ == y;
        assert(all_implied(scopes)[j] == all_implied(scopes.drop_last())[j]);
    }
}

/// Where the first file of `scope` is.
fn entry_of(scopes: &Vec<ScopeEntry>, scope: &String) -> (found: Option<usize>)
    ensures
        match found {
            Some(e) => e < scopes@.len() && implies_of(scopes@, scope@) == scopes@[e as int].implies@,
            None => implies_of(scopes@, scope@).len() == 0,
        },
{
    let mut i: usize = 0;
    assert(scopes@.skip(0) =~= scopes@);
    while i < scopes.len()
        invariant
            i <= scopes@.len(),
            implies_of(scopes@, scope@) == implies_of(scopes@.skip(i as int), scope@),
        decreases scopes.len() - i,
    {
        assert(scopes@.skip(i as int)[0] == scopes@[i as int]);
        if scopes[i].id == *scope {
            return Some(i);
        }
        assert(scopes@.skip(i as int).skip(1) =~= scopes@.skip(i + 1));
        i += 1;
    }
    None
}

/// Whether each scope of `r` is one of `active` or implied by a scope before
/// it in `r`.
pub open spec fn derivable(r: Seq<String>, active: Seq<String>, scopes: Seq<ScopeEntry>) -> bool {
    forall|i: int| 0 <= i < r.len() ==> #[trigger] derived_at(r, active, scopes, i)
}

/// Whether the scope at `i` of `r` is one of `active` or implied by one before it.
pub open spec fn derived_at(r: Seq<String>, active: Seq<String>, scopes: Seq<ScopeEntry>, i: int) -> bool {
    holds(active, r[i]@) || exists|j: int| 0 <= j < i && holds(implies_of(scopes, r[j]@), r[i]@)
}

proof fn lemma_derivable_in_closed(r: Seq<String>, active: Seq<String>, scopes: Seq<ScopeEntry>, s: Set<Seq<char>>, i: int)
    requires
        derivable(r, active, scopes),
        set_of(active) <= s,
        closed_under(s, scopes),
        0 <= i < r.len(),
    ensures
        s.contains(r[i]@),
    decreases i,
{
    assert(derived_at(r, active, scopes, i));
    if holds(active, r[i]@) {
        assert(set_of(active).contains(r[i]@));
    } else {
        let j = choose|j: int| 0 <= j < i && holds(implies_of(scopes, r[j]@), r[i]@);
        lemma_derivable_in_closed(r, active, scopes, s, j);
    }
}

/// `active` with every scope its members imply, directly or through other
/// scopes, in id order: the least set of scopes that holds `active` and every
/// scope any of its members implies.
pub fn closure(catalog: &Catalog, active: &Vec<String>) -> (all: Vec<String>)
    ensures
        strictly_sorted(string_views(all@)),
        set_of(active@) <= set_of(all@),
        closed_under(set_of(all@), catalog.scopes@),
        forall|s: Set<Seq<char>>| set_of(active@) <= s && closed_under(s, catalog.scopes@) ==> set_of(all@) <= s,
{
    let ghost scopes = catalog.scopes@;
    let ghost pool = all_implied(scopes);
    let mut r: Vec<String> = Vec::new();
    let mut a: usize = 0;
    while a < active.len()
        invariant
            a <= active@.len(),
            set_of(r@) == set_of(active@.take(a as int)),
            derivable(r@, active@, scopes),
            scopes == catalog.scopes@,
        decreases active.len() - a,
    {
        proof {
            crate::context::lemma_holds_take(active@, a as int);
        }
        if !holds_string(&r, &active[a]) {
            let ghost before = r@;
            r.push(active[a].clone());
            proof {
                assert(holds(active@, r@[before.len() as int]@)) by {
                    assert(active@[a as int]@ == r@[before.len() as int]@);
                }
                assert forall|i: int| 0 <= i < r@.len() implies #[trigger] derived_at(r@, active@, scopes, i) by {
                    if i < before.len() {
                        assert(derived_at(before, active@, scopes, i));
                        assert(r@[i] == before[i]);
                        if !holds(active@, before[i]@) {
                            let j = choose|j: int| 0 <= j < i && holds(implies_of(scopes, before[j]@), before[i]@);
                            assert(r@[j] == before[j]);
                        }
                    }
                }
                assert forall|k: Seq<char>| #[trigger] set_of(r@).contains(k) == set_of(active@.take(a + 1)).contains(k) by {
                    if holds(r@, k) {
                        let i = choose|i: int| 0 <= i < r@.len() && (#[trigger] r@[i])@ == k;
                        if i < before.len() {
                            assert(r@[i] == before[i]);
                            assert(set_of(before).contains(k));
                        }
                    }
                    if holds(before, k) {
                        let i = choose|i: int| 0 <= i < before.len() && (#[trigger] before[i])@ == k;
                        assert(r@[i] == before[i]);
                    }
                    if k == active@[a as int]@ {
                        assert(r@[before.len() as int] == active@[a as int]);
                    }
                    assert(set_of(before).contains(k) == holds(active@.take(a as int), k));
                }
                assert(set_of(r@) =~= set_of(active@.take(a + 1)));
            }
        } else {
            proof {
                assert forall|k: Seq<char>| #[trigger] set_of(r@).contains(k) == set_of(active@.take(a + 1)).contains(k) by {
                    assert(set_of(r@).contains(k) == holds(active@.take(a as int), k));
                    if k == active@[a as int]@ {
                        assert(set_of(r@).contains(k));
                    }
                }
                assert(set_of(r@) =~= set_of(active@.take(a + 1)));
            }
        }
        a += 1;
    }
    assert(active@.take(active@.len() as int) =~= active@);
    let mut idx: usize = 0;
    while idx < r.len()
        invariant
            idx <= r@.len(),
            scopes == catalog.scopes@,
            pool == all_implied(scopes),
            set_of(active@) <= set_of(r@),
            derivable(r@, active@, scopes),
            forall|i: int, y: Seq<char>|
                #![trigger holds(implies_of(scopes, r@[i]@), y)]
                0 <= i < idx && holds(implies_of(scopes, r@[i]@), y) ==> holds(r@, y),
        decreases missing(pool, r@), r@.len() - idx,
    {
        let x = r[idx].clone();
        let ghost start = r@;
        match entry_of(&catalog.scopes, &x) {
            Some(e) => {
                let implied = &catalog.scopes[e].implies;
                let mut k: usize = 0;
                while k < implied.len()
                    invariant
                        k <= implied@.len(),
                        e < scopes.len(),
                        *implied == scopes[e as int].implies,
                        implies_of(scopes, x@) == implied@,
                        x@ == start[idx as int]@,
                        idx < start.len(),
                        scopes == catalog.scopes@,
                        pool == all_implied(scopes),
                        start.len() <= r@.len(),
                        r@.take(start.len() as int) == start,
                        set_of(start) <= set_of(r@),
                        derivable(r@, active@, scopes),
                        r@.len() == start.len() || missing(pool, r@) < missing(pool, start),
                        missing(pool, r@) <= missing(pool, start),
                        forall|j: int| 0 <= j < k ==> holds(r@, (#[trigger] implied@[j])@),
                    decreases implied.len() - k,
                {
                    let y = &implied[k];
                    if !holds_string(&r, y) {
                        let ghost before = r@;
                        r.push(y.clone());
                        proof {
                            assert(r@.take(start.len() as int) =~= start) by {
                                assert(before.take(start.len() as int) == start);
                            }
                            assert forall|kk: Seq<char>| set_of(before).contains(kk) implies set_of(r@).contains(kk) by {
                                let i = choose|i: int| 0 <= i < before.len() && (#[trigger] before[i])@ == kk;
                                assert(r@[i] == before[i]);
                            }
                            assert(set_of(before) <= set_of(r@));
                            assert(holds(implied@, y@)) by {
                                assert(implied@[k as int] == *y);
                            }
                            lemma_all_implied_holds(scopes, e as int, y@);
                            let pj = choose|pj: int| 0 <= pj < pool.len() && (#[trigger] pool[pj])@ == y@;
                            assert(holds(r@, y@)) by {
                                assert(r@[before.len() as int] == *y);
                            }
                            lemma_missing_shrinks(pool, before, r@);
                            lemma_missing_shrinks(pool, start, before);
                            assert(!holds(before, pool[pj]@));
                            assert(missing(pool, r@) < missing(pool, before));
                            assert(derived_at(r@, active@, scopes, before.len() as int)) by {
                                assert(r@[idx as int] == start[idx as int]);
                                assert(holds(implies_of(scopes, r@[idx as int]@), r@[before.len() as int]@));
                            }
                            assert forall|i: int| 0 <= i < r@.len() implies #[trigger] derived_at(r@, active@, scopes, i) by {
                                if i < before.len() {
                                    assert(derived_at(before, active@, scopes, i));
                                    assert(r@[i] == before[i]);
                                    if !holds(active@, before[i]@) {
                                        let j = choose|j: int| 0 <= j < i && holds(implies_of(scopes, before[j]@), before[i]@);
                                        assert(r@[j] == before[j]);
                                    }
                                }
                            }
                            assert forall|j: int| 0 <= j < k + 1 implies holds(r@, (#[trigger] implied@[j])@) by {
                                if j < k {
                                    assert(holds(before, implied@[j]@));
                                    assert(set_of(before).contains(implied@[j]@));
                                }
                            }
                            lemma_set_le_trans(start, before, r@);
                        }
                    }
                    k += 1;
                }
            },
            None => {},
        }
        proof {
            assert(set_of(start) <= set_of(r@));
            assert forall|i: int, y: Seq<char>|
                #![trigger holds(implies_of(scopes, r@[i]@), y)]
                0 <= i < idx + 1 && holds(implies_of(scopes, r@[i]@), y) implies holds(r@, y) by {
                assert(r@[i] == start[i]) by {
                    assert(r@.take(start.len() as int)[i] == start[i]);
                }
                if i < idx {
                    assert(holds(start, y));
                    assert(set_of(start).contains(y));
                } else {
                    let j = choose|j: int| 0 <= j < implies_of(scopes, r@[i]@).len() && (#[trigger] implies_of(scopes, r@[i]@)[j])@ == y;
                }
            }
            if r@.len() == start.len() {
                assert(r@ =~= start) by {
                    assert(r@.take(start.len() as int) =~= r@);
                }
            }
            lemma_set_le_trans(start, start, r@);
        }
        idx += 1;
    }
    proof {
        assert forall|x: Seq<char>, y: Seq<char>|
            #![trigger set_of(r@).contains(x), holds(implies_of(scopes, x), y)]
            set_of(r@).contains(x) && holds(implies_of(scopes, x), y) implies set_of(r@).contains(y) by {
            let i = choose|i: int| 0 <= i < r@.len() && (#[trigger] r@[i])@ == x;
            assert(holds(implies_of(scopes, r@[i]@), y));
        }
        assert forall|s: Set<Seq<char>>| set_of(active@) <= s && closed_under(s, scopes) implies set_of(r@) <= s by {
            assert forall|k: Seq<char>| set_of(r@).contains(k) implies s.contains(k) by {
                let i = choose|i: int| 0 <= i < r@.len() && (#[trigger] r@[i])@ == k;
                lemma_derivable_in_closed(r@, active@, scopes, s, i);
            }
        }
    }
    let mut all: Vec<String> = Vec::new();
    let mut i: usize = 0;
    while i < r.len()
        invariant
            i <= r@.len(),
            strictly_sorted(string_views(all@)),
            set_of(all@) == set_of(r@.take(i as int)),
        decreases r.len() - i,
    {
        proof {
            crate::context::lemma_holds_take(r@, i as int);
        }
        let ghost prev = set_of(all@);
        sorted_insert(&mut all, &r[i]);
        assert forall|k: Seq<char>| #[trigger] set_of(all@).contains(k) == set_of(r@.take(i + 1)).contains(k) by {
            assert(set_of(all@).contains(k) == (prev.contains(k) || k == r@[i as int]@));
            assert(prev.contains(k) == holds(r@.take(i as int), k));
        }
        assert(set_of(all@) =~= set_of(r@.take(i + 1)));
        i += 1;
    }
    assert(r@.take(r@.len() as int) =~= r@);
    all
}

proof fn lemma_set_le_trans(a: Seq<String>, b: Seq<String>, c: Seq<String>)
    requires
        set_of(a) <= set_of(b),
        set_of(b) <= set_of(c),
    ensures
        set_of(a) <= set_of(c),
{
}


/// One scope an event turned off because its `forget` rule was reached.
#[derive(Clone, Debug, PartialEq, Eq)]
pub struct ForgottenScope {
    pub scope_id: String,
    /// The rule: the tokens since the last activation it allows.
    pub tokens_since_trigger: u64,
    /// The context size it was turned off at.
    pub tokens_at: u64,
}

/// The rule of `scope` when it is reached at `tokens`: the scope has a
/// `forget` rule and a recorded activation, and the context has grown by at
/// least the rule's tokens since then.
pub open spec fn forget_due(scopes: Seq<ScopeEntry>, acts: Map<Seq<char>, u64>, scope: Seq<char>, tokens: u64) -> Option<u64> {
    match crate::catalog::forget_rule_of(scopes, scope) {
        Some(n) => if acts.dom().contains(scope) && (if tokens >= acts[scope] {
            tokens - acts[scope]
        } else {
            0
        }) >= n {
            Some(n)
        } else {
            None
        },
        None => None,
    }
}

/// The scopes of `active` that are forgotten, in order, with their rule and
/// the size they were forgotten at.
pub open spec fn forgotten_of(active: Seq<String>, scopes: Seq<ScopeEntry>, acts: Map<Seq<char>, u64>, tokens: u64) -> Seq<(Seq<char>, u64, u64)>
    decreases active.len(),
{
    if active.len() == 0 {
        Seq::empty()
    } else {
        let before = forgotten_of(active.drop_last(), scopes, acts, tokens);
        match forget_due(scopes, acts, active.last()@, tokens) {
            Some(n) => before.push((active.last()@, n, tokens)),
            None => before,
        }
    }
}

/// The views of forgotten scopes.
pub open spec fn forgotten_views(v: Seq<ForgottenScope>) -> Seq<(Seq<char>, u64, u64)> {
    v.map_values(|f: ForgottenScope| (f.scope_id@, f.tokens_since_trigger, f.tokens_at))
}

/// The activations that remain once the scopes of `active` whose rule is
/// reached are forgotten.
pub open spec fn remaining_activations(active: Seq<String>, scopes: Seq<ScopeEntry>, acts: Map<Seq<char>, u64>, tokens: u64) -> Map<Seq<char>, u64> {
    acts.restrict(Set::new(|k: Seq<char>| !(holds(active, k) && forget_due(scopes, acts, k, tokens) is Some)))
}

/// Turn off every scope of `context` whose `forget` rule is reached at
/// `tokens_now`, and report each one, in scope id order. An event that
/// carries no context size forgets nothing: the rule counts tokens.
///
/// The scopes a forgotten scope implies stay on: a scope is a flag, and the
/// state does not record which implication turned it on.
pub fn forget_scopes(context: &mut ContextState, catalog: &Catalog, tokens_now: Option<u64>) -> (forgotten: Vec<ForgottenScope>)
    requires
        old(context).well_formed(),
    ensures
        final(context).well_formed(),
        final(context).delivered == old(context).delivered,
        final(context).tokens == old(context).tokens,
        unchanged_identity(*old(context), *final(context)),
        match tokens_now {
            Some(t) => {
                &&& string_views(final(context).active@) == string_views(old(context).active@).filter(
                    |k: Seq<char>| forget_due(catalog.scopes@, activation_map(old(context).activated_at@), k, t) is None,
                )
                &&& activation_map(final(context).activated_at@) == remaining_activations(
                    old(context).active@,
                    catalog.scopes@,
                    activation_map(old(context).activated_at@),
                    t,
                )
                &&& forgotten_views(forgotten@) == forgotten_of(
                    old(context).active@,
                    catalog.scopes@,
                    activation_map(old(context).activated_at@),
                    t,
                )
            },
            None => {
                &&& final(context).active == old(context).active
                &&& final(context).activated_at == old(context).activated_at
                &&& forgotten@.len() == 0
            },
        },
{
    let t = match tokens_now {
        Some(t) => t,
        None => return Vec::new(),
    };
    let ghost acts = activation_map(context.activated_at@);
    let ghost scopes = catalog.scopes@;
    let ghost active0 = context.active@;
    let ghost pred = |k: Seq<char>| forget_due(scopes, acts, k, t) is None;
    let mut kept: Vec<String> = Vec::new();
    let mut forgotten: Vec<ForgottenScope> = Vec::new();
    let mut i: usize = 0;
    while i < context.active.len()
        invariant
            i <= active0.len(),
            context.active@ == active0,
            strictly_sorted(string_views(active0)),
            context.delivered == old(context).delivered,
            context.tokens == old(context).tokens,
            unchanged_identity(*old(context), *context),
            strictly_sorted(delivered_ids(context.delivered@)),
            unique_activations(context.activated_at@),
            scopes == catalog.scopes@,
            acts == activation_map(old(context).activated_at@),
            active0 == old(context).active@,
            pred == (|k: Seq<char>| forget_due(scopes, acts, k, t) is None),
            string_views(kept@) == string_views(active0.take(i as int)).filter(pred),
            strictly_sorted(string_views(kept@)),
            forall|a: int, b: int| 0 <= a < kept@.len() && i <= b < active0.len() ==> seq_lt(#[trigger] kept@[a]@, #[trigger] active0[b]@),
            forgotten_views(forgotten@) == forgotten_of(active0.take(i as int), scopes, acts, t),
            activation_map(context.activated_at@) == acts.restrict(
                Set::new(|k: Seq<char>| !(holds(active0.take(i as int), k) && forget_due(scopes, acts, k, t) is Some)),
            ),
        decreases active0.len() - i,
    {
        let scope = context.active[i].clone();
        proof {
            let pre = active0.take(i as int);
            let pre1 = active0.take(i + 1);
            assert(pre1.drop_last() =~= pre);
            assert(pre1.last() == active0[i as int]);
            assert(string_views(pre1) =~= string_views(pre).push(active0[i as int]@));
            crate::text::lemma_filter_push(string_views(pre), pred, active0[i as int]@);
            crate::context::lemma_holds_take(active0, i as int);
        }
        let rule = catalog.forget_rule(&scope);
        let due = match rule {
            Some(n) => match find_activation_tokens(&context.activated_at, &scope) {
                Some(a) => {
                    let grown = if t >= a {
                        t - a
                    } else {
                        0
                    };
                    if grown >= n {
                        Some(n)
                    } else {
                        None
                    }
                },
                None => None,
            },
            None => None,
        };
        proof {
            // Earlier scopes differ from this one, so the activation read now is
            // the one the event started with.
            assert forall|j: int| 0 <= j < i implies (#[trigger] active0[j])@ != scope@ by {
                assert(string_views(active0)[j] == active0[j]@);
                assert(string_views(active0)[i as int] == active0[i as int]@);
                lemma_seq_lt_irreflexive(scope@);
            }
            assert(!holds(active0.take(i as int), scope@)) by {
                if holds(active0.take(i as int), scope@) {
                    let j = choose|j: int| 0 <= j < active0.take(i as int).len() && (#[trigger] active0.take(i as int)[j])@ == scope@;
                    assert(active0.take(i as int)[j] == active0[j]);
                }
            }
            assert(activation_map(context.activated_at@).dom().contains(scope@) == acts.dom().contains(scope@));
            if acts.dom().contains(scope@) {
                assert(activation_map(context.activated_at@)[scope@] == acts[scope@]);
            }
        }
        match due {
            Some(n) => {
                let ghost before = forgotten@;
                clear_activation(&mut context.activated_at, &scope);
                forgotten.push(ForgottenScope { scope_id: scope, tokens_since_trigger: n, tokens_at: t });
                proof {
                    assert(forgotten_views(forgotten@) =~= forgotten_views(before).push((active0[i as int]@, n, t)));
                }
            },
            None => {
                let ghost before = kept@;
                kept.push(scope);
                proof {
                    assert(string_views(kept@) =~= string_views(before).push(active0[i as int]@));
                    assert forall|a: int, b: int| 0 <= a < kept@.len() && i + 1 <= b < active0.len() implies seq_lt(#[trigger] kept@[a]@, #[trigger] active0[b]@) by {
                        assert(string_views(active0)[i as int] == active0[i as int]@);
                        assert(string_views(active0)[b] == active0[b]@);
                        if a < before.len() {
                            assert(kept@[a] == before[a]);
                        }
                    }
                    assert forall|a: int, b: int| 0 <= a < b < kept@.len() implies seq_lt(#[trigger] string_views(kept@)[a], #[trigger] string_views(kept@)[b]) by {
                        assert(string_views(kept@)[a] == kept@[a]@);
                        assert(string_views(kept@)[b] == kept@[b]@);
                        if b < before.len() {
                            assert(string_views(before)[a] == before[a]@ && string_views(before)[b] == before[b]@);
                            assert(kept@[a] == before[a] && kept@[b] == before[b]);
                        } else {
                            assert(kept@[a] == before[a]);
                        }
                    }
                }
            },
        }
        proof {
            assert(activation_map(context.activated_at@) =~= acts.restrict(
                Set::new(|k: Seq<char>| !(holds(active0.take(i + 1), k) && forget_due(scopes, acts, k, t) is Some)),
            ));
        }
        i += 1;
    }
    proof {
        assert(active0.take(active0.len() as int) =~= active0);
    }
    context.active = kept;
    forgotten
}

/// The tokens recorded for `scope`, when it has an activation.
fn find_activation_tokens(v: &Vec<Activation>, scope: &String) -> (tokens: Option<u64>)
    ensures
        tokens == activation_of(v@, scope@),
{
    let mut i: usize = 0;
    assert(v@.skip(0) =~= v@);
    while i < v.len()
        invariant
            i <= v@.len(),
            activation_of(v@, scope@) == activation_of(v@.skip(i as int), scope@),
        decreases v.len() - i,
    {
        assert(v@.skip(i as int)[0] == v@[i as int]);
        if v[i].scope == *scope {
            return Some(v[i].tokens);
        }
        assert(v@.skip(i as int).skip(1) =~= v@.skip(i + 1));
        i += 1;
    }
    None
}


/// One trigger that fired at an event, as the statistics record it.
#[derive(Clone, Debug, PartialEq, Eq)]
pub struct TriggerFire {
    pub scope_id: String,
    /// The field of the text it matched, by its name.
    pub field: String,
    pub pattern: String,
    /// Whether this fire turned the scope on, rather than finding it on.
    pub activated_new: bool,
}

/// A fire as plain values.
pub open spec fn fire_views(v: Seq<TriggerFire>) -> Seq<(Seq<char>, Seq<char>, Seq<char>, bool)> {
    v.map_values(|f: TriggerFire| (f.scope_id@, f.field@, f.pattern@, f.activated_new))
}

/// Every hit of every text, text by text.
pub open spec fn hits_for_texts(scopes: Seq<ScopeEntry>, texts: Seq<(TriggerField, Seq<char>)>, machine: Seq<char>) -> Seq<(Seq<char>, TriggerField, Seq<char>)>
    decreases texts.len(),
{
    if texts.len() == 0 {
        Seq::empty()
    } else {
        hits_for_texts(scopes, texts.drop_last(), machine) + fired(scopes, texts.last().0, texts.last().1, machine)
    }
}

/// The active scopes, the activations and the fires after `hits`, taken in
/// order: each turns its scope on, records its activation, and is recorded
/// as new when its scope was not on before it.
pub open spec fn after_hits(
    set: Set<Seq<char>>,
    acts: Map<Seq<char>, u64>,
    hits: Seq<(Seq<char>, TriggerField, Seq<char>)>,
    tokens: Option<u64>,
    scopes: Seq<ScopeEntry>,
) -> (Set<Seq<char>>, Map<Seq<char>, u64>, Seq<(Seq<char>, Seq<char>, Seq<char>, bool)>)
    decreases hits.len(),
{
    if hits.len() == 0 {
        (set, acts, Seq::empty())
    } else {
        let (s, a, f) = after_hits(set, acts, hits.drop_last(), tokens, scopes);
        let h = hits.last();
        (s.insert(h.0), activated(a, h.0, tokens, scopes), f.push((h.0, field_name(h.1), h.2, !s.contains(h.0))))
    }
}

proof fn lemma_after_hits_append(
    set: Set<Seq<char>>,
    acts: Map<Seq<char>, u64>,
    a: Seq<(Seq<char>, TriggerField, Seq<char>)>,
    b: Seq<(Seq<char>, TriggerField, Seq<char>)>,
    tokens: Option<u64>,
    scopes: Seq<ScopeEntry>,
)
    ensures
        after_hits(set, acts, a + b, tokens, scopes) == ({
            let (s, m, f) = after_hits(set, acts, a, tokens, scopes);
            let (s2, m2, f2) = after_hits(s, m, b, tokens, scopes);
            (s2, m2, f + f2)
        }),
    decreases b.len(),
{
    if b.len() == 0 {
        assert(a + b =~= a);
        let (s, m, f) = after_hits(set, acts, a, tokens, scopes);
        assert(f + Seq::<(Seq<char>, Seq<char>, Seq<char>, bool)>::empty() =~= f);
    } else {
        lemma_after_hits_append(set, acts, a, b.drop_last(), tokens, scopes);
        assert((a + b).drop_last() =~= a + b.drop_last());
        assert((a + b).last() == b.last());
        let (s, m, f) = after_hits(set, acts, a, tokens, scopes);
        let (s1, m1, f1) = after_hits(s, m, b.drop_last(), tokens, scopes);
        let h = b.last();
        assert(f + f1.push((h.0, field_name(h.1), h.2, !s1.contains(h.0))) =~= (f + f1).push((h.0, field_name(h.1), h.2, !s1.contains(h.0))));
    }
}

/// The plan's texts as plain values.
pub open spec fn text_views(texts: Seq<(TriggerField, String)>) -> Seq<(TriggerField, Seq<char>)> {
    texts.map_values(|t: (TriggerField, String)| (t.0, t.1@))
}

/// Turn on the scope of every trigger that fires on `texts`, in order, and
/// record each fire.
pub fn activate(
    context: &mut ContextState,
    catalog: &Catalog,
    texts: &Vec<(TriggerField, String)>,
    machine: &str,
    tokens_now: Option<u64>,
) -> (fires: Vec<TriggerFire>)
    requires
        old(context).well_formed(),
    ensures
        final(context).well_formed(),
        final(context).delivered == old(context).delivered,
        final(context).tokens == old(context).tokens,
        unchanged_identity(*old(context), *final(context)),
        (set_of(final(context).active@), activation_map(final(context).activated_at@), fire_views(fires@)) == after_hits(
            set_of(old(context).active@),
            activation_map(old(context).activated_at@),
            hits_for_texts(catalog.scopes@, text_views(texts@), machine@),
            tokens_now,
            catalog.scopes@,
        ),
{
    let ghost scopes = catalog.scopes@;
    let ghost set0 = set_of(context.active@);
    let ghost acts0 = activation_map(context.activated_at@);
    let mut fires: Vec<TriggerFire> = Vec::new();
    let mut i: usize = 0;
    while i < texts.len()
        invariant
            i <= texts@.len(),
            scopes == catalog.scopes@,
            context.well_formed(),
            context.delivered == old(context).delivered,
            context.tokens == old(context).tokens,
            unchanged_identity(*old(context), *context),
            set0 == set_of(old(context).active@),
            acts0 == activation_map(old(context).activated_at@),
            (set_of(context.active@), activation_map(context.activated_at@), fire_views(fires@)) == after_hits(
                set0,
                acts0,
                hits_for_texts(scopes, text_views(texts@).take(i as int), machine@),
                tokens_now,
                scopes,
            ),
        decreases texts.len() - i,
    {
        let field = texts[i].0;
        let hits = crate::patterns::fire(catalog, field, texts[i].1.as_str(), machine);
        let ghost done = hits_for_texts(scopes, text_views(texts@).take(i as int), machine@);
        let ghost st = after_hits(set0, acts0, done, tokens_now, scopes);
        let ghost fires0 = fire_views(fires@);
        proof {
            assert(text_views(texts@).take(i + 1).drop_last() =~= text_views(texts@).take(i as int));
            assert(text_views(texts@).take(i + 1).last() == (field, texts@[i as int].1@));
        }
        let mut k: usize = 0;
        while k < hits.len()
            invariant
                k <= hits@.len(),
                scopes == catalog.scopes@,
                context.well_formed(),
                context.delivered == old(context).delivered,
                context.tokens == old(context).tokens,
                unchanged_identity(*old(context), *context),
                fires0 == st.2,
                ({
                    let (s2, m2, f2) = after_hits(st.0, st.1, crate::patterns::hit_views(hits@).take(k as int), tokens_now, scopes);
                    set_of(context.active@) == s2 && activation_map(context.activated_at@) == m2 && fire_views(fires@) == fires0 + f2
                }),
            decreases hits.len() - k,
        {
            let hit = &hits[k];
            let ghost prev = after_hits(st.0, st.1, crate::patterns::hit_views(hits@).take(k as int), tokens_now, scopes);
            proof {
                assert(crate::patterns::hit_views(hits@).take(k + 1).drop_last() =~= crate::patterns::hit_views(hits@).take(k as int));
                assert(crate::patterns::hit_views(hits@).take(k + 1).last() == crate::patterns::hit_view(*hit));
            }
            let activated_new = !holds_string(&context.active, &hit.scope);
            sorted_insert(&mut context.active, &hit.scope);
            context.note_activation(&hit.scope, tokens_now, catalog);
            let ghost before = fires@;
            fires.push(TriggerFire {
                scope_id: hit.scope.clone(),
                field: hit.field.as_str().to_owned(),
                pattern: hit.pattern.clone(),
                activated_new,
            });
            proof {
                assert(fire_views(fires@) =~= fire_views(before).push((hit.scope@, field_name(hit.field), hit.pattern@, activated_new)));
                let (s1, m1, f1) = prev;
                assert(fire_views(before) == fires0 + f1);
                assert(fires0 + f1.push((hit.scope@, field_name(hit.field), hit.pattern@, !s1.contains(hit.scope@))) =~= (fires0 + f1).push((hit.scope@, field_name(hit.field), hit.pattern@, activated_new)));
            }
            k += 1;
        }
        proof {
            assert(crate::patterns::hit_views(hits@).take(hits@.len() as int) =~= crate::patterns::hit_views(hits@));
            lemma_after_hits_append(set0, acts0, done, fired(scopes, field, texts@[i as int].1@, machine@), tokens_now, scopes);
        }
        i += 1;
    }
    proof {
        assert(text_views(texts@).take(texts@.len() as int) =~= text_views(texts@));
    }
    fires
}

/// The scopes of `now` that are not in `before`, in id order.
pub fn newly_active(now: &Vec<String>, before: &Vec<String>) -> (added: Vec<String>)
    requires
        strictly_sorted(string_views(now@)),
    ensures
        strictly_sorted(string_views(added@)),
        set_of(added@) == set_of(now@).difference(set_of(before@)),
{
    let mut added: Vec<String> = Vec::new();
    let mut i: usize = 0;
    while i < now.len()
        invariant
            i <= now@.len(),
            strictly_sorted(string_views(now@)),
            strictly_sorted(string_views(added@)),
            forall|a: int, b: int| 0 <= a < added@.len() && i <= b < now@.len() ==> seq_lt(#[trigger] added@[a]@, #[trigger] now@[b]@),
            set_of(added@) == set_of(now@.take(i as int)).difference(set_of(before@)),
        decreases now.len() - i,
    {
        proof {
            crate::context::lemma_holds_take(now@, i as int);
        }
        if !holds_string(before, &now[i]) {
            let ghost prev = added@;
            added.push(now[i].clone());
            proof {
                assert forall|a: int, b: int| 0 <= a < added@.len() && i + 1 <= b < now@.len() implies seq_lt(#[trigger] added@[a]@, #[trigger] now@[b]@) by {
                    assert(string_views(now@)[i as int] == now@[i as int]@);
                    assert(string_views(now@)[b] == now@[b]@);
                    if a < prev.len() {
                        assert(added@[a] == prev[a]);
                    }
                }
                assert forall|a: int, b: int| 0 <= a < b < added@.len() implies seq_lt(#[trigger] string_views(added@)[a], #[trigger] string_views(added@)[b]) by {
                    assert(string_views(added@)[a] == added@[a]@);
                    assert(string_views(added@)[b] == added@[b]@);
                    if b < prev.len() {
                        assert(string_views(prev)[a] == prev[a]@ && string_views(prev)[b] == prev[b]@);
                        assert(added@[a] == prev[a] && added@[b] == prev[b]);
                    } else {
                        assert(added@[a] == prev[a]);
                    }
                }
                assert forall|k: Seq<char>| #[trigger] set_of(added@).contains(k) == (set_of(prev).contains(k) || k == now@[i as int]@) by {
                    if holds(added@, k) {
                        let j = choose|j: int| 0 <= j < added@.len() && (#[trigger] added@[j])@ == k;
                        if j < prev.len() {
                            assert(added@[j] == prev[j]);
                        }
                    }
                    if holds(prev, k) {
                        let j = choose|j: int| 0 <= j < prev.len() && (#[trigger] prev[j])@ == k;
                        assert(added@[j] == prev[j]);
                    }
                    if k == now@[i as int]@ {
                        assert(added@[prev.len() as int] == now@[i as int]);
                    }
                }
                assert(set_of(added@) =~= set_of(now@.take(i + 1)).difference(set_of(before@)));
            }
        } else {
            proof {
                assert(set_of(added@) =~= set_of(now@.take(i + 1)).difference(set_of(before@)));
            }
            proof {
                assert forall|a: int, b: int| 0 <= a < added@.len() && i + 1 <= b < now@.len() implies seq_lt(#[trigger] added@[a]@, #[trigger] now@[b]@) by {
                    assert(seq_lt(added@[a]@, now@[b]@));
                }
            }
        }
        i += 1;
    }
    assert(now@.take(now@.len() as int) =~= now@);
    added
}


/// The set of a list of scope ids kept by a filter is the set of the list,
/// filtered.
proof fn lemma_set_of_filter(v: Seq<String>, w: Seq<String>, pred: spec_fn(Seq<char>) -> bool)
    requires
        string_views(w) == string_views(v).filter(pred),
    ensures
        set_of(w) == set_of(v).filter(pred),
{
    assert forall|k: Seq<char>| #[trigger] set_of(w).contains(k) == set_of(v).filter(pred).contains(k) by {
        if holds(w, k) {
            let i = choose|i: int| 0 <= i < w.len() && (#[trigger] w[i])@ == k;
            assert(string_views(w)[i] == k);
            assert(string_views(v).filter(pred).contains(k));
            string_views(v).lemma_filter_contains_rev(pred, k);
            let j = choose|j: int| 0 <= j < string_views(v).len() && string_views(v)[j] == k;
            assert(v[j]@ == k);
            let f = string_views(v).filter(pred);
            let fi = choose|fi: int| 0 <= fi < f.len() && f[fi] == k;
            string_views(v).lemma_filter_pred(pred, fi);
        }
        if holds(v, k) && pred(k) {
            let i = choose|i: int| 0 <= i < v.len() && (#[trigger] v[i])@ == k;
            assert(string_views(v)[i] == k);
            string_views(v).lemma_filter_contains(pred, i);
            let j = choose|j: int| 0 <= j < string_views(w).len() && string_views(w)[j] == k;
            assert(w[j]@ == k);
        }
    }
    assert(set_of(w) =~= set_of(v).filter(pred));
}

/// What the client read from the session's transcript about what the session
/// is called. Both are absent when it could read no transcript, which is not
/// the same as the session having no name.
#[derive(Clone, Debug)]
pub struct SessionName {
    pub title: Option<String>,
    pub first_prompt: Option<String>,
}

/// What one event decided for its context.
#[derive(Clone, Debug)]
pub struct Outcome {
    pub needs: Needs,
    /// The scopes this event turned on, the ones its triggers named and the
    /// ones those imply alike, in id order.
    pub activated: Vec<String>,
    pub fires: Vec<TriggerFire>,
    /// The scopes this event turned off because their `forget` rule was
    /// reached, in id order.
    pub forgotten: Vec<ForgottenScope>,
}

/// A value the event gives, else the one held.
pub open spec fn given_or_held(given: Option<String>, held: Option<String>) -> Option<String> {
    match given {
        Some(v) => Some(v),
        None => held,
    }
}

/// What a field holds once the event has begun the context: a session start
/// makes the state anew.
pub open spec fn held_at_start(start: bool, held: Option<String>) -> Option<String> {
    if start {
        None
    } else {
        held
    }
}

/// The directory the session began in, once this event is seen: the one
/// remembered, else this event's own.
pub open spec fn directory_after(old: ContextState, plan: EventPlan) -> Option<String> {
    given_or_held(held_at_start(plan.session_start, old.session_directory), plan.cwd)
}

/// The activations once the event has begun the context and taken its size.
pub open spec fn acts_noted(old: ContextState, plan: EventPlan, scopes: Seq<ScopeEntry>, tokens: Option<u64>) -> Map<Seq<char>, u64> {
    let begun = if plan.session_start {
        Map::empty()
    } else {
        activation_map(old.activated_at@)
    };
    match tokens {
        Some(t) => baselined(begun, old.active@, scopes, t),
        None => begun,
    }
}

/// The deliveries once the event has begun the context and taken its size.
pub open spec fn delivered_noted(old: ContextState, plan: EventPlan, tokens: Option<u64>) -> Seq<Delivered> {
    let begun = if plan.session_start {
        Seq::empty()
    } else {
        old.delivered@
    };
    match tokens {
        Some(t) => tokens_filled(begun, t),
        None => begun,
    }
}

/// The scopes that stay on once the `forget` rules reached are applied.
pub open spec fn kept_on(old: ContextState, plan: EventPlan, scopes: Seq<ScopeEntry>, tokens: Option<u64>) -> Set<Seq<char>> {
    match tokens {
        Some(t) => set_of(old.active@).filter(|k: Seq<char>| forget_due(scopes, acts_noted(old, plan, scopes, tokens), k, t) is None),
        None => set_of(old.active@),
    }
}

/// The activations once the `forget` rules reached are applied.
pub open spec fn acts_kept(old: ContextState, plan: EventPlan, scopes: Seq<ScopeEntry>, tokens: Option<u64>) -> Map<Seq<char>, u64> {
    match tokens {
        Some(t) => remaining_activations(old.active@, scopes, acts_noted(old, plan, scopes, tokens), t),
        None => acts_noted(old, plan, scopes, tokens),
    }
}

/// The scopes the event forgets, with their rules.
pub open spec fn forgotten_by(old: ContextState, plan: EventPlan, scopes: Seq<ScopeEntry>, tokens: Option<u64>) -> Seq<(Seq<char>, u64, u64)> {
    match tokens {
        Some(t) => forgotten_of(old.active@, scopes, acts_noted(old, plan, scopes, tokens), t),
        None => Seq::empty(),
    }
}

/// The texts the triggers are matched against: the plan's, then the
/// directory the session began in for an event that matches directories.
pub open spec fn event_texts(plan: EventPlan, directory: Option<String>) -> Seq<(TriggerField, Seq<char>)> {
    text_views(plan.texts@) + if plan.matches_directories && directory is Some {
        seq![(TriggerField::SessionDirectory, directory->0@)]
    } else {
        Seq::empty()
    }
}

/// The scopes on, the activations and the fires once the event's triggers
/// have fired.
pub open spec fn fired_state(old: ContextState, plan: EventPlan, scopes: Seq<ScopeEntry>, tokens: Option<u64>) -> (Set<Seq<char>>, Map<Seq<char>, u64>, Seq<(Seq<char>, Seq<char>, Seq<char>, bool)>) {
    after_hits(
        kept_on(old, plan, scopes, tokens),
        acts_kept(old, plan, scopes, tokens),
        hits_for_texts(scopes, event_texts(plan, directory_after(old, plan)), plan.key.machine@),
        tokens,
        scopes,
    )
}

/// Whether `mid` is the state the context was owed from: the scopes it ends
/// in, the deliveries it held once the event began it, and the event's size;
/// and `needs` is what that state is owed.
pub open spec fn owed_from(mid: ContextState, fin: ContextState, old: ContextState, plan: EventPlan, catalog: &Catalog, tokens: Option<u64>, previous: Seq<PreviousText>, needs: Needs) -> bool {
    &&& mid.well_formed()
    &&& mid.active == fin.active
    &&& mid.delivered@ == delivered_noted(old, plan, tokens)
    &&& string_views(needs.new@) == owed_ids(catalog, &mid, tokens, previous, catalog.memories@, Owed::New)
    &&& string_views(needs.changed@) == owed_ids(catalog, &mid, tokens, previous, catalog.memories@, Owed::Changed)
    &&& string_views(needs.shrunk@) == owed_ids(catalog, &mid, tokens, previous, catalog.memories@, Owed::Shrunk)
    &&& string_views(needs.stale@) == owed_ids(catalog, &mid, tokens, previous, catalog.memories@, Owed::Stale)
    &&& retraction_pairs(needs) == retractions(catalog, mid.active@, mid.delivered@)
    &&& delivered_map(fin.delivered@) == withdrawn(
        recorded(
            delivered_map(mid.delivered@),
            needs_delivered(needs) + string_views(needs.shrunk@),
            catalog,
            tokens,
        ),
        retracted_ids(needs),
    )
}

/// A copy of a plan's texts.
fn copy_texts(texts: &Vec<(TriggerField, String)>) -> (out: Vec<(TriggerField, String)>)
    ensures
        text_views(out@) == text_views(texts@),
{
    let mut out: Vec<(TriggerField, String)> = Vec::new();
    let mut i: usize = 0;
    while i < texts.len()
        invariant
            i <= texts@.len(),
            text_views(out@) == text_views(texts@).take(i as int),
        decreases texts.len() - i,
    {
        let ghost before = out@;
        out.push((texts[i].0, texts[i].1.clone()));
        assert(text_views(out@) =~= text_views(before).push((texts@[i as int].0, texts@[i as int].1@)));
        assert(text_views(texts@).take(i + 1) =~= text_views(texts@).take(i as int).push((texts@[i as int].0, texts@[i as int].1@)));
        i += 1;
    }
    assert(text_views(texts@).take(texts@.len() as int) =~= text_views(texts@));
    out
}

/// What one event does to its context: `after` is `before` brought forward
/// by the event of `plan`, counted at `tokens_now`, at time `now`, with the
/// names the client read and the earlier texts `previous`; `outcome` is what
/// the event decided.
pub open spec fn applied(
    before: ContextState,
    after: ContextState,
    plan: EventPlan,
    catalog: Catalog,
    tokens_now: Option<u64>,
    now: i64,
    named: SessionName,
    previous: Seq<PreviousText>,
    outcome: Outcome,
) -> bool {
    &&& after.parent == before.parent
    &&& after.session_directory == directory_after(before, plan)
    &&& after.session_title == given_or_held(named.title, held_at_start(plan.session_start, before.session_title))
    &&& after.first_prompt == given_or_held(named.first_prompt, held_at_start(plan.session_start, before.first_prompt))
    &&& after.task == given_or_held(plan.task, held_at_start(plan.session_start, before.task))
    &&& after.agent_type == given_or_held(plan.agent_type, held_at_start(plan.session_start, before.agent_type))
    &&& after.tokens == (match tokens_now {
        Some(t) => Some(t),
        None => if plan.session_start {
            None
        } else {
            before.tokens
        },
    })
    &&& after.last_seen == now
    &&& forgotten_views(outcome.forgotten@) =~= forgotten_by(before, plan, catalog.scopes@, tokens_now)
    &&& fire_views(outcome.fires@) =~= fired_state(before, plan, catalog.scopes@, tokens_now).2
    &&& activation_map(after.activated_at@) =~= fired_state(before, plan, catalog.scopes@, tokens_now).1
    &&& fired_state(before, plan, catalog.scopes@, tokens_now).0 <= set_of(after.active@)
    &&& closed_under(set_of(after.active@), catalog.scopes@)
    &&& forall|s: Set<Seq<char>>|
        fired_state(before, plan, catalog.scopes@, tokens_now).0 <= s && closed_under(s, catalog.scopes@) ==> set_of(
            after.active@,
        ) <= s
    &&& strictly_sorted(string_views(outcome.activated@))
    &&& set_of(outcome.activated@) =~= set_of(after.active@).difference(kept_on(before, plan, catalog.scopes@, tokens_now))
    &&& exists|mid: ContextState| #[trigger] owed_from(mid, after, before, plan, &catalog, tokens_now, previous, outcome.needs)
}

/// The whole of one event for its context: begin a session's state, take the
/// event's size, forget the scopes whose rule is reached, fire the triggers,
/// close the active scopes under their implications, work out what is owed,
/// and record it as delivered.
///
/// A session start makes the state anew, keeping the scopes and the parent.
/// The first event a context is seen at says where the session began. A name,
/// a first prompt, a task and a kind of subagent are kept as the last event
/// that carried one said them: an event that carries none says nothing.
/// Forgetting comes before the triggers, so a trigger that fires at the very
/// event a scope is forgotten at turns it on again as an activation of its
/// own.
pub fn apply(
    context: &mut ContextState,
    plan: &EventPlan,
    catalog: &Catalog,
    tokens_now: Option<u64>,
    now: i64,
    named: &SessionName,
    previous: &Vec<PreviousText>,
) -> (outcome: Outcome)
    requires
        old(context).well_formed(),
        catalog.well_formed(),
    ensures
        final(context).well_formed(),
        applied(*old(context), *final(context), *plan, *catalog, tokens_now, now, *named, previous@, outcome),
{
    let ghost start = *context;
    if plan.session_start {
        let mut active: Vec<String> = Vec::new();
        std::mem::swap(&mut active, &mut context.active);
        let mut parent: Option<ContextKey> = None;
        std::mem::swap(&mut parent, &mut context.parent);
        *context = ContextState::fresh(active, parent, now);
    }
    assert(context.active == start.active);
    assert(context.parent == start.parent);
    assert(context.delivered@ == (if plan.session_start { Seq::<Delivered>::empty() } else { start.delivered@ }));
    assert(activation_map(context.activated_at@) =~= (if plan.session_start { Map::<Seq<char>, u64>::empty() } else { activation_map(start.activated_at@) }));
    if context.session_directory.is_none() {
        context.session_directory = crate::context::copy_text(&plan.cwd);
    }
    if let Some(title) = &named.title {
        context.session_title = Some(title.clone());
    }
    if let Some(first_prompt) = &named.first_prompt {
        context.first_prompt = Some(first_prompt.clone());
    }
    if let Some(task) = &plan.task {
        context.task = Some(task.clone());
    }
    if let Some(agent_type) = &plan.agent_type {
        context.agent_type = Some(agent_type.clone());
    }
    context.last_seen = now;
    if let Some(t) = tokens_now {
        context.note_tokens(t, catalog);
    }
    assert(context.delivered@ == delivered_noted(start, *plan, tokens_now));
    assert(activation_map(context.activated_at@) == acts_noted(start, *plan, catalog.scopes@, tokens_now));
    let ghost noted = *context;
    let forgotten = forget_scopes(context, catalog, tokens_now);
    proof {
        if let Some(t) = tokens_now {
            lemma_set_of_filter(
                noted.active@,
                context.active@,
                |k: Seq<char>| forget_due(catalog.scopes@, activation_map(noted.activated_at@), k, t) is None,
            );
        }
        assert(set_of(context.active@) == kept_on(start, *plan, catalog.scopes@, tokens_now));
        assert(activation_map(context.activated_at@) == acts_kept(start, *plan, catalog.scopes@, tokens_now));
    }
    let mut texts = copy_texts(&plan.texts);
    if plan.matches_directories {
        if let Some(started_in) = &context.session_directory {
            let ghost before = texts@;
            texts.push((TriggerField::SessionDirectory, started_in.clone()));
            assert(text_views(texts@) =~= text_views(before).push((TriggerField::SessionDirectory, started_in@)));
        }
    }
    assert(text_views(texts@) =~= event_texts(*plan, directory_after(start, *plan)));
    let active_before = crate::operations::copy_strings(&context.active);
    assert(set_of(active_before@) =~= set_of(context.active@)) by {
        assert forall|k: Seq<char>| holds(active_before@, k) == holds(context.active@, k) by {
            if holds(active_before@, k) {
                let i = choose|i: int| 0 <= i < active_before@.len() && (#[trigger] active_before@[i])@ == k;
                assert(string_views(active_before@)[i] == string_views(context.active@)[i]);
            }
            if holds(context.active@, k) {
                let i = choose|i: int| 0 <= i < context.active@.len() && (#[trigger] context.active@[i])@ == k;
                assert(string_views(active_before@)[i] == string_views(context.active@)[i]);
            }
        }
    }
    let fires = activate(context, catalog, &texts, plan.key.machine.as_str(), tokens_now);
    let closed = closure(catalog, &context.active);
    context.active = closed;
    let activated = newly_active(&context.active, &active_before);
    let needs = compute_needs(catalog, context, tokens_now, previous);
    let ghost mid = *context;
    record_delivery(context, &needs, catalog, tokens_now);
    assert(owed_from(mid, *context, start, *plan, catalog, tokens_now, previous@, needs));
    assert(start == *old(context));
    assert(owed_from(mid, *context, *old(context), *plan, catalog, tokens_now, previous@, needs));
    let outcome = Outcome { needs, activated, fires, forgotten };
    assert(owed_from(mid, *context, *old(context), *plan, catalog, tokens_now, previous@, outcome.needs));
    outcome
}


/// One statistics row for one memory an event delivered, withdrew, or found
/// had only shrunk.
#[derive(Clone, Debug, PartialEq, Eq)]
pub struct DeliveryRow {
    pub memory: String,
    /// `critical` or `knowledge`; a memory the store no longer holds counts
    /// as knowledge.
    pub kind: String,
    /// `full`, `index`, or `none` for a withdrawal.
    pub form: String,
    /// `new`, `changed`, `stale`, `shrunk`, or `retracted:` and why.
    pub reason: String,
    /// The section the memory was printed in, empty when nothing was printed.
    pub scope: String,
    /// The UTF-16 code units and UTF-8 bytes printed for it.
    pub chars: u64,
    pub bytes: u64,
}

/// A row as plain values.
pub open spec fn row_view(r: DeliveryRow) -> (Seq<char>, Seq<char>, Seq<char>, Seq<char>, Seq<char>, u64, u64) {
    (r.memory@, r.kind@, r.form@, r.reason@, r.scope@, r.chars, r.bytes)
}

/// The rows as plain values.
pub open spec fn row_views(v: Seq<DeliveryRow>) -> Seq<(Seq<char>, Seq<char>, Seq<char>, Seq<char>, Seq<char>, u64, u64)> {
    v.map_values(|r: DeliveryRow| row_view(r))
}

/// The name a kind goes by in the statistics.
pub open spec fn kind_name(kind: MemoryKind) -> Seq<char> {
    match kind {
        MemoryKind::Critical => "critical"@,
        MemoryKind::Knowledge => "knowledge"@,
    }
}

/// The kind the store gives `id`, knowledge for a memory it does not hold.
pub open spec fn kind_in(catalog: &Catalog, id: Seq<char>) -> MemoryKind {
    match catalog.memory_spec(id) {
        Some(m) => m.kind,
        None => MemoryKind::Knowledge,
    }
}

/// Where and how large `id` was printed among `memories` of one section:
/// the last time it was.
pub open spec fn printed_in(scope: Seq<char>, memories: Seq<SectionMemory>, id: Seq<char>) -> Option<(Seq<char>, u64, u64)>
    decreases memories.len(),
{
    if memories.len() == 0 {
        None
    } else if memories.last().id@ == id {
        Some((scope, memories.last().chars, memories.last().bytes))
    } else {
        printed_in(scope, memories.drop_last(), id)
    }
}

/// Where and how large `id` was printed in an answer: the last time it was.
pub open spec fn printed(sections: Seq<Section>, id: Seq<char>) -> Option<(Seq<char>, u64, u64)>
    decreases sections.len(),
{
    if sections.len() == 0 {
        None
    } else {
        match printed_in(sections.last().scope@, sections.last().memories@, id) {
            Some(p) => Some(p),
            None => printed(sections.drop_last(), id),
        }
    }
}

/// The row of a memory delivered or shrunk for `reason`.
pub open spec fn delivery_row(catalog: &Catalog, sections: Seq<Section>, id: Seq<char>, reason: Seq<char>) -> (Seq<char>, Seq<char>, Seq<char>, Seq<char>, Seq<char>, u64, u64) {
    let kind = kind_in(catalog, id);
    let form = match crate::context::form_for(kind) {
        Form::Full => "full"@,
        Form::Index => "index"@,
    };
    match printed(sections, id) {
        Some(p) => (id, kind_name(kind), form, reason, p.0, p.1, p.2),
        None => (id, kind_name(kind), form, reason, Seq::empty(), 0, 0),
    }
}

/// The rows of `ids`, all delivered or shrunk for `reason`.
pub open spec fn delivery_rows(catalog: &Catalog, sections: Seq<Section>, ids: Seq<Seq<char>>, reason: Seq<char>) -> Seq<(Seq<char>, Seq<char>, Seq<char>, Seq<char>, Seq<char>, u64, u64)> {
    ids.map_values(|id: Seq<char>| delivery_row(catalog, sections, id, reason))
}

/// A reason with its spaces written as dashes.
pub open spec fn dashed(text: Seq<char>) -> Seq<char> {
    text.map_values(|c: char| if c == ' ' {
        '-'
    } else {
        c
    })
}

/// The words a withdrawal reason goes by.
pub open spec fn reason_words(reason: RetractReason) -> Seq<char> {
    match reason {
        RetractReason::Deleted => "deleted"@,
        RetractReason::NoActiveScope => "no longer in an active scope"@,
    }
}

/// The row of one withdrawal: no form, no section and no size.
pub open spec fn retraction_row(catalog: &Catalog, r: Retraction) -> (Seq<char>, Seq<char>, Seq<char>, Seq<char>, Seq<char>, u64, u64) {
    (r.id@, kind_name(kind_in(catalog, r.id@)), "none"@, "retracted:"@ + dashed(reason_words(r.reason)), Seq::empty(), 0, 0)
}

/// Every row of an event: the new, the changed, the stale and the shrunk
/// memories, then the withdrawals.
pub open spec fn rows_of(catalog: &Catalog, sections: Seq<Section>, needs: Needs) -> Seq<(Seq<char>, Seq<char>, Seq<char>, Seq<char>, Seq<char>, u64, u64)> {
    delivery_rows(catalog, sections, string_views(needs.new@), "new"@) + delivery_rows(
        catalog,
        sections,
        string_views(needs.changed@),
        "changed"@,
    ) + delivery_rows(catalog, sections, string_views(needs.stale@), "stale"@) + delivery_rows(
        catalog,
        sections,
        string_views(needs.shrunk@),
        "shrunk"@,
    ) + needs.retracted@.map_values(|r: Retraction| retraction_row(catalog, r))
}

/// Where and how large `id` was printed in the answer, the last time it was.
fn printed_at(sections: &Vec<Section>, id: &String) -> (found: Option<(String, u64, u64)>)
    ensures
        match found {
            Some(p) => printed(sections@, id@) == Some((p.0@, p.1, p.2)),
            None => printed(sections@, id@) is None,
        },
{
    let mut s: usize = sections.len();
    assert(sections@.take(s as int) =~= sections@);
    while s > 0
        invariant
            s <= sections@.len(),
            printed(sections@, id@) == printed(sections@.take(s as int), id@),
        decreases s,
    {
        let section = &sections[s - 1];
        proof {
            assert(sections@.take(s as int).drop_last() =~= sections@.take(s - 1));
            assert(sections@.take(s as int).last() == *section);
        }
        let mut m: usize = section.memories.len();
        assert(section.memories@.take(m as int) =~= section.memories@);
        while m > 0
            invariant
                m <= section.memories@.len(),
                0 < s <= sections@.len(),
                *section == sections@[s - 1],
                printed(sections@, id@) == (match printed_in(section.scope@, section.memories@, id@) {
                    Some(p) => Some(p),
                    None => printed(sections@.take(s - 1), id@),
                }),
                printed_in(section.scope@, section.memories@, id@) == printed_in(section.scope@, section.memories@.take(m as int), id@),
            decreases m,
        {
            proof {
                assert(section.memories@.take(m as int).drop_last() =~= section.memories@.take(m - 1));
                assert(section.memories@.take(m as int).last() == section.memories@[m - 1]);
            }
            if section.memories[m - 1].id == *id {
                return Some((section.scope.clone(), section.memories[m - 1].chars, section.memories[m - 1].bytes));
            }
            m -= 1;
        }
        s -= 1;
    }
    None
}

/// The kind the store gives `id`, knowledge for a memory it does not hold.
fn kind_of_id(catalog: &Catalog, id: &String) -> (kind: MemoryKind)
    requires
        catalog.well_formed(),
    ensures
        kind == kind_in(catalog, id@),
{
    match catalog.find(id) {
        Some(p) => {
            proof {
                crate::context::lemma_memory_at(catalog, p as int);
            }
            catalog.memories[p].kind
        },
        None => MemoryKind::Knowledge,
    }
}

/// The name a kind goes by in the statistics.
fn kind_text(kind: MemoryKind) -> (name: &'static str)
    ensures
        name@ == kind_name(kind),
{
    match kind {
        MemoryKind::Critical => "critical",
        MemoryKind::Knowledge => "knowledge",
    }
}

/// Appends the rows of `ids`, all for `reason`.
fn push_rows(rows: &mut Vec<DeliveryRow>, catalog: &Catalog, sections: &Vec<Section>, ids: &Vec<String>, reason: &str)
    requires
        catalog.well_formed(),
    ensures
        row_views(final(rows)@) == row_views(old(rows)@) + delivery_rows(catalog, sections@, string_views(ids@), reason@),
{
    let mut i: usize = 0;
    while i < ids.len()
        invariant
            catalog.well_formed(),
            i <= ids@.len(),
            row_views(rows@) == row_views(old(rows)@) + delivery_rows(catalog, sections@, string_views(ids@).take(i as int), reason@),
        decreases ids.len() - i,
    {
        let id = &ids[i];
        let kind = kind_of_id(catalog, id);
        let (scope, chars, bytes) = match printed_at(sections, id) {
            Some(p) => p,
            None => (String::new(), 0, 0),
        };
        let ghost before = rows@;
        rows.push(DeliveryRow {
            memory: id.clone(),
            kind: kind_text(kind).to_owned(),
            form: Form::for_kind(kind).as_str().to_owned(),
            reason: reason.to_owned(),
            scope,
            chars,
            bytes,
        });
        proof {
            assert(string_views(ids@).take(i + 1) =~= string_views(ids@).take(i as int).push(id@));
            assert(row_views(rows@) =~= row_views(before).push(delivery_row(catalog, sections@, id@, reason@)));
            assert(delivery_rows(catalog, sections@, string_views(ids@).take(i + 1), reason@) =~= delivery_rows(catalog, sections@, string_views(ids@).take(i as int), reason@).push(delivery_row(catalog, sections@, id@, reason@)));
        }
        i += 1;
    }
    assert(string_views(ids@).take(ids@.len() as int) =~= string_views(ids@));
}

/// A reason's words with their spaces written as dashes.
fn dashed_text(text: &str) -> (out: Vec<char>)
    ensures
        out@ == dashed(text@),
{
    let chars = crate::text::chars_of(text);
    let mut out: Vec<char> = Vec::new();
    let mut i: usize = 0;
    while i < chars.len()
        invariant
            i <= chars@.len(),
            chars@ == text@,
            out@ == dashed(text@).take(i as int),
        decreases chars.len() - i,
    {
        let c = chars[i];
        out.push(if c == ' ' {
            '-'
        } else {
            c
        });
        assert(dashed(text@).take(i + 1) =~= dashed(text@).take(i as int).push(dashed(text@)[i as int]));
        i += 1;
    }
    assert(dashed(text@).take(chars@.len() as int) =~= dashed(text@));
    out
}

/// One statistics row per memory this event delivered, withdrew, or found
/// had only shrunk.
///
/// The scope and the size of a delivered memory are read out of `rendered`,
/// the answer that was sent: a memory's cost is the text printed for it and
/// the scope it is charged to is the section it was printed in. A withdrawal
/// and a memory that only shrank put nothing in the answer, so neither has a
/// section or a size.
pub fn deliveries_of(needs: &Needs, catalog: &Catalog, rendered: Option<&Rendered>) -> (rows: Vec<DeliveryRow>)
    requires
        catalog.well_formed(),
    ensures
        row_views(rows@) == rows_of(
            catalog,
            match rendered {
                Some(r) => r.sections@,
                None => Seq::empty(),
            },
            *needs,
        ),
{
    let no_sections: Vec<Section> = Vec::new();
    let sections = match rendered {
        Some(r) => &r.sections,
        None => &no_sections,
    };
    let mut rows: Vec<DeliveryRow> = Vec::new();
    push_rows(&mut rows, catalog, sections, &needs.new, "new");
    push_rows(&mut rows, catalog, sections, &needs.changed, "changed");
    push_rows(&mut rows, catalog, sections, &needs.stale, "stale");
    push_rows(&mut rows, catalog, sections, &needs.shrunk, "shrunk");
    let ghost delivered = row_views(rows@);
    let mut k: usize = 0;
    while k < needs.retracted.len()
        invariant
            catalog.well_formed(),
            k <= needs.retracted@.len(),
            row_views(rows@) == delivered + needs.retracted@.take(k as int).map_values(|r: Retraction| retraction_row(catalog, r)),
        decreases needs.retracted.len() - k,
    {
        let r = &needs.retracted[k];
        let kind = kind_of_id(catalog, &r.id);
        let mut reason: Vec<char> = Vec::new();
        crate::text::push_str(&mut reason, "retracted:");
        let words = dashed_text(r.reason.as_str());
        crate::text::push_all(&mut reason, &words);
        let ghost before = rows@;
        rows.push(DeliveryRow {
            memory: r.id.clone(),
            kind: kind_text(kind).to_owned(),
            form: "none".to_owned(),
            reason: crate::text::string_of(&reason),
            scope: String::new(),
            chars: 0,
            bytes: 0,
        });
        proof {
            assert(row_views(rows@) =~= row_views(before).push(retraction_row(catalog, *r)));
            assert(needs.retracted@.take(k + 1).map_values(|r: Retraction| retraction_row(catalog, r)) =~= needs.retracted@.take(k as int).map_values(|r: Retraction| retraction_row(catalog, r)).push(retraction_row(catalog, *r)));
        }
        k += 1;
    }
    assert(needs.retracted@.take(needs.retracted@.len() as int) =~= needs.retracted@);
    rows
}

/// Why a tool call was stopped. Fixed text: the model has to be able to tell
/// this apart from a human refusing the call.
pub const DENY_REASON: &'static str = "This tool call was not executed. Its input matched a memory trigger and a critical memory is new or changed for this context. This is an automatic keyword match, not a review, approval or denial of the call. Read the memory in the additional context. Issue the call again if it is still what you intend.";

/// How an event was answered, as the statistics record it.
#[derive(Clone, Copy, Debug, PartialEq, Eq, Structural)]
pub enum Decision {
    /// The call was stopped and the memories sent.
    Deny,
    /// Memories or named scopes were sent.
    Context,
    /// Nothing was sent.
    Quiet,
}

/// What an event's answer does: whether the call is stopped, whether there is
/// anything to send, and how the two are recorded.
pub struct Verdict {
    pub deny: bool,
    pub answered: bool,
    pub decision: Decision,
}

/// Whether the call is stopped: only a call about to run can be, only when
/// the store asks for it and does not exempt the tool, and only for a
/// critical memory the context has not been given at this version.
pub open spec fn denies(plan: EventPlan, catalog: &Catalog, needs: Needs) -> bool {
    &&& plan.may_deny
    &&& catalog.settings.interrupt_on_critical
    &&& match plan.tool_name {
        Some(name) => !holds(catalog.settings.interrupt_exempt_tools@, name@),
        None => true,
    }
    &&& ((exists|i: int| 0 <= i < needs.new@.len() && is_critical_in(catalog, #[trigger] needs.new@[i]@)) || (exists|i: int|
        0 <= i < needs.changed@.len() && is_critical_in(catalog, #[trigger] needs.changed@[i]@)))
}

/// What an event's answer does. A scope named because it delivered nothing is
/// a reason to answer at all but not a delivery, so nothing is held for it.
pub fn verdict(plan: &EventPlan, catalog: &Catalog, needs: &Needs, announced: &Vec<String>) -> (v: Verdict)
    requires
        catalog.well_formed(),
    ensures
        v.deny == denies(*plan, catalog, *needs),
        v.answered == (!(needs.new@.len() == 0 && needs.changed@.len() == 0 && needs.stale@.len() == 0
            && needs.retracted@.len() == 0) || announced@.len() > 0),
        v.decision == (if v.deny {
            Decision::Deny
        } else if v.answered {
            Decision::Context
        } else {
            Decision::Quiet
        }),
{
    let tool: Option<&String> = match &plan.tool_name {
        Some(name) => Some(name),
        None => None,
    };
    let holds_call = catalog.settings.interrupts(tool);
    assert(holds_call == (catalog.settings.interrupt_on_critical && match plan.tool_name {
        Some(name) => !holds(catalog.settings.interrupt_exempt_tools@, name@),
        None => true,
    }));
    let arrives = needs.has_critical_arrival(catalog);
    let deny = plan.may_deny && holds_call && arrives;
    assert(arrives == ((exists|i: int| 0 <= i < needs.new@.len() && is_critical_in(catalog, #[trigger] needs.new@[i]@)) || (exists|i: int|
        0 <= i < needs.changed@.len() && is_critical_in(catalog, #[trigger] needs.changed@[i]@))));
    assert(deny == denies(*plan, catalog, *needs));
    let answered = !needs.is_empty() || announced.len() > 0;
    let decision = if deny {
        Decision::Deny
    } else if answered {
        Decision::Context
    } else {
        Decision::Quiet
    };
    Verdict { deny, answered, decision }
}


/// Triggers only turn scopes on: every scope on before the hits is on after
/// them, and so is the scope of every hit.
pub proof fn lemma_triggers_only_turn_on(
    set: Set<Seq<char>>,
    acts: Map<Seq<char>, u64>,
    hits: Seq<(Seq<char>, TriggerField, Seq<char>)>,
    tokens: Option<u64>,
    scopes: Seq<ScopeEntry>,
)
    ensures
        set <= after_hits(set, acts, hits, tokens, scopes).0,
        forall|i: int| 0 <= i < hits.len() ==> after_hits(set, acts, hits, tokens, scopes).0.contains(#[trigger] hits[i].0),
    decreases hits.len(),
{
    if hits.len() > 0 {
        lemma_triggers_only_turn_on(set, acts, hits.drop_last(), tokens, scopes);
        assert forall|i: int| 0 <= i < hits.len() implies after_hits(set, acts, hits, tokens, scopes).0.contains(#[trigger] hits[i].0) by {
            if i < hits.len() - 1 {
                assert(hits.drop_last()[i] == hits[i]);
            }
        }
    }
}

/// A scope no entry of `scopes` is the scope of has no `forget` rule.
proof fn lemma_no_rule_without_a_file(scopes: Seq<ScopeEntry>, id: Seq<char>)
    requires
        forall|i: int| 0 <= i < scopes.len() ==> (#[trigger] scopes[i]).id@ != id,
    ensures
        crate::catalog::forget_rule_of(scopes, id) is None,
    decreases scopes.len(),
{
    if scopes.len() > 0 {
        assert forall|i: int| 0 <= i < scopes.skip(1).len() implies (#[trigger] scopes.skip(1)[i]).id@ != id by {
            assert(scopes.skip(1)[i] == scopes[i + 1]);
        }
        lemma_no_rule_without_a_file(scopes.skip(1), id);
    }
}

/// An event never takes a context out of `global`, its machine's or its
/// session's own scope: none of them has a file in the store, so no `forget`
/// rule reaches one, and triggers only turn scopes on.
pub proof fn lemma_an_event_keeps_the_implicit_scopes(
    before: ContextState,
    after: ContextState,
    plan: EventPlan,
    catalog: Catalog,
    tokens_now: Option<u64>,
    now: i64,
    named: SessionName,
    previous: Seq<PreviousText>,
    outcome: Outcome,
    id: Seq<char>,
)
    requires
        set_of(before.active@).contains(id),
        crate::scopes::scope_kind_of(id) != crate::scopes::ScopeKind::Defined,
        forall|i: int|
            0 <= i < catalog.scopes@.len() ==> crate::scopes::scope_kind_of(#[trigger] catalog.scopes@[i].id@)
                == crate::scopes::ScopeKind::Defined,
        applied(before, after, plan, catalog, tokens_now, now, named, previous, outcome),
    ensures
        set_of(after.active@).contains(id),
{
    let scopes = catalog.scopes@;
    assert forall|i: int| 0 <= i < scopes.len() implies (#[trigger] scopes[i]).id@ != id by {
        assert(crate::scopes::scope_kind_of(scopes[i].id@) == crate::scopes::ScopeKind::Defined);
    }
    lemma_no_rule_without_a_file(scopes, id);
    let kept = kept_on(before, plan, scopes, tokens_now);
    assert(kept.contains(id));
    lemma_triggers_only_turn_on(
        kept,
        acts_kept(before, plan, scopes, tokens_now),
        hits_for_texts(scopes, event_texts(plan, directory_after(before, plan)), plan.key.machine@),
        tokens_now,
        scopes,
    );
}

/// Whether `needs` is what a context in `state` is owed at `tokens`.
pub open spec fn owed_in(catalog: &Catalog, state: &ContextState, tokens: Option<u64>, previous: Seq<PreviousText>, needs: Needs) -> bool {
    &&& string_views(needs.new@) == owed_ids(catalog, state, tokens, previous, catalog.memories@, Owed::New)
    &&& string_views(needs.changed@) == owed_ids(catalog, state, tokens, previous, catalog.memories@, Owed::Changed)
    &&& string_views(needs.shrunk@) == owed_ids(catalog, state, tokens, previous, catalog.memories@, Owed::Shrunk)
    &&& string_views(needs.stale@) == owed_ids(catalog, state, tokens, previous, catalog.memories@, Owed::Stale)
    &&& retraction_pairs(needs) == retractions(catalog, state.active@, state.delivered@)
}

/// What the contexts page shows a context is owed. `Due` is what its next
/// event would carry, counted against what it holds as delivered; `All` is
/// everything its scopes hold, counted against nothing delivered, so every
/// critical memory in full and every knowledge memory as its description.
/// Both count staleness from the size the last event reported, and neither
/// changes the context.
pub fn prompt_needs(
    catalog: &Catalog,
    held: &ContextState,
    mode: crate::routes::PromptMode,
    previous: &Vec<PreviousText>,
) -> (needs: Needs)
    requires
        catalog.well_formed(),
        held.well_formed(),
    ensures
        mode == crate::routes::PromptMode::Due ==> owed_in(catalog, held, held.tokens, previous@, needs),
        mode == crate::routes::PromptMode::All ==> exists|nothing: ContextState| {
            &&& string_views(nothing.active@) == string_views(held.active@)
            &&& nothing.delivered@.len() == 0
            &&& #[trigger] owed_in(catalog, &nothing, held.tokens, Seq::empty(), needs)
        },
{
    match mode {
        crate::routes::PromptMode::Due => compute_needs(catalog, held, held.tokens, previous),
        crate::routes::PromptMode::All => {
            let active = crate::operations::copy_strings(&held.active);
            let nothing = ContextState::fresh(active, None, held.last_seen);
            let none: Vec<PreviousText> = Vec::new();
            let needs = compute_needs(catalog, &nothing, held.tokens, &none);
            assert(owed_in(catalog, &nothing, held.tokens, Seq::empty(), needs)) by {
                assert(none@ =~= Seq::<PreviousText>::empty());
            }
            needs
        },
    }
}

/// What the context an event reaches is made from, when the event is the
/// first thing seen of it: the spawner the event names, and what the store
/// wants a subagent to start with.
pub open spec fn creation_for(plan: EventPlan, settings: crate::catalog::Settings) -> crate::registry::Creation {
    crate::registry::Creation { inheritance: crate::registry::inheritance_for(settings), parent: plan.parent }
}

/// What the context an event reaches is made from.
pub fn creation_of(plan: &EventPlan, settings: &crate::catalog::Settings) -> (creation: crate::registry::Creation)
    ensures
        creation == creation_for(*plan, *settings),
{
    let parent = match &plan.parent {
        Some(k) => Some(k.duplicate()),
        None => None,
    };
    crate::registry::Creation::spawned_by(settings, parent)
}

/// The size an event's own context is counted at: the one the event
/// reported, except at a subagent start, whose size is its parent's and
/// counts nothing here.
pub open spec fn own_tokens(plan: EventPlan, tokens_now: Option<u64>) -> Option<u64> {
    if plan.tokens_are_the_parents {
        None
    } else {
        tokens_now
    }
}

/// One hook event's pass over the registry: the context the event acts on is
/// reached, made first if this is the first the server sees of it, and the
/// event brings it forward, counted at the context's own size. Every other
/// context is left as reaching it left it.
pub fn handle_event(
    registry: &mut crate::registry::ContextRegistry,
    plan: &EventPlan,
    catalog: &Catalog,
    tokens_now: Option<u64>,
    now: i64,
    named: &SessionName,
    previous: &Vec<PreviousText>,
) -> (outcome: Outcome)
    requires
        old(registry).well_formed(),
        catalog.well_formed(),
    ensures
        final(registry).well_formed(),
        final(registry).retention == old(registry).retention,
        final(registry).debounce_ms == old(registry).debounce_ms,
        crate::registry::holds_key(final(registry).contexts@, plan.key@),
        exists|reached: Seq<crate::registry::ContextRecord>| {
            &&& #[trigger] crate::registry::handled(
                old(registry).contexts@,
                reached,
                plan.key,
                now,
                creation_for(*plan, catalog.settings),
            )
            &&& crate::registry::holds_key(reached, plan.key@)
            &&& applied(
                crate::registry::state_of(reached, plan.key@).unwrap(),
                crate::registry::state_of(final(registry).contexts@, plan.key@).unwrap(),
                *plan,
                *catalog,
                own_tokens(*plan, tokens_now),
                now,
                *named,
                previous@,
                outcome,
            )
            &&& forall|k: KeyView| k != plan.key@ ==> #[trigger] crate::registry::state_of(final(registry).contexts@, k)
                == crate::registry::state_of(reached, k)
        },
{
    let creation = creation_of(plan, &catalog.settings);
    let at = registry.handle(&plan.key, now, &creation);
    let ghost reached = registry.contexts@;
    proof {
        crate::registry::lemma_state_at(reached, at as int);
    }
    let context_tokens = if plan.tokens_are_the_parents {
        None
    } else {
        tokens_now
    };
    let mut record = crate::registry::take_record(&mut registry.contexts, at);
    let ghost start = record.state;
    let outcome = apply(&mut record.state, plan, catalog, context_tokens, now, named, previous);
    let ghost finished = record.state;
    crate::registry::insert_record(&mut registry.contexts, record);
    proof {
        assert(crate::registry::state_of(reached, plan.key@) == Some(start));
        assert(crate::registry::state_of(registry.contexts@, plan.key@) == Some(finished));
        assert(crate::registry::holds_key(reached, plan.key@));
    }
    outcome
}

/// A tool call is held only when all of this holds: the event is one about to
/// run a tool, the store asks for calls to be held, the tool is not one the
/// store exempts, and a critical memory is new or changed for the context. So
/// a call to an exempt tool is never held, whatever is owed.
pub proof fn lemma_a_call_is_held_only_when_the_store_asks(plan: EventPlan, catalog: &Catalog, needs: Needs)
    ensures
        (plan.tool_name matches Some(n) && holds(catalog.settings.interrupt_exempt_tools@, n@)) ==> !denies(
            plan,
            catalog,
            needs,
        ),
        !catalog.settings.interrupt_on_critical ==> !denies(plan, catalog, needs),
        !plan.may_deny ==> !denies(plan, catalog, needs),
        denies(plan, catalog, needs) ==> (exists|i: int|
            0 <= i < needs.new@.len() && is_critical_in(catalog, #[trigger] needs.new@[i]@)) || (exists|i: int|
            0 <= i < needs.changed@.len() && is_critical_in(catalog, #[trigger] needs.changed@[i]@)),
{
}

} // verus!
