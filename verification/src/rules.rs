//! Rule lists and rule sets: named rules, their resolution, and their
//! shortest reference lengths.
use vstd::prelude::*;
use crate::fields::{Or, SOr, SItem, Convertible, empty_or, or_add, lemma_view_items};
use crate::generate::{
    has_rule, rule_options, rule_spec, expands, drawn, extends, same_shape, BuildError, ItemBuilder, Gen, Outcome,
};
use crate::random::Rand;
use crate::rulemap::RuleMap;
use crate::resolve::{
    fin, fin_seq, id_names, id_names_seq, view_names, RefFetcher, lemma_fin_names, lemma_fin_ready, linked, lemma_calc_linked,
    lemma_fin_linked, ok_with, map_names, lemma_fin_ok, lemma_ok_with_mono, lemma_ok_with_fin,
    lemma_plain_ok, lemma_fin_plain, drop_ids, lemma_fin_again, shape, lemma_shape_calc, lemma_shape_drop,
    lemma_fin_shape_again, lemma_shape_id_names, no_empty, lemma_shape_ok_with, lemma_shape_derivable,
    lemma_ok_derivable,
};
use crate::lengths::{
    or_choices, or_shortest, or_min,
    ready, ref_calc, known_len, derivable, RefLenCalculator, lemma_calc_ready, lemma_or_choices,
    lemma_known_derivable, lemma_calc_derivable, lemma_free_known, lemma_free_shortest,
    plain, lemma_plain_derivable, lemma_calc_plain, lengths_below, lemma_known_from,
};
use crate::rulemap::{lemma_lookup, name_bytes};
use crate::text::{bytes_less, lemma_bytes_less_total, lemma_bytes_less_trans};
use crate::laws::law_build_without_keep;
use crate::fields::{Item, lemma_item_small};

verus! {

/// The model of each rule of a list.
pub open spec fn view_ors(s: Seq<Or>) -> Seq<SOr> {
    Seq::new(s.len(), |i: int| s[i]@)
}

/// A scope of rules: each rule is an `Or` over its options. A scope may sit
/// inside a parent scope, whose rules it can also build from.
pub struct RuleList {
    pub parent: Option<Box<RuleList>>,
    pub rules: Vec<Or>,
}

impl View for RuleList {
    /// The rules of each scope, innermost scope first.
    type V = Seq<Seq<SOr>>;

    open spec fn view(&self) -> Seq<Seq<SOr>>
        decreases self,
    {
        seq![view_ors(self.rules@)] + match self.parent {
            Some(p) => (*p).view(),
            None => Seq::empty(),
        }
    }
}

/// A scope of `n` rules without options, each kept.
pub open spec fn fresh_scope(n: nat) -> Seq<SOr> {
    Seq::new(n, |i: int| empty_or(true))
}

impl RuleList {
    pub proof fn lemma_view_len(&self)
        ensures
            self@.len() >= 1,
            self@[0] == view_ors(self.rules@),
            self.parent is None ==> self@.len() == 1,
            self.parent matches Some(p) ==> self@.drop_first() == p@,
    {
        match self.parent {
            Some(p) => {
                assert(self@.drop_first() =~= p@);
            },
            None => {},
        }
    }

    /// An empty scope without parent.
    pub fn new() -> (r: RuleList)
        ensures
            r@ == seq![Seq::<SOr>::empty()],
            r.parent is None,
            r.rules@.len() == 0,
    {
        let r = RuleList { parent: None, rules: Vec::new() };
        assert(view_ors(r.rules@) =~= Seq::<SOr>::empty());
        assert(r@ =~= seq![Seq::<SOr>::empty()]);
        r
    }

    /// A scope inside `parent` holding, for each rule of `parent`, a kept rule
    /// without options.
    pub fn new_from_parent(parent: Option<RuleList>) -> (r: RuleList)
        ensures
            r@ == seq![fresh_scope(match parent { Some(p) => p.rules@.len(), None => 0 })]
                + match parent { Some(p) => p@, None => Seq::empty() },
    {
        let mut rules = RuleList::new();
        let n = match &parent {
            Some(p) => p.rules.len(),
            None => 0,
        };
        let mut i: usize = 0;
        assert(view_ors(rules.rules@) =~= fresh_scope(0));
        while i < n
            invariant
                i <= n,
                rules.parent is None,
                rules.rules@.len() == i,
                view_ors(rules.rules@) == fresh_scope(i as nat),
            decreases n - i,
        {
            rules.add_empty_rule(true);
            assert(view_ors(rules.rules@) =~= fresh_scope((i + 1) as nat));
            i += 1;
        }
        rules.parent = match parent {
            Some(p) => Some(Box::new(p)),
            None => None,
        };
        assert(rules@ =~= seq![fresh_scope(n as nat)] + match parent { Some(p) => p@, None => Seq::empty() });
        rules
    }

    /// The rules with index `rule_idx` that have an option, innermost scope
    /// first; `None` when some scope has no rule with that index.
    pub fn options_for(&self, rule_idx: usize) -> (r: Option<Vec<&Or>>)
        ensures
            r is None <==> !has_rule(self@, rule_idx),
            r matches Some(v) ==> v@.len() == rule_options(self@, rule_idx).len()
                && forall|j: int| 0 <= j < v@.len() ==> #[trigger] v@[j]@ == rule_options(self@, rule_idx)[j],
        decreases self,
    {
        proof { self.lemma_view_len(); }
        let mut v: Vec<&Or> = match &self.parent {
            Some(p) => match p.options_for(rule_idx) {
                Some(v) => v,
                None => {
                    proof {
                        let j = choose|j: int| 0 <= j < p@.len() && !(rule_idx < #[trigger] p@[j].len());
                        assert(self@[j + 1] == p@[j]);
                    }
                    return None;
                },
            },
            None => Vec::new(),
        };
        if rule_idx >= self.rules.len() {
            proof { assert(!(rule_idx < self@[0].len())); }
            return None;
        }
        let ghost tail = self@.drop_first();
        proof {

            assert(has_rule(self@, rule_idx)) by {
                assert forall|j: int| 0 <= j < self@.len() implies rule_idx < #[trigger] self@[j].len() by {
                    if j > 0 {
                        assert(self@[j] == tail[j - 1]);
                    }
                }
            }
            assert(v@.len() == rule_options(tail, rule_idx).len());
        }
        let ghost old_v = v@;
        if self.rules[rule_idx].choice_indices.len() > 0 {
            v.insert(0, &self.rules[rule_idx]);
            proof {
                assert(rule_options(self@, rule_idx) == seq![self@[0][rule_idx as int]] + rule_options(tail, rule_idx));
                assert forall|j: int| 0 <= j < v@.len() implies #[trigger] v@[j]@ == rule_options(self@, rule_idx)[j] by {
                    if j > 0 {
                        assert(v@[j] == old_v[j - 1]);
                    }
                }
            }
        } else {
            proof {
                assert(rule_options(self@, rule_idx) =~= rule_options(tail, rule_idx));
            }
        }
        Some(v)
    }

    /// Adds `rule_value` as a further option of rule `rule_idx`.
    pub fn add_rule<T: Convertible>(&mut self, rule_idx: usize, rule_value: T)
        requires
            rule_idx < old(self).rules@.len(),
        ensures
            view_ors(final(self).rules@) == view_ors(old(self).rules@).update(
                rule_idx as int,
                or_add(old(self).rules@[rule_idx as int]@, rule_value.converted()),
            ),
            final(self).parent == old(self).parent,
    {
        let ghost old_rules = self.rules@;
        self.rules[rule_idx].add_item(rule_value);
        assert(view_ors(self.rules@) =~= view_ors(old_rules).update(
            rule_idx as int,
            or_add(old_rules[rule_idx as int]@, rule_value.converted()),
        ));
    }

    /// The rule with index `rule_idx`.
    pub fn get_rule_or(&self, rule_idx: usize) -> (r: &Or)
        requires
            rule_idx < self.rules@.len(),
        ensures
            *r == self.rules@[rule_idx as int],
    {
        &self.rules[rule_idx]
    }

    /// Adds a rule without options and returns its index.
    pub fn add_empty_rule(&mut self, keep: bool) -> (r: usize)
        ensures
            r == old(self).rules@.len(),
            view_ors(final(self).rules@) == view_ors(old(self).rules@).push(empty_or(keep)),
            final(self).parent == old(self).parent,
    {
        let res = self.rules.len();
        if keep {
            self.rules.push(Or::new_keep());
        } else {
            self.rules.push(Or::new());
        }
        assert(view_ors(self.rules@) =~= view_ors(old(self).rules@).push(empty_or(keep)));
        res
    }
}

// ----------------------------------------------------------------------------
// Rule sets
// ----------------------------------------------------------------------------

/// Adds a rule named `rule_name` without options to `rules`, records it under
/// its name in both directions, and returns its index.
fn add_empty_rule_or(
    rules: &mut RuleList,
    rule_name: &str,
    rule_map: &mut RuleMap,
    rule_map_inv: &mut Vec<String>,
    keep: bool,
) -> (r: usize)
    requires
        old(rule_map).wf(),
    ensures
        r == old(rules).rules@.len(),
        view_ors(final(rules).rules@) == view_ors(old(rules).rules@).push(empty_or(keep)),
        final(rules).parent == old(rules).parent,
        final(rule_map).wf(),
        forall|k: Seq<char>| #[trigger] final(rule_map).get_spec(k) == if k == rule_name@ {
            Some(r)
        } else {
            old(rule_map).get_spec(k)
        },
        final(rule_map).entries().len() == old(rule_map).entries().len()
            + if old(rule_map).get_spec(rule_name@) is Some { 0int } else { 1int },
        final(rule_map_inv)@.len() == old(rule_map_inv)@.len() + 1,
        forall|i: int| 0 <= i < old(rule_map_inv)@.len() ==> #[trigger] final(rule_map_inv)@[i] == old(rule_map_inv)@[i],
        final(rule_map_inv)@.last()@ == rule_name@,
{
    let res = rules.add_empty_rule(keep);
    rule_map.insert(rule_name.to_string(), res);
    rule_map_inv.push(rule_name.to_string());
    res
}

/// A set of named rules: the names map to rule indices and back, and the
/// rules live in a scope of their own.
pub struct RuleSet {
    pub rule_map: RuleMap,
    pub rule_map_inv: Vec<String>,
    pub rules: RuleList,
}

/// The scopes a build of a rule set starts from: the rule set's own, or,
/// when the identifiers created are not kept, a fresh scope inside it.
pub open spec fn build_scopes(rules: Seq<Seq<SOr>>, keep: bool) -> Seq<Seq<SOr>> {
    if keep {
        rules
    } else {
        seq![fresh_scope(rules[0].len())] + rules
    }
}

/// What building rule `ref_idx` from `scopes` does with the random values
/// `draws`: the front part of the output starts as `pre`, no reference has
/// been expanded, and the shortest options are taken from `max_depth`
/// nested references on.
pub open spec fn build_outcome(
    scopes: Seq<Seq<SOr>>,
    ref_idx: usize,
    max_depth: nat,
    pre: Seq<u8>,
    draws: Seq<int>,
) -> Outcome {
    rule_spec(
        ref_idx,
        Gen { scopes, pre, out: Seq::empty(), draws, budget: usize::MAX as nat },
        0,
        max_depth,
        false,
    )
}

impl RuleSet {
    /// Every name maps to a rule that carries it, and each rule has a name.
    pub open spec fn wf(&self) -> bool {
        &&& self.rule_map.wf()
        &&& self.rule_map_inv@.len() == self.rules.rules@.len()
        &&& forall|k: Seq<char>| #[trigger] self.rule_map.get_spec(k) matches Some(i) ==> i < self.rules.rules@.len()
            && self.rule_map_inv@[i as int]@ == k
    }

    /// An empty rule set.
    pub fn new() -> (r: RuleSet)
        ensures
            r.wf(),
            r.rule_map.entries().len() == 0,
            r.rules@ == seq![Seq::<SOr>::empty()],
            r.rules.rules@.len() == 0,
    {
        RuleSet { rule_map: RuleMap::new(), rule_map_inv: Vec::new(), rules: RuleList::new() }
    }

    /// Adds `rule_value` as a further option of the rule named `rule_name`,
    /// which is created, without options, if there is none.
    pub fn add_rule<T: Convertible>(&mut self, rule_name: &str, rule_value: T) -> (r: &mut Self)
        requires
            old(self).wf(),
        ensures
            *final(self) == *final(r),
            r.wf(),
            r.rules.parent == old(self).rules.parent,
            ({
                let i = match old(self).rule_map.get_spec(rule_name@) {
                    Some(i) => i,
                    None => old(self).rules.rules@.len() as usize,
                };
                let before = if old(self).rule_map.get_spec(rule_name@) is Some {
                    view_ors(old(self).rules.rules@)
                } else {
                    view_ors(old(self).rules.rules@).push(empty_or(false))
                };
                &&& r.rule_map.get_spec(rule_name@) == Some(i)
                &&& view_ors(r.rules.rules@) == before.update(i as int, or_add(before[i as int], rule_value.converted()))
            }),
            forall|k: Seq<char>| k != rule_name@ ==> #[trigger] r.rule_map.get_spec(k) == old(self).rule_map.get_spec(k),
            r.rule_map_inv@.len() >= old(self).rule_map_inv@.len(),
            forall|i: int| 0 <= i < old(self).rule_map_inv@.len() ==> #[trigger] r.rule_map_inv@[i] == old(self).rule_map_inv@[i],
    {
        let ghost old_self = *self;
        let rule_idx = match self.rule_map.get(rule_name) {
            None => {
                let i = add_empty_rule_or(&mut self.rules, rule_name, &mut self.rule_map, &mut self.rule_map_inv, false);
                proof {
                    assert(view_ors(self.rules.rules@).len() == self.rules.rules@.len());
                    assert(view_ors(old_self.rules.rules@).len() == old_self.rules.rules@.len());
                }
                i
            },
            Some(v) => {
                proof {
                    assert(self.rule_map.get_spec(rule_name@) matches Some(j) ==> j < self.rules.rules@.len());
                }
                v
            },
        };
        let ghost mid = *self;
        self.rules.add_rule(rule_idx, rule_value);
        proof {
            assert(view_ors(self.rules.rules@).len() == self.rules.rules@.len());
            assert(view_ors(mid.rules.rules@).len() == mid.rules.rules@.len());
            assert(self.rules.rules@.len() == mid.rules.rules@.len());
            assert(mid.rule_map_inv@.len() == mid.rules.rules@.len());
            assert(mid.rule_map.get_spec(rule_name@) == Some(rule_idx));
            assert(mid.rule_map_inv@[rule_idx as int]@ == rule_name@);
            assert forall|k: Seq<char>| #[trigger] self.rule_map.get_spec(k) is Some implies self.rule_map.get_spec(k)->0 < self.rules.rules@.len()
                && self.rule_map_inv@[self.rule_map.get_spec(k)->0 as int]@ == k by {
                if k != rule_name@ {
                    assert(self.rule_map.get_spec(k) == old_self.rule_map.get_spec(k));
                    assert(mid.rule_map_inv@[self.rule_map.get_spec(k)->0 as int] == old_self.rule_map_inv@[self.rule_map.get_spec(k)->0 as int]);
                    assert(old_self.rule_map.get_spec(k) matches Some(j) ==> j < old_self.rules.rules@.len()
                        && old_self.rule_map_inv@[j as int]@ == k);
                }
            }
        }
        self
    }

    /// The index of the rule named `rule_name`, if there is one.
    pub fn get_ref_idx(&self, rule_name: &str) -> (r: Option<usize>)
        requires
            self.wf(),
        ensures
            r == self.rule_map.get_spec(rule_name@),
    {
        self.rule_map.get(rule_name)
    }

    /// Builds the rule with index `ref_idx`, appending what it writes to
    /// `output` (the front part first), drawing from `rand`, and taking the
    /// shortest options from `max_recursion` nested references on. The
    /// identifiers created are kept in the rule set when `keep` holds.
    pub fn build_rule(
        &mut self,
        ref_idx: usize,
        output: &mut Vec<u8>,
        rand: &mut Rand,
        max_recursion: usize,
        keep: bool,
    ) -> (r: Result<(), BuildError>)
        requires
            has_rule(old(self).rules@, ref_idx),
            rule_options(old(self).rules@, ref_idx).len() > 0,
        ensures
            extends(old(rand).history(), final(rand).history()),
            ({
                let o = build_outcome(
                    build_scopes(old(self).rules@, keep),
                    ref_idx,
                    max_recursion as nat,
                    old(output)@,
                    drawn(old(rand).history(), final(rand).history()),
                );
                &&& o.ok == r
                &&& o.state.draws.len() == 0
                &&& final(output)@ == o.state.pre + o.state.out
                &&& final(self).rules@ == if keep { o.state.scopes } else { o.state.scopes.drop_first() }
            }),
            !keep ==> final(self).rules@ == old(self).rules@,
            final(self).rule_map == old(self).rule_map,
            final(self).rule_map_inv == old(self).rule_map_inv,
    {
        proof {
            self.rules.lemma_view_len();
            law_build_without_keep(self.rules@, ref_idx, max_recursion as nat, output@, drawn(rand.history(), final(rand).history()));
        }
        let ghost scopes0 = build_scopes(self.rules@, keep);
        let ghost h0 = rand.history();
        let ghost pre0 = output@;
        let mut rules = RuleList::new();
        std::mem::swap(&mut rules, &mut self.rules);
        let build_rules = if keep {
            rules
        } else {
            RuleList::new_from_parent(Some(rules))
        };
        let mut builder = ItemBuilder::new(build_rules, max_recursion);
        let ghost b0 = builder;
        assert(builder.rules@ == scopes0);
        let mut tmp_output: Vec<u8> = Vec::new();
        proof {
            if !keep {
                let sc = build_scopes(old(self).rules@, keep);
                assert(sc.drop_first() =~= old(self).rules@);
                assert(old(self).rules@.len() > 0);
                assert(ref_idx < old(self).rules@[0].len());
                assert(has_rule(sc, ref_idx)) by {
                    assert forall|j: int| 0 <= j < sc.len() implies ref_idx < #[trigger] sc[j].len() by {
                        if j > 0 {
                            assert(sc[j] == old(self).rules@[j - 1]);
                        }
                    }
                }
                assert(rule_options(sc, ref_idx) =~= rule_options(old(self).rules@, ref_idx));
            }
        }
        let r = builder.build_rule(ref_idx, output, &mut tmp_output, rand, false);
        let ghost b1 = builder;
        let ghost h1 = rand.history();
        proof {
            assert(expands(ref_idx, false, b0, b1, pre0, output@, Seq::<u8>::empty(), tmp_output@, h0, h1, r));
            let rest = Seq::<int>::empty();
            assert(drawn(h0, h1) + rest =~= drawn(h0, h1));
            assert(rule_spec(ref_idx, b0.state(pre0, Seq::<u8>::empty(), drawn(h0, h1) + rest), 0, max_recursion as nat, false)
                == (Outcome { state: b1.state(output@, tmp_output@, rest), ok: r }));
            builder.rules.lemma_view_len();
        }
        builder.direct_build(&tmp_output, output);
        if keep {
            self.rules = builder.rules;
        } else {
            proof {
                assert(same_shape(b1.rules@, b0.rules@));
                assert(b0.rules@.len() >= 2);
            }
            match builder.rules.parent {
                Some(p) => {
                    self.rules = *p;
                },
                None => {
                    proof { assert(false); }
                },
            }
        }
        r
    }

    /// Builds the rule named `rule_name` as `build_rule` does.
    pub fn build_rule_slow(
        &mut self,
        rule_name: &str,
        output: &mut Vec<u8>,
        rand: &mut Rand,
        max_recursion: usize,
        keep: bool,
    ) -> (r: Result<(), BuildError>)
        requires
            old(self).wf(),
            old(self).rule_map.get_spec(rule_name@) is Some,
            has_rule(old(self).rules@, old(self).rule_map.get_spec(rule_name@)->0),
            rule_options(old(self).rules@, old(self).rule_map.get_spec(rule_name@)->0).len() > 0,
        ensures
            extends(old(rand).history(), final(rand).history()),
            ({
                let o = build_outcome(
                    build_scopes(old(self).rules@, keep),
                    old(self).rule_map.get_spec(rule_name@)->0,
                    max_recursion as nat,
                    old(output)@,
                    drawn(old(rand).history(), final(rand).history()),
                );
                &&& o.ok == r
                &&& o.state.draws.len() == 0
                &&& final(output)@ == o.state.pre + o.state.out
                &&& final(self).rules@ == if keep { o.state.scopes } else { o.state.scopes.drop_first() }
            }),
            final(self).rule_map == old(self).rule_map,
            final(self).rule_map_inv == old(self).rule_map_inv,
    {
        let ref_idx = match self.get_ref_idx(rule_name) {
            Some(v) => v,
            None => {
                return Err(BuildError::Malformed);
            },
        };
        self.build_rule(ref_idx, output, rand, max_recursion, keep)
    }
}

// ----------------------------------------------------------------------------
// Names met while resolving
// ----------------------------------------------------------------------------

/// The identifier names of all rules, in order.
pub open spec fn all_names(rules: Seq<SOr>) -> Seq<Seq<char>>
    decreases rules.len(),
{
    if rules.len() == 0 {
        Seq::empty()
    } else {
        all_names(rules.drop_last()) + id_names(SItem::Or(rules.last()))
    }
}

/// Replacing a rule by one with the same identifier names keeps all names.
pub proof fn lemma_all_names_update(rules: Seq<SOr>, i: int, o: SOr)
    requires
        0 <= i < rules.len(),
        id_names(SItem::Or(o)) == id_names(SItem::Or(rules[i])),
    ensures
        all_names(rules.update(i, o)) == all_names(rules),
    decreases rules.len(),
{
    let r1 = rules.update(i, o);
    if i == rules.len() - 1 {
        assert(r1.drop_last() =~= rules.drop_last());
    } else {
        assert(r1.drop_last() =~= rules.drop_last().update(i, o));
        lemma_all_names_update(rules.drop_last(), i, o);
    }
}

/// A rule without options adds no name.
pub proof fn lemma_all_names_push_empty(rules: Seq<SOr>, keep: bool)
    ensures
        all_names(rules.push(empty_or(keep))) == all_names(rules),
{
    assert(rules.push(empty_or(keep)).drop_last() =~= rules);
    assert(id_names_seq(Seq::<SItem>::empty()) =~= Seq::<Seq<char>>::empty());
    assert(all_names(rules.push(empty_or(keep))) =~= all_names(rules));
}

/// The names of each rule are among all names.
pub proof fn lemma_all_names_contains(rules: Seq<SOr>, i: int, n: Seq<char>)
    requires
        0 <= i < rules.len(),
        id_names(SItem::Or(rules[i])).contains(n),
    ensures
        all_names(rules).contains(n),
    decreases rules.len(),
{
    let a = all_names(rules.drop_last());
    let b = id_names(SItem::Or(rules.last()));
    if i == rules.len() - 1 {
        let t = choose|t: int| 0 <= t < b.len() && b[t] == n;
        assert((a + b)[a.len() + t] == n);
    } else {
        assert(rules.drop_last()[i] == rules[i]);
        lemma_all_names_contains(rules.drop_last(), i, n);
        let t = choose|t: int| 0 <= t < a.len() && a[t] == n;
        assert((a + b)[t] == n);
    }
}

/// The names of `u` that have no rule and were not pruned.
pub open spec fn missing_names(u: Set<Seq<char>>, map: RuleMap, pruned: Seq<Seq<char>>) -> Set<Seq<char>> {
    u.filter(|n: Seq<char>| map.get_spec(n) is None && !pruned.contains(n))
}

/// Giving a missing name a rule makes one name fewer missing; giving a name
/// that has one another changes nothing.
pub proof fn lemma_missing_insert(u: Set<Seq<char>>, m0: RuleMap, m1: RuleMap, pruned: Seq<Seq<char>>, name: Seq<char>)
    requires
        u.finite(),
        u.contains(name),
        !pruned.contains(name),
        m1.get_spec(name) is Some,
        forall|k: Seq<char>| k != name ==> #[trigger] m1.get_spec(k) == m0.get_spec(k),
    ensures
        missing_names(u, m1, pruned).finite(),
        m0.get_spec(name) is None ==> missing_names(u, m1, pruned).len() + 1 == missing_names(u, m0, pruned).len(),
        m0.get_spec(name) is Some ==> missing_names(u, m1, pruned) == missing_names(u, m0, pruned),
{
    let f0 = |n: Seq<char>| m0.get_spec(n) is None && !pruned.contains(n);
    let f1 = |n: Seq<char>| m1.get_spec(n) is None && !pruned.contains(n);
    u.lemma_len_filter(f0);
    u.lemma_len_filter(f1);
    if m0.get_spec(name) is None {
        assert(missing_names(u, m1, pruned) =~= missing_names(u, m0, pruned).remove(name));
    } else {
        assert(missing_names(u, m1, pruned) =~= missing_names(u, m0, pruned));
    }
}

pub proof fn lemma_push_contains<A>(s: Seq<A>, x: A, n: A)
    ensures
        s.push(x).contains(n) == (s.contains(n) || n == x),
{
    if s.push(x).contains(n) {
        let t = choose|t: int| 0 <= t < s.push(x).len() && s.push(x)[t] == n;
        if t < s.len() {
            assert(s[t] == n);
        }
    }
    if s.contains(n) {
        let t = choose|t: int| 0 <= t < s.len() && s[t] == n;
        assert(s.push(x)[t] == n);
    }
    if n == x {
        assert(s.push(x)[s.len() as int] == n);
    }
}

/// Pruning a name that has a rule leaves the missing names as they are.
pub proof fn lemma_missing_prune(u: Set<Seq<char>>, m0: RuleMap, m1: RuleMap, pruned: Seq<Seq<char>>, name: Seq<char>)
    requires
        m0.get_spec(name) is Some,
        forall|k: Seq<char>| #[trigger] m1.get_spec(k) == if k == name { None } else { m0.get_spec(k) },
    ensures
        missing_names(u, m1, pruned.push(name)) == missing_names(u, m0, pruned),
{
    assert forall|n: Seq<char>| missing_names(u, m1, pruned.push(name)).contains(n) == missing_names(u, m0, pruned).contains(n) by {
        assert(m1.get_spec(n) == if n == name { None } else { m0.get_spec(n) });
        lemma_push_contains(pruned, name, n);
    }
    assert(missing_names(u, m1, pruned.push(name)) =~= missing_names(u, m0, pruned));
}

/// `name` is one of the names in `v`.
fn string_in(v: &Vec<String>, name: &String) -> (r: bool)
    ensures
        r == view_names(v@).contains(name@),
{
    let mut i: usize = 0;
    while i < v.len()
        invariant
            i <= v@.len(),
            forall|j: int| 0 <= j < i ==> v@[j]@ != name@,
        decreases v.len() - i,
    {
        if v[i] == *name {
            assert(view_names(v@)[i as int] == name@);
            return true;
        }
        i += 1;
    }
    proof {
        if view_names(v@).contains(name@) {
            let j = choose|j: int| 0 <= j < view_names(v@).len() && view_names(v@)[j] == name@;
            assert(v@[j]@ == name@);
        }
    }
    false
}

/// `(idx, name)` is one of the pairs in `v`.
fn pair_in(v: &Vec<(usize, String)>, idx: usize, name: &String) -> (r: bool)
    ensures
        r == exists|j: int| 0 <= j < v@.len() && v@[j].0 == idx && v@[j].1@ == name@,
{
    let mut i: usize = 0;
    while i < v.len()
        invariant
            i <= v@.len(),
            forall|j: int| 0 <= j < i ==> !(v@[j].0 == idx && v@[j].1@ == name@),
        decreases v.len() - i,
    {
        if v[i].0 == idx && v[i].1 == *name {
            return true;
        }
        i += 1;
    }
    false
}

/// Each rule of `rules` whose name has an index is `base` resolved against
/// `map`: it is linked to the rules of `map` and ready for computing
/// lengths.
pub open spec fn settled(rules: Seq<Or>, base: Seq<SOr>, inv: Seq<String>, map: RuleMap) -> bool {
    &&& base.len() == rules.len()
    &&& forall|j: int| 0 <= j < rules.len() && (#[trigger] map.get_spec(inv[j]@)) is Some ==> {
        &&& SItem::Or(rules[j]@) == fin(SItem::Or(base[j]), map.entries()).item
        &&& ready(SItem::Or(rules[j]@))
        &&& linked(SItem::Or(rules[j]@), map.entries())
    }
}

/// Every rule whose name is in `s` is kept or can be built from the rules
/// named in `s`.
pub open spec fn self_sufficient(rules: Seq<Or>, inv: Seq<String>, s: Set<Seq<char>>) -> bool {
    forall|j: int| 0 <= j < rules.len() && s.contains(#[trigger] inv[j]@) ==> rules[j].keep || ok_with(SItem::Or(rules[j]@), s)
}

/// Some rule among `rules` carries the name `k`, is not kept, and cannot
/// be built against `map` once resolved.
pub open spec fn unbuildable(rules: Seq<Or>, inv: Seq<String>, map: RuleMap, k: Seq<char>) -> bool {
    exists|j: int| 0 <= j < rules.len() && #[trigger] inv[j]@ == k
        && !fin(SItem::Or(rules[j]@), map.entries()).ok && !rules[j].keep
}

/// Each rule of `base` whose name has an index can be built against `map`
/// once resolved, unless it is kept.
pub open spec fn buildable(base: Seq<SOr>, inv: Seq<String>, map: RuleMap) -> bool {
    forall|j: int| 0 <= j < base.len() && (#[trigger] map.get_spec(inv[j]@)) is Some
        ==> fin(SItem::Or(base[j]), map.entries()).ok || base[j].keep
}

/// Resolving a kept choice without options leaves it as it is.
pub proof fn lemma_fin_empty_or(map: Seq<(Seq<char>, usize)>)
    ensures
        fin(SItem::Or(empty_or(true)), map).item == SItem::Or(empty_or(true)),
{
    let f = fin_seq(Seq::<SItem>::empty(), map);
    assert(f.items =~= Seq::<SItem>::empty());
    assert(f.oks =~= Seq::<usize>::empty());
}

/// Rules of the same shapes carry the same identifier names.
pub proof fn lemma_all_names_shape(r1: Seq<SOr>, r2: Seq<SOr>)
    requires
        r1.len() == r2.len(),
        forall|j: int| 0 <= j < r1.len() ==> #[trigger] shape(SItem::Or(r1[j])) == shape(SItem::Or(r2[j])),
    ensures
        all_names(r1) == all_names(r2),
    decreases r1.len(),
{
    if r1.len() > 0 {
        let d1 = r1.drop_last();
        let d2 = r2.drop_last();
        assert forall|j: int| 0 <= j < d1.len() implies #[trigger] shape(SItem::Or(d1[j])) == shape(SItem::Or(d2[j])) by {
            assert(d1[j] == r1[j]);
            assert(d2[j] == r2[j]);
        }
        lemma_all_names_shape(d1, d2);
        assert(shape(SItem::Or(r1[r1.len() - 1])) == shape(SItem::Or(r2[r2.len() - 1])));
        lemma_shape_id_names(SItem::Or(r1.last()), SItem::Or(r2.last()));
    }
}

/// The names that `map` lacks among those of `map0` and those carried by the
/// rules from index `len0` on.
pub open spec fn dropped_names(map0: RuleMap, inv: Seq<String>, len0: int, map: RuleMap) -> Set<Seq<char>> {
    Set::new(|k: Seq<char>| (map0.get_spec(k) is Some || exists|j: int| len0 <= j < inv.len() && #[trigger] inv[j]@ == k)
        && map.get_spec(k) is None)
}

/// Rule `i` carries the name `k`, which was the name of rule `i` in `map0`
/// if `i` is one of the first `len0` rules, and some rule that is not kept
/// carries the name `k` too.
pub open spec fn dropped_name(rules: Seq<Or>, inv: Seq<String>, map0: RuleMap, len0: int, k: Seq<char>, i: int) -> bool {
    &&& 0 <= i < rules.len()
    &&& i < inv.len()
    &&& inv[i]@ == k
    &&& (i < len0 ==> map0.get_spec(k) == Some(i as usize))
    &&& exists|j: int| 0 <= j < rules.len() && j < inv.len() && #[trigger] inv[j]@ == k && !rules[j].keep
}

pub proof fn lemma_dropped_extend(
    r0: Seq<Or>, inv0: Seq<String>, r1: Seq<Or>, inv1: Seq<String>, map0: RuleMap, len0: int, k: Seq<char>, i: int,
)
    requires
        dropped_name(r0, inv0, map0, len0, k, i),
        r0.len() <= r1.len(),
        inv0.len() <= inv1.len(),
        forall|j: int| 0 <= j < r0.len() ==> #[trigger] r1[j].keep == r0[j].keep,
        forall|j: int| 0 <= j < inv0.len() ==> #[trigger] inv1[j] == inv0[j],
    ensures
        dropped_name(r1, inv1, map0, len0, k, i),
{
    let j = choose|j: int| 0 <= j < r0.len() && j < inv0.len() && #[trigger] inv0[j]@ == k && !r0[j].keep;
    assert(inv1[j] == inv0[j]);
    assert(r1[j].keep == r0[j].keep);
    assert(inv1[i] == inv0[i]);
}

impl RuleSet {
    /// Resolves every rule whose name has an index against the map, and
    /// returns the missing identifier rules that were not pruned, each with
    /// the rule that needs it, and the names of the rules that can no longer
    /// be built.
    fn finalize_pass(&mut self, pruned: &Vec<String>, Ghost(u): Ghost<Set<Seq<char>>>) -> (r: (Vec<(usize, String)>, Vec<String>))
        requires
            old(self).wf(),
            all_names(view_ors(old(self).rules.rules@)).to_set() == u,
        ensures
            final(self).rule_map == old(self).rule_map,
            final(self).rule_map_inv == old(self).rule_map_inv,
            final(self).rules.parent == old(self).rules.parent,
            final(self).rules.rules@.len() == old(self).rules.rules@.len(),
            final(self).wf(),
            all_names(view_ors(final(self).rules.rules@)).to_set() == u,
            forall|j: int| 0 <= j < old(self).rules.rules@.len() ==> #[trigger] final(self).rules.rules@[j].keep == old(self).rules.rules@[j].keep,
            settled(final(self).rules.rules@, view_ors(old(self).rules.rules@), old(self).rule_map_inv@, old(self).rule_map),
            forall|j: int| 0 <= j < old(self).rules.rules@.len() && (#[trigger] old(self).rule_map.get_spec(old(self).rule_map_inv@[j]@)) is None
                ==> final(self).rules.rules@[j] == old(self).rules.rules@[j],
            forall|t: int| 0 <= t < r.0@.len() ==> u.contains(#[trigger] r.0@[t].1@)
                && old(self).rule_map.get_spec(r.0@[t].1@) is None && !view_names(pruned@).contains(r.0@[t].1@),
            r.0@.len() == 0 ==> forall|j: int, x: Seq<char>| 0 <= j < old(self).rules.rules@.len()
                && old(self).rule_map.get_spec(old(self).rule_map_inv@[j]@) is Some
                && #[trigger] fin(SItem::Or(old(self).rules.rules@[j]@), old(self).rule_map.entries()).new_rules.contains(x)
                ==> view_names(pruned@).contains(x),
            forall|t: int| 0 <= t < r.1@.len() ==> (#[trigger] old(self).rule_map.get_spec(r.1@[t]@)) is Some,
            forall|a: int, b: int| 0 <= a < b < r.1@.len() ==> r.1@[a]@ != r.1@[b]@,
            r.1@.len() == 0 ==> forall|j: int| 0 <= j < old(self).rules.rules@.len()
                && (#[trigger] old(self).rule_map.get_spec(old(self).rule_map_inv@[j]@)) is Some
                ==> fin(SItem::Or(old(self).rules.rules@[j]@), old(self).rule_map.entries()).ok || old(self).rules.rules@[j].keep,
            forall|t: int| 0 <= t < r.1@.len() ==> unbuildable(old(self).rules.rules@, old(self).rule_map_inv@, old(self).rule_map, #[trigger] r.1@[t]@),
            forall|j: int, names: Set<Seq<char>>| 0 <= j < old(self).rules.rules@.len()
                ==> #[trigger] ok_with(SItem::Or(final(self).rules.rules@[j]@), names) == ok_with(SItem::Or(old(self).rules.rules@[j]@), names),
    {
        let ghost r0 = self.rules.rules@;
        let ghost m = self.rule_map;
        let ghost inv = self.rule_map_inv@;
        let ghost p = view_names(pruned@);
        let n = self.rules.rules.len();
        let mut new_rules: Vec<(usize, String)> = Vec::new();
        let mut to_prune: Vec<String> = Vec::new();
        let mut rule_idx: usize = 0;
        while rule_idx < n
            invariant
                rule_idx <= n,
                n == self.rules.rules@.len(),
                n == r0.len(),
                r0 == old(self).rules.rules@,
                m == old(self).rule_map,
                inv == old(self).rule_map_inv@,
                p == view_names(pruned@),
                self.rule_map == m,
                self.rule_map_inv == old(self).rule_map_inv,
                self.rules.parent == old(self).rules.parent,
                old(self).wf(),
                all_names(view_ors(self.rules.rules@)).to_set() == u,
                forall|j: int| rule_idx <= j < n ==> #[trigger] self.rules.rules@[j] == r0[j],
                forall|j: int| 0 <= j < n ==> #[trigger] self.rules.rules@[j].keep == r0[j].keep,
                forall|j: int| 0 <= j < rule_idx && (#[trigger] m.get_spec(inv[j]@)) is Some ==> {
                    &&& SItem::Or(self.rules.rules@[j]@) == fin(SItem::Or(r0[j]@), m.entries()).item
                    &&& ready(SItem::Or(self.rules.rules@[j]@))
                    &&& linked(SItem::Or(self.rules.rules@[j]@), m.entries())
                },
                forall|j: int| 0 <= j < rule_idx && (#[trigger] m.get_spec(inv[j]@)) is None ==> self.rules.rules@[j] == r0[j],
                forall|t: int| 0 <= t < new_rules@.len() ==> u.contains(#[trigger] new_rules@[t].1@)
                    && m.get_spec(new_rules@[t].1@) is None && !p.contains(new_rules@[t].1@),
                new_rules@.len() == 0 ==> forall|j: int, x: Seq<char>| 0 <= j < rule_idx && m.get_spec(inv[j]@) is Some
                    && #[trigger] fin(SItem::Or(r0[j]@), m.entries()).new_rules.contains(x) ==> p.contains(x),
                forall|t: int| 0 <= t < to_prune@.len() ==> (#[trigger] m.get_spec(to_prune@[t]@)) is Some,
                forall|a: int, b: int| 0 <= a < b < to_prune@.len() ==> to_prune@[a]@ != to_prune@[b]@,
                to_prune@.len() == 0 ==> forall|j: int| 0 <= j < rule_idx && (#[trigger] m.get_spec(inv[j]@)) is Some
                    ==> fin(SItem::Or(r0[j]@), m.entries()).ok || r0[j].keep,
                forall|t: int| 0 <= t < to_prune@.len() ==> unbuildable(r0.take(rule_idx as int), inv, m, #[trigger] to_prune@[t]@),
                forall|j: int, names: Set<Seq<char>>| 0 <= j < n
                    ==> #[trigger] ok_with(SItem::Or(self.rules.rules@[j]@), names) == ok_with(SItem::Or(r0[j]@), names),
            decreases n - rule_idx,
        {
            let is_mapped = self.rule_map.contains_key(self.rule_map_inv[rule_idx].as_str());
            if is_mapped {
                let ghost before = self.rules.rules@;
                let ghost o0 = r0[rule_idx as int]@;
                let mut fetcher = RefFetcher::new(&self.rule_map);
                let res = self.rules.rules[rule_idx].finalize(&mut fetcher);
                let ghost f = fin(SItem::Or(o0), m.entries());
                proof {
                    assert(before[rule_idx as int] == r0[rule_idx as int]);
                    lemma_fin_names(SItem::Or(o0), m.entries());
                    lemma_item_small(Item::Or(r0[rule_idx as int]));
                    lemma_fin_ready(SItem::Or(o0), m.entries());
                    lemma_fin_linked(SItem::Or(o0), m.entries());
                    assert forall|names: Set<Seq<char>>| #[trigger] ok_with(SItem::Or(self.rules.rules@[rule_idx as int]@), names)
                        == ok_with(SItem::Or(r0[rule_idx as int]@), names) by {
                        lemma_ok_with_fin(SItem::Or(o0), m.entries(), names);
                    }
                    assert(view_ors(self.rules.rules@) =~= view_ors(before).update(rule_idx as int, self.rules.rules@[rule_idx as int]@));
                    lemma_all_names_update(view_ors(before), rule_idx as int, self.rules.rules@[rule_idx as int]@);
                    assert(view_names(fetcher.new_rules@) == f.new_rules);
                    assert forall|x: Seq<char>| #[trigger] f.new_rules.contains(x) implies u.contains(x) && m.get_spec(x) is None by {
                        assert(view_ors(before)[rule_idx as int] == o0);
                        lemma_all_names_contains(view_ors(before), rule_idx as int, x);
                    }
                }
                let ghost nr_before = new_rules@;
                let mut t: usize = 0;
                while t < fetcher.new_rules.len()
                    invariant
                        t <= fetcher.new_rules@.len(),
                        view_names(fetcher.new_rules@) == f.new_rules,
                        p == view_names(pruned@),
                        forall|n: Seq<char>| #[trigger] f.new_rules.contains(n) ==> u.contains(n) && m.get_spec(n) is None,
                        forall|s: int| 0 <= s < new_rules@.len() ==> u.contains(#[trigger] new_rules@[s].1@)
                            && m.get_spec(new_rules@[s].1@) is None && !p.contains(new_rules@[s].1@),
                        new_rules@.len() >= nr_before.len(),
                        new_rules@.len() == 0 ==> forall|s: int| 0 <= s < t ==> p.contains(#[trigger] f.new_rules[s]),
                    decreases fetcher.new_rules@.len() - t,
                {
                    let in_pruned = string_in(pruned, &fetcher.new_rules[t]);
                    let in_new = pair_in(&new_rules, rule_idx, &fetcher.new_rules[t]);
                    proof {
                        assert(f.new_rules[t as int] == fetcher.new_rules@[t as int]@);
                        assert(f.new_rules.contains(f.new_rules[t as int]));
                    }
                    if !in_pruned && !in_new {
                        let name = fetcher.new_rules[t].clone();
                        new_rules.push((rule_idx, name));
                    }
                    t += 1;
                }
                proof {
                    if new_rules@.len() == 0 {
                        assert forall|x: Seq<char>| #[trigger] f.new_rules.contains(x) implies p.contains(x) by {
                            let s = choose|s: int| 0 <= s < f.new_rules.len() && f.new_rules[s] == x;
                            assert(p.contains(f.new_rules[s]));
                        }
                    }
                }
                let keep = self.rules.rules[rule_idx].keep;
                if !res && !keep {
                    let name = self.rule_map_inv[rule_idx].clone();
                    let present = string_in(&to_prune, &name);
                    if !present {
                        let ghost tp = to_prune@;
                        to_prune.push(name);
                        proof {
                            assert forall|t: int| 0 <= t < to_prune@.len() implies unbuildable(r0.take(rule_idx + 1), inv, m, #[trigger] to_prune@[t]@) by {
                                if t == tp.len() {
                                    assert(r0.take(rule_idx + 1)[rule_idx as int] == r0[rule_idx as int]);
                                    assert(inv[rule_idx as int]@ == to_prune@[t]@);
                                } else {
                                    assert(to_prune@[t] == tp[t]);
                                    assert(unbuildable(r0.take(rule_idx as int), inv, m, tp[t]@));
                                    let j = choose|j: int| 0 <= j < r0.take(rule_idx as int).len() && #[trigger] inv[j]@ == tp[t]@
                                        && !fin(SItem::Or(r0.take(rule_idx as int)[j]@), m.entries()).ok && !r0.take(rule_idx as int)[j].keep;
                                    assert(r0.take(rule_idx + 1)[j] == r0[j]);
                                }
                            }
                            assert forall|a: int, b: int| 0 <= a < b < to_prune@.len() implies to_prune@[a]@ != to_prune@[b]@ by {
                                if b == tp.len() {
                                    assert(view_names(tp)[a] == tp[a]@);
                                }
                            }
                        }
                    }
                }
            }
            rule_idx += 1;
        }
        proof {
            assert forall|j: int| 0 <= j < n && (#[trigger] m.get_spec(inv[j]@)) is Some implies {
                &&& SItem::Or(self.rules.rules@[j]@) == fin(SItem::Or(view_ors(r0)[j]), m.entries()).item
                &&& ready(SItem::Or(self.rules.rules@[j]@))
                &&& linked(SItem::Or(self.rules.rules@[j]@), m.entries())
            } by {
                assert(view_ors(r0)[j] == r0[j]@);
            }
        }
        (new_rules, to_prune)
    }
}

impl RuleSet {
    /// Resolves every rule against the names until nothing changes: the
    /// identifier rules that are missing are added as kept rules without
    /// options, and the names of the rules that can no longer be built are
    /// removed; a name removed is not added again. Returns how many names
    /// were removed. Each added rule is named after the target of an
    /// identifier that the rules hold. Each rule that keeps its own name is
    /// its original resolved against the final names, but for the marker
    /// positions of definitions, which each pass records once more. When no
    /// name was removed, resolving any rule that has a name once more asks
    /// for no new rule.
    #[verifier::rlimit(60)]
    pub fn resolve_reachability(&mut self) -> (r: usize)
        requires
            old(self).wf(),
        ensures
            final(self).wf(),
            exists|base: Seq<SOr>| #![auto] settled(final(self).rules.rules@, base, final(self).rule_map_inv@, final(self).rule_map)
                && buildable(base, final(self).rule_map_inv@, final(self).rule_map),
            final(self).rules.parent == old(self).rules.parent,
            final(self).rules.rules@.len() >= old(self).rules.rules@.len(),
            forall|j: int| 0 <= j < old(self).rules.rules@.len() ==> #[trigger] final(self).rules.rules@[j].keep == old(self).rules.rules@[j].keep,
            forall|j: int| old(self).rules.rules@.len() <= j < final(self).rules.rules@.len() ==> #[trigger] final(self).rules.rules@[j].keep,
            forall|j: int| 0 <= j < old(self).rule_map_inv@.len() ==> #[trigger] final(self).rule_map_inv@[j] == old(self).rule_map_inv@[j],
            r == 0 ==> forall|k: Seq<char>| (#[trigger] old(self).rule_map.get_spec(k)) is Some ==> final(self).rule_map.get_spec(k) is Some,
            forall|s: Set<Seq<char>>| s.subset_of(map_names(old(self).rule_map.entries()))
                && #[trigger] self_sufficient(old(self).rules.rules@, old(self).rule_map_inv@, s)
                ==> s.subset_of(map_names(final(self).rule_map.entries())),
            forall|k: Seq<char>| (#[trigger] final(self).rule_map.get_spec(k)) is Some
                && final(self).rule_map.get_spec(k)->0 < old(self).rules.rules@.len()
                ==> old(self).rule_map.get_spec(k) == final(self).rule_map.get_spec(k),
            r > 0 ==> exists|k: Seq<char>, i: int| #[trigger] dropped_name(final(self).rules.rules@, final(self).rule_map_inv@,
                old(self).rule_map, old(self).rules.rules@.len() as int, k, i) && final(self).rule_map.get_spec(k) is None,
            dropped_names(old(self).rule_map, final(self).rule_map_inv@, old(self).rules.rules@.len() as int, final(self).rule_map).finite(),
            r == dropped_names(old(self).rule_map, final(self).rule_map_inv@, old(self).rules.rules@.len() as int, final(self).rule_map).len(),
            forall|j: int| old(self).rules.rules@.len() <= j < final(self).rules.rules@.len() ==> {
                &&& (#[trigger] final(self).rules.rules@[j])@ == empty_or(true)
                &&& all_names(view_ors(old(self).rules.rules@)).contains(final(self).rule_map_inv@[j]@)
            },
            forall|k: Seq<char>| (#[trigger] old(self).rule_map.get_spec(k)) is Some && final(self).rule_map.get_spec(k) is Some
                ==> final(self).rule_map.get_spec(k) == old(self).rule_map.get_spec(k),
            forall|j: int| 0 <= j < old(self).rules.rules@.len() && plain(SItem::Or(old(self).rules.rules@[j]@))
                ==> plain(SItem::Or(#[trigger] final(self).rules.rules@[j]@)),
            forall|j: int| 0 <= j < old(self).rules.rules@.len()
                && (#[trigger] final(self).rule_map.get_spec(final(self).rule_map_inv@[j]@)) == Some(j as usize)
                ==> drop_ids(SItem::Or(final(self).rules.rules@[j]@))
                    == drop_ids(fin(SItem::Or(old(self).rules.rules@[j]@), final(self).rule_map.entries()).item),
            all_names(view_ors(final(self).rules.rules@)).to_set() == all_names(view_ors(old(self).rules.rules@)).to_set(),
            forall|j: int| 0 <= j < old(self).rules.rules@.len() && old(self).rules.rules@[j]@ == empty_or(true)
                ==> (#[trigger] final(self).rules.rules@[j])@ == empty_or(true),
            r == 0 ==> forall|j: int| 0 <= j < final(self).rules.rules@.len()
                && (#[trigger] final(self).rule_map.get_spec(final(self).rule_map_inv@[j]@)) is Some
                ==> fin(SItem::Or(final(self).rules.rules@[j]@), final(self).rule_map.entries()).new_rules.len() == 0,
    {
        let ghost u = all_names(view_ors(self.rules.rules@)).to_set();
        let ghost names0 = map_names(self.rule_map.entries());
        let ghost len0 = self.rules.rules@.len();
        let ghost e0 = self.rule_map.entries().len();
        proof {
            self.rule_map.lemma_len_bound(len0, view_names(self.rule_map_inv@));
        }
        let mut total_pruned: usize = 0;
        let mut pruned: Vec<String> = Vec::new();
        let ghost mut removed: Set<Seq<char>> = Set::empty();
        let ghost mut started = false;
        let ghost mut mlast = self.rule_map;
        loop
            invariant
                pruned@.len() == total_pruned,
                self.wf(),
                u.finite(),
                all_names(view_ors(self.rules.rules@)).to_set() == u,
                self.rules.parent == old(self).rules.parent,
                forall|x: Seq<char>| #[trigger] view_names(pruned@).contains(x) ==> self.rule_map.get_spec(x) is None,
                e0 <= len0,
                len0 == old(self).rules.rules@.len(),
                len0 == old(self).rule_map_inv@.len(),
                self.rules.rules@.len() >= len0,
                total_pruned + self.rule_map.entries().len() <= e0 + self.rules.rules@.len() - len0,
                forall|j: int| 0 <= j < len0 ==> #[trigger] self.rules.rules@[j].keep == old(self).rules.rules@[j].keep,
                forall|j: int| len0 <= j < self.rules.rules@.len() ==> #[trigger] self.rules.rules@[j].keep,
                forall|j: int| 0 <= j < old(self).rule_map_inv@.len() ==> #[trigger] self.rule_map_inv@[j] == old(self).rule_map_inv@[j],
                total_pruned == 0 ==> forall|k: Seq<char>| (#[trigger] old(self).rule_map.get_spec(k)) is Some ==> self.rule_map.get_spec(k) is Some,
                forall|j: int, names: Set<Seq<char>>| 0 <= j < len0
                    ==> #[trigger] ok_with(SItem::Or(self.rules.rules@[j]@), names) == ok_with(SItem::Or(old(self).rules.rules@[j]@), names),
                names0 == map_names(old(self).rule_map.entries()),
                forall|s: Set<Seq<char>>| s.subset_of(names0) && #[trigger] self_sufficient(old(self).rules.rules@, old(self).rule_map_inv@, s)
                    ==> s.subset_of(map_names(self.rule_map.entries())),
                forall|k: Seq<char>| (#[trigger] self.rule_map.get_spec(k)) is Some && self.rule_map.get_spec(k)->0 < len0
                    ==> old(self).rule_map.get_spec(k) == self.rule_map.get_spec(k),
                total_pruned > 0 ==> exists|k: Seq<char>, i: int| #[trigger] dropped_name(self.rules.rules@, self.rule_map_inv@,
                    old(self).rule_map, len0 as int, k, i) && view_names(pruned@).contains(k),
                removed.finite(),
                removed.len() == total_pruned,
                forall|k: Seq<char>| #[trigger] removed.contains(k) ==> view_names(pruned@).contains(k),
                forall|k: Seq<char>| #[trigger] removed.contains(k) ==> (old(self).rule_map.get_spec(k) is Some
                    || exists|j: int| len0 <= j < self.rule_map_inv@.len() && #[trigger] self.rule_map_inv@[j]@ == k),
                forall|k: Seq<char>| (#[trigger] old(self).rule_map.get_spec(k)) is Some ==> self.rule_map.get_spec(k) is Some || removed.contains(k),
                forall|j: int| len0 <= j < self.rule_map_inv@.len()
                    ==> self.rule_map.get_spec(#[trigger] self.rule_map_inv@[j]@) is Some || removed.contains(self.rule_map_inv@[j]@),
                forall|j: int| len0 <= j < self.rules.rules@.len() ==> {
                    &&& (#[trigger] self.rules.rules@[j])@ == empty_or(true)
                    &&& u.contains(self.rule_map_inv@[j]@)
                },
                forall|k: Seq<char>| (#[trigger] old(self).rule_map.get_spec(k)) is Some && self.rule_map.get_spec(k) is Some
                    ==> self.rule_map.get_spec(k) == old(self).rule_map.get_spec(k),
                forall|j: int| 0 <= j < len0 && plain(SItem::Or(old(self).rules.rules@[j]@))
                    ==> plain(SItem::Or(#[trigger] self.rules.rules@[j]@)),
                forall|j: int| 0 <= j < len0 && (#[trigger] self.rule_map.get_spec(self.rule_map_inv@[j]@)) == Some(j as usize)
                    ==> if started {
                        drop_ids(SItem::Or(self.rules.rules@[j]@)) == drop_ids(fin(SItem::Or(old(self).rules.rules@[j]@), mlast.entries()).item)
                    } else {
                        self.rules.rules@[j] == old(self).rules.rules@[j]
                    },
                forall|j: int| 0 <= j < len0 && old(self).rules.rules@[j]@ == empty_or(true)
                    ==> (#[trigger] self.rules.rules@[j])@ == empty_or(true),
            ensures
                self.wf(),
                exists|base: Seq<SOr>| #![auto] settled(self.rules.rules@, base, self.rule_map_inv@, self.rule_map)
                    && buildable(base, self.rule_map_inv@, self.rule_map),
                pruned@.len() == total_pruned,
                forall|j: int, x: Seq<char>| #![trigger fin(SItem::Or(self.rules.rules@[j]@), self.rule_map.entries()).new_rules.contains(x)]
                    0 <= j < self.rules.rules@.len() && self.rule_map.get_spec(self.rule_map_inv@[j]@) is Some
                    && fin(SItem::Or(self.rules.rules@[j]@), self.rule_map.entries()).new_rules.contains(x)
                    ==> view_names(pruned@).contains(x),
                self.rules.parent == old(self).rules.parent,
                self.rules.rules@.len() >= len0,
                forall|j: int| 0 <= j < len0 ==> #[trigger] self.rules.rules@[j].keep == old(self).rules.rules@[j].keep,
                forall|j: int| len0 <= j < self.rules.rules@.len() ==> #[trigger] self.rules.rules@[j].keep,
                forall|j: int| 0 <= j < old(self).rule_map_inv@.len() ==> #[trigger] self.rule_map_inv@[j] == old(self).rule_map_inv@[j],
                total_pruned == 0 ==> forall|k: Seq<char>| (#[trigger] old(self).rule_map.get_spec(k)) is Some ==> self.rule_map.get_spec(k) is Some,
                forall|s: Set<Seq<char>>| s.subset_of(names0) && #[trigger] self_sufficient(old(self).rules.rules@, old(self).rule_map_inv@, s)
                    ==> s.subset_of(map_names(self.rule_map.entries())),
                forall|k: Seq<char>| (#[trigger] self.rule_map.get_spec(k)) is Some && self.rule_map.get_spec(k)->0 < len0
                    ==> old(self).rule_map.get_spec(k) == self.rule_map.get_spec(k),
                total_pruned > 0 ==> exists|k: Seq<char>, i: int| #[trigger] dropped_name(self.rules.rules@, self.rule_map_inv@,
                    old(self).rule_map, len0 as int, k, i) && view_names(pruned@).contains(k),
                forall|x: Seq<char>| #[trigger] view_names(pruned@).contains(x) ==> self.rule_map.get_spec(x) is None,
                removed.finite(),
                removed.len() == total_pruned,
                forall|k: Seq<char>| #[trigger] removed.contains(k) ==> view_names(pruned@).contains(k),
                forall|k: Seq<char>| #[trigger] removed.contains(k) ==> (old(self).rule_map.get_spec(k) is Some
                    || exists|j: int| len0 <= j < self.rule_map_inv@.len() && #[trigger] self.rule_map_inv@[j]@ == k),
                forall|k: Seq<char>| (#[trigger] old(self).rule_map.get_spec(k)) is Some ==> self.rule_map.get_spec(k) is Some || removed.contains(k),
                forall|j: int| len0 <= j < self.rule_map_inv@.len()
                    ==> self.rule_map.get_spec(#[trigger] self.rule_map_inv@[j]@) is Some || removed.contains(self.rule_map_inv@[j]@),
                forall|j: int| len0 <= j < self.rules.rules@.len() ==> {
                    &&& (#[trigger] self.rules.rules@[j])@ == empty_or(true)
                    &&& u.contains(self.rule_map_inv@[j]@)
                },
                forall|k: Seq<char>| (#[trigger] old(self).rule_map.get_spec(k)) is Some && self.rule_map.get_spec(k) is Some
                    ==> self.rule_map.get_spec(k) == old(self).rule_map.get_spec(k),
                forall|j: int| 0 <= j < len0 && plain(SItem::Or(old(self).rules.rules@[j]@))
                    ==> plain(SItem::Or(#[trigger] self.rules.rules@[j]@)),
                started,
                mlast == self.rule_map,
                forall|j: int| 0 <= j < len0 && (#[trigger] self.rule_map.get_spec(self.rule_map_inv@[j]@)) == Some(j as usize)
                    ==> if started {
                        drop_ids(SItem::Or(self.rules.rules@[j]@)) == drop_ids(fin(SItem::Or(old(self).rules.rules@[j]@), mlast.entries()).item)
                    } else {
                        self.rules.rules@[j] == old(self).rules.rules@[j]
                    },
                all_names(view_ors(self.rules.rules@)).to_set() == u,
                forall|j: int| 0 <= j < len0 && old(self).rules.rules@[j]@ == empty_or(true)
                    ==> (#[trigger] self.rules.rules@[j])@ == empty_or(true),
            decreases 2 * missing_names(u, self.rule_map, view_names(pruned@)).len() + self.rule_map.entries().len(),
        {
            let ghost s0 = *self;
            let ghost mu0 = 2 * missing_names(u, self.rule_map, view_names(pruned@)).len() + self.rule_map.entries().len();
            let (new_rules, to_prune) = self.finalize_pass(&pruned, Ghost(u));
            proof {
                assert(self.rule_map == s0.rule_map);
                if total_pruned > 0 {
                    let (k, i) = choose|k: Seq<char>, i: int| #[trigger] dropped_name(s0.rules.rules@, s0.rule_map_inv@,
                        old(self).rule_map, len0 as int, k, i) && view_names(pruned@).contains(k);
                    lemma_dropped_extend(s0.rules.rules@, s0.rule_map_inv@, self.rules.rules@, self.rule_map_inv@, old(self).rule_map, len0 as int, k, i);
                }
                assert forall|j: int| 0 <= j < len0 && (#[trigger] self.rule_map.get_spec(self.rule_map_inv@[j]@)) == Some(j as usize)
                    implies drop_ids(SItem::Or(self.rules.rules@[j]@)) == drop_ids(fin(SItem::Or(old(self).rules.rules@[j]@), s0.rule_map.entries()).item) by {
                    assert(s0.rule_map.get_spec(s0.rule_map_inv@[j]@) == Some(j as usize));
                    assert(view_ors(s0.rules.rules@)[j] == s0.rules.rules@[j]@);
                    assert(SItem::Or(self.rules.rules@[j]@) == fin(SItem::Or(s0.rules.rules@[j]@), s0.rule_map.entries()).item);
                    if started {
                        lemma_fin_again(SItem::Or(s0.rules.rules@[j]@), SItem::Or(old(self).rules.rules@[j]@), mlast.entries(), s0.rule_map.entries());
                    }
                }
                started = true;
                mlast = self.rule_map;
                assert forall|j: int| 0 <= j < len0 && old(self).rules.rules@[j]@ == empty_or(true)
                    implies (#[trigger] self.rules.rules@[j])@ == empty_or(true) by {
                    assert(s0.rules.rules@[j]@ == empty_or(true));
                    if self.rule_map.get_spec(s0.rule_map_inv@[j]@) is Some {
                        assert(view_ors(s0.rules.rules@)[j] == s0.rules.rules@[j]@);
                        lemma_fin_empty_or(s0.rule_map.entries());
                    }
                }
                assert forall|j: int| 0 <= j < len0 && plain(SItem::Or(old(self).rules.rules@[j]@))
                    implies plain(SItem::Or(#[trigger] self.rules.rules@[j]@)) by {
                    assert(plain(SItem::Or(s0.rules.rules@[j]@)));
                    if self.rule_map.get_spec(s0.rule_map_inv@[j]@) is Some {
                        assert(view_ors(s0.rules.rules@)[j] == s0.rules.rules@[j]@);
                        lemma_item_small(Item::Or(s0.rules.rules@[j]));
                        lemma_fin_plain(SItem::Or(s0.rules.rules@[j]@), s0.rule_map.entries());
                    }
                }
                assert forall|j: int| len0 <= j < self.rules.rules@.len() implies {
                    &&& (#[trigger] self.rules.rules@[j])@ == empty_or(true)
                    &&& u.contains(self.rule_map_inv@[j]@)
                } by {
                    assert(s0.rules.rules@[j]@ == empty_or(true));
                    if self.rule_map.get_spec(s0.rule_map_inv@[j]@) is Some {
                        assert(view_ors(s0.rules.rules@)[j] == empty_or(true));
                        lemma_fin_empty_or(s0.rule_map.entries());
                    }
                }
            }
            if to_prune.len() == 0 && new_rules.len() == 0 {
                proof {
                    let base = view_ors(s0.rules.rules@);
                    assert(settled(self.rules.rules@, base, self.rule_map_inv@, self.rule_map));
                    assert forall|j: int, x: Seq<char>| #![trigger fin(SItem::Or(self.rules.rules@[j]@), self.rule_map.entries()).new_rules.contains(x)]
                        0 <= j < self.rules.rules@.len() && self.rule_map.get_spec(self.rule_map_inv@[j]@) is Some
                        && fin(SItem::Or(self.rules.rules@[j]@), self.rule_map.entries()).new_rules.contains(x)
                        implies view_names(pruned@).contains(x) by {
                        let mp = self.rule_map.entries();
                        assert(s0.rule_map.get_spec(s0.rule_map_inv@[j]@) is Some);
                        assert(SItem::Or(self.rules.rules@[j]@) == fin(SItem::Or(base[j]), mp).item);
                        assert(base[j] == s0.rules.rules@[j]@);
                        lemma_fin_shape_again(SItem::Or(self.rules.rules@[j]@), SItem::Or(s0.rules.rules@[j]@), mp, mp);
                        assert(fin(SItem::Or(s0.rules.rules@[j]@), s0.rule_map.entries()).new_rules.contains(x));
                    }
                    assert(buildable(base, self.rule_map_inv@, self.rule_map)) by {
                        assert forall|j: int| 0 <= j < base.len() && (#[trigger] self.rule_map.get_spec(self.rule_map_inv@[j]@)) is Some
                            implies fin(SItem::Or(base[j]), self.rule_map.entries()).ok || base[j].keep by {
                            assert(base[j] == s0.rules.rules@[j]@);
                        }
                    }
                }
                break;
            }
            if new_rules.len() > 0 {
                proof {
                    assert forall|s: int| 0 <= s < new_rules@.len() implies old(self).rule_map.get_spec(#[trigger] new_rules@[s].1@) is None by {
                        let nm = new_rules@[s].1@;
                        assert(s0.rule_map.get_spec(nm) is None);
                        assert(!view_names(pruned@).contains(nm));
                        if old(self).rule_map.get_spec(nm) is Some {
                            assert(s0.rule_map.get_spec(nm) is Some || removed.contains(nm));
                        }
                    }
                }
                let mut t: usize = 0;
                while t < new_rules.len()
                    invariant
                        pruned@.len() == total_pruned,
                        t <= new_rules@.len(),
                        new_rules@.len() > 0,
                        self.wf(),
                        u.finite(),
                        all_names(view_ors(self.rules.rules@)).to_set() == u,
                        self.rules.parent == old(self).rules.parent,
                        forall|x: Seq<char>| #[trigger] view_names(pruned@).contains(x) ==> self.rule_map.get_spec(x) is None,
                        forall|s: int| 0 <= s < new_rules@.len() ==> u.contains(#[trigger] new_rules@[s].1@)
                            && !view_names(pruned@).contains(new_rules@[s].1@),
                        forall|s: int| 0 <= s < new_rules@.len() ==> old(self).rule_map.get_spec(#[trigger] new_rules@[s].1@) is None,
                        t == 0 ==> self.rule_map.get_spec(new_rules@[0].1@) is None,
                        t == 0 ==> 2 * missing_names(u, self.rule_map, view_names(pruned@)).len() + self.rule_map.entries().len() == mu0,
                        t > 0 ==> 2 * missing_names(u, self.rule_map, view_names(pruned@)).len() + self.rule_map.entries().len() < mu0,
                        e0 <= len0,
                        len0 == old(self).rule_map_inv@.len(),
                        self.rules.rules@.len() >= len0,
                        total_pruned + self.rule_map.entries().len() <= e0 + self.rules.rules@.len() - len0,
                        forall|j: int| 0 <= j < len0 ==> #[trigger] self.rules.rules@[j].keep == old(self).rules.rules@[j].keep,
                        forall|j: int| len0 <= j < self.rules.rules@.len() ==> #[trigger] self.rules.rules@[j].keep,
                        forall|j: int| 0 <= j < old(self).rule_map_inv@.len() ==> #[trigger] self.rule_map_inv@[j] == old(self).rule_map_inv@[j],
                        total_pruned == 0 ==> forall|k: Seq<char>| (#[trigger] old(self).rule_map.get_spec(k)) is Some ==> self.rule_map.get_spec(k) is Some,
                        forall|j: int, names: Set<Seq<char>>| 0 <= j < len0
                            ==> #[trigger] ok_with(SItem::Or(self.rules.rules@[j]@), names) == ok_with(SItem::Or(old(self).rules.rules@[j]@), names),
                        names0 == map_names(old(self).rule_map.entries()),
                        forall|s: Set<Seq<char>>| s.subset_of(names0) && #[trigger] self_sufficient(old(self).rules.rules@, old(self).rule_map_inv@, s)
                            ==> s.subset_of(map_names(self.rule_map.entries())),
                        forall|k: Seq<char>| (#[trigger] self.rule_map.get_spec(k)) is Some && self.rule_map.get_spec(k)->0 < len0
                            ==> old(self).rule_map.get_spec(k) == self.rule_map.get_spec(k),
                        total_pruned > 0 ==> exists|k: Seq<char>, i: int| #[trigger] dropped_name(self.rules.rules@, self.rule_map_inv@,
                            old(self).rule_map, len0 as int, k, i) && view_names(pruned@).contains(k),
                        removed.finite(),
                        removed.len() == total_pruned,
                        forall|k: Seq<char>| #[trigger] removed.contains(k) ==> view_names(pruned@).contains(k),
                        forall|k: Seq<char>| #[trigger] removed.contains(k) ==> (old(self).rule_map.get_spec(k) is Some
                            || exists|j: int| len0 <= j < self.rule_map_inv@.len() && #[trigger] self.rule_map_inv@[j]@ == k),
                        forall|k: Seq<char>| (#[trigger] old(self).rule_map.get_spec(k)) is Some ==> self.rule_map.get_spec(k) is Some || removed.contains(k),
                        forall|j: int| len0 <= j < self.rule_map_inv@.len()
                            ==> self.rule_map.get_spec(#[trigger] self.rule_map_inv@[j]@) is Some || removed.contains(self.rule_map_inv@[j]@),
                        forall|j: int| len0 <= j < self.rules.rules@.len() ==> {
                            &&& (#[trigger] self.rules.rules@[j])@ == empty_or(true)
                            &&& u.contains(self.rule_map_inv@[j]@)
                        },
                        forall|k: Seq<char>| (#[trigger] old(self).rule_map.get_spec(k)) is Some && self.rule_map.get_spec(k) is Some
                            ==> self.rule_map.get_spec(k) == old(self).rule_map.get_spec(k),
                        forall|j: int| 0 <= j < len0 && plain(SItem::Or(old(self).rules.rules@[j]@))
                            ==> plain(SItem::Or(#[trigger] self.rules.rules@[j]@)),
                        started,
                        forall|j: int| 0 <= j < len0 && (#[trigger] self.rule_map.get_spec(self.rule_map_inv@[j]@)) == Some(j as usize)
                            ==> if started {
                                drop_ids(SItem::Or(self.rules.rules@[j]@)) == drop_ids(fin(SItem::Or(old(self).rules.rules@[j]@), mlast.entries()).item)
                            } else {
                                self.rules.rules@[j] == old(self).rules.rules@[j]
                            },
                        forall|j: int| 0 <= j < len0 && old(self).rules.rules@[j]@ == empty_or(true)
                            ==> (#[trigger] self.rules.rules@[j])@ == empty_or(true),
                    decreases new_rules@.len() - t,
                {
                    let ghost m0 = self.rule_map;
                    let ghost rl0 = self.rules.rules@;
                    let ghost inv0 = self.rule_map_inv@;
                    let ghost nm = new_rules@[t as int].1@;
                    proof {
                        assert(total_pruned > 0 ==> exists|k: Seq<char>, i: int| #[trigger] dropped_name(rl0, inv0,
                            old(self).rule_map, len0 as int, k, i) && view_names(pruned@).contains(k));
                        assert(u.contains(nm));
                        assert(!view_names(pruned@).contains(nm));
                    }
                    let idx = add_empty_rule_or(&mut self.rules, new_rules[t].1.as_str(), &mut self.rule_map, &mut self.rule_map_inv, true);
                    proof {
                        lemma_missing_insert(u, m0, self.rule_map, view_names(pruned@), nm);
                        assert(view_ors(self.rules.rules@).len() == self.rules.rules@.len());
                        assert(view_ors(rl0).len() == rl0.len());
                        assert(self.rules.rules@.len() == rl0.len() + 1);
                        assert(view_ors(self.rules.rules@) =~= view_ors(rl0).push(empty_or(true)));
                        lemma_all_names_push_empty(view_ors(rl0), true);
                        assert(self.rules.rules@[rl0.len() as int]@ == empty_or(true));
                        assert forall|j: int| 0 <= j < rl0.len() implies #[trigger] self.rules.rules@[j].keep == rl0[j].keep by {
                            assert(view_ors(self.rules.rules@)[j] == view_ors(rl0)[j]);
                        }
                        assert forall|k: Seq<char>| #[trigger] self.rule_map.get_spec(k) is Some implies self.rule_map.get_spec(k)->0 < self.rules.rules@.len()
                            && self.rule_map_inv@[self.rule_map.get_spec(k)->0 as int]@ == k by {
                            if k != nm {
                                assert(self.rule_map.get_spec(k) == m0.get_spec(k));
                                assert(self.rule_map_inv@[m0.get_spec(k)->0 as int] == inv0[m0.get_spec(k)->0 as int]);
                            }
                        }
                        assert forall|j: int| 0 <= j < old(self).rule_map_inv@.len() implies #[trigger] self.rule_map_inv@[j] == old(self).rule_map_inv@[j] by {
                            assert(self.rule_map_inv@[j] == inv0[j]);
                        }
                        assert forall|x: Seq<char>| #[trigger] view_names(pruned@).contains(x) implies self.rule_map.get_spec(x) is None by {
                            assert(x != nm);
                            assert(self.rule_map.get_spec(x) == m0.get_spec(x));
                        }
                        assert forall|k: Seq<char>| (#[trigger] old(self).rule_map.get_spec(k)) is Some && m0.get_spec(k) is Some
                            implies self.rule_map.get_spec(k) is Some by {
                            if k != nm {
                                assert(self.rule_map.get_spec(k) == m0.get_spec(k));
                            }
                        }
                        assert forall|s: Set<Seq<char>>| s.subset_of(names0) && #[trigger] self_sufficient(old(self).rules.rules@, old(self).rule_map_inv@, s)
                            implies s.subset_of(map_names(self.rule_map.entries())) by {
                            assert(s.subset_of(map_names(m0.entries())));
                            assert forall|k: Seq<char>| s.contains(k) implies map_names(self.rule_map.entries()).contains(k) by {
                                assert(m0.get_spec(k) is Some);
                                if k != nm {
                                    assert(self.rule_map.get_spec(k) == m0.get_spec(k));
                                }
                            }
                        }
                        assert forall|j: int, names: Set<Seq<char>>| 0 <= j < len0
                            implies #[trigger] ok_with(SItem::Or(self.rules.rules@[j]@), names) == ok_with(SItem::Or(old(self).rules.rules@[j]@), names) by {
                            assert(view_ors(self.rules.rules@)[j] == view_ors(rl0)[j]);
                        }
                    }
                    proof {
                        assert forall|k: Seq<char>| (#[trigger] self.rule_map.get_spec(k)) is Some && self.rule_map.get_spec(k)->0 < len0
                            implies old(self).rule_map.get_spec(k) == self.rule_map.get_spec(k) by {
                            if k != nm {
                                assert(self.rule_map.get_spec(k) == m0.get_spec(k));
                            }
                        }
                        assert forall|j: int| len0 <= j < self.rules.rules@.len() implies {
                            &&& (#[trigger] self.rules.rules@[j])@ == empty_or(true)
                            &&& u.contains(self.rule_map_inv@[j]@)
                        } by {
                            assert(view_ors(self.rules.rules@)[j] == self.rules.rules@[j]@);
                            if j < rl0.len() {
                                assert(view_ors(rl0)[j] == rl0[j]@);
                                assert(self.rule_map_inv@[j] == inv0[j]);
                            }
                        }
                        assert forall|k: Seq<char>| #[trigger] removed.contains(k) implies (old(self).rule_map.get_spec(k) is Some
                            || exists|j: int| len0 <= j < self.rule_map_inv@.len() && #[trigger] self.rule_map_inv@[j]@ == k) by {
                            if old(self).rule_map.get_spec(k) is None {
                                let j = choose|j: int| len0 <= j < inv0.len() && #[trigger] inv0[j]@ == k;
                                assert(self.rule_map_inv@[j] == inv0[j]);
                            }
                        }
                        assert forall|j: int| len0 <= j < self.rule_map_inv@.len()
                            implies self.rule_map.get_spec(#[trigger] self.rule_map_inv@[j]@) is Some || removed.contains(self.rule_map_inv@[j]@) by {
                            if j < inv0.len() {
                                assert(self.rule_map_inv@[j] == inv0[j]);
                                if self.rule_map_inv@[j]@ != nm {
                                    assert(self.rule_map.get_spec(inv0[j]@) == m0.get_spec(inv0[j]@));
                                }
                            }
                        }
                        assert forall|k: Seq<char>| (#[trigger] old(self).rule_map.get_spec(k)) is Some
                            implies self.rule_map.get_spec(k) is Some || removed.contains(k) by {
                            if k != nm {
                                assert(self.rule_map.get_spec(k) == m0.get_spec(k));
                            }
                        }
                        assert forall|k: Seq<char>| (#[trigger] old(self).rule_map.get_spec(k)) is Some && self.rule_map.get_spec(k) is Some
                            implies self.rule_map.get_spec(k) == old(self).rule_map.get_spec(k) by {
                            if k != nm {
                                assert(self.rule_map.get_spec(k) == m0.get_spec(k));
                            } else {
                                assert(old(self).rule_map.get_spec(new_rules@[t as int].1@) is None);
                            }
                        }
                        assert forall|j: int| 0 <= j < len0 && old(self).rules.rules@[j]@ == empty_or(true)
                            implies (#[trigger] self.rules.rules@[j])@ == empty_or(true) by {
                            assert(view_ors(self.rules.rules@)[j] == view_ors(rl0)[j]);
                            assert(rl0[j]@ == empty_or(true));
                        }
                        assert forall|j: int| 0 <= j < len0 && plain(SItem::Or(old(self).rules.rules@[j]@))
                            implies plain(SItem::Or(#[trigger] self.rules.rules@[j]@)) by {
                            assert(view_ors(self.rules.rules@)[j] == view_ors(rl0)[j]);
                            assert(plain(SItem::Or(rl0[j]@)));
                        }
                        assert(forall|j: int| 0 <= j < len0 && (#[trigger] m0.get_spec(inv0[j]@)) == Some(j as usize)
                            ==> drop_ids(SItem::Or(rl0[j]@)) == drop_ids(fin(SItem::Or(old(self).rules.rules@[j]@), mlast.entries()).item));
                        assert forall|j: int| 0 <= j < len0 && (#[trigger] self.rule_map.get_spec(self.rule_map_inv@[j]@)) == Some(j as usize)
                            implies if started {
                                drop_ids(SItem::Or(self.rules.rules@[j]@)) == drop_ids(fin(SItem::Or(old(self).rules.rules@[j]@), mlast.entries()).item)
                            } else {
                                self.rules.rules@[j] == old(self).rules.rules@[j]
                            } by {
                            assert(self.rule_map_inv@[j] == inv0[j]);
                            if inv0[j]@ != nm {
                                assert(self.rule_map.get_spec(inv0[j]@) == m0.get_spec(inv0[j]@));
                            }
                            assert(m0.get_spec(inv0[j]@) == Some(j as usize));
                            assert(view_ors(self.rules.rules@)[j] == view_ors(rl0)[j]);
                            assert(self.rules.rules@[j]@ == rl0[j]@);
                        }
                        if total_pruned > 0 {
                            let (k, i) = choose|k: Seq<char>, i: int| #[trigger] dropped_name(rl0, inv0,
                                old(self).rule_map, len0 as int, k, i) && view_names(pruned@).contains(k);
                            assert forall|j: int| 0 <= j < rl0.len() implies #[trigger] self.rules.rules@[j].keep == rl0[j].keep by {
                                assert(view_ors(self.rules.rules@)[j] == view_ors(rl0)[j]);
                            }
                            lemma_dropped_extend(rl0, inv0, self.rules.rules@, self.rule_map_inv@, old(self).rule_map, len0 as int, k, i);
                        }
                    }
                    t += 1;
                }
                continue;
            }
            let ghost mid_rules = self.rules.rules@;
            let mut t: usize = 0;
            while t < to_prune.len()
                invariant
                    pruned@.len() == total_pruned,
                    t <= to_prune@.len(),
                    to_prune@.len() > 0,
                    self.wf(),
                    u.finite(),
                    all_names(view_ors(self.rules.rules@)).to_set() == u,
                    self.rules.parent == old(self).rules.parent,
                    forall|x: Seq<char>| #[trigger] view_names(pruned@).contains(x) ==> self.rule_map.get_spec(x) is None,
                    forall|s: int| t <= s < to_prune@.len() ==> (#[trigger] self.rule_map.get_spec(to_prune@[s]@)) is Some,
                    forall|a: int, b: int| 0 <= a < b < to_prune@.len() ==> to_prune@[a]@ != to_prune@[b]@,
                    t == 0 ==> 2 * missing_names(u, self.rule_map, view_names(pruned@)).len() + self.rule_map.entries().len() == mu0,
                    t > 0 ==> 2 * missing_names(u, self.rule_map, view_names(pruned@)).len() + self.rule_map.entries().len() < mu0,
                    e0 <= len0,
                    self.rules.rules@.len() >= len0,
                    total_pruned + self.rule_map.entries().len() <= e0 + self.rules.rules@.len() - len0,
                    t > 0 ==> total_pruned > 0,
                    forall|j: int| 0 <= j < len0 ==> #[trigger] self.rules.rules@[j].keep == old(self).rules.rules@[j].keep,
                    forall|j: int| len0 <= j < self.rules.rules@.len() ==> #[trigger] self.rules.rules@[j].keep,
                    forall|j: int| 0 <= j < old(self).rule_map_inv@.len() ==> #[trigger] self.rule_map_inv@[j] == old(self).rule_map_inv@[j],
                    total_pruned == 0 ==> forall|k: Seq<char>| (#[trigger] old(self).rule_map.get_spec(k)) is Some ==> self.rule_map.get_spec(k) is Some,
                    forall|j: int, names: Set<Seq<char>>| 0 <= j < len0
                        ==> #[trigger] ok_with(SItem::Or(self.rules.rules@[j]@), names) == ok_with(SItem::Or(old(self).rules.rules@[j]@), names),
                    names0 == map_names(old(self).rule_map.entries()),
                    forall|s: Set<Seq<char>>| s.subset_of(names0) && #[trigger] self_sufficient(old(self).rules.rules@, old(self).rule_map_inv@, s)
                        ==> s.subset_of(map_names(self.rule_map.entries())),
                    forall|k: Seq<char>| (#[trigger] self.rule_map.get_spec(k)) is Some ==> s0.rule_map.get_spec(k) is Some,
                    self.rules.rules@ == mid_rules,
                    mid_rules.len() == s0.rules.rules@.len(),
                    len0 == old(self).rule_map_inv@.len(),
                    len0 == old(self).rules.rules@.len(),
                    forall|j: int| 0 <= j < len0 ==> #[trigger] s0.rules.rules@[j].keep == old(self).rules.rules@[j].keep,
                    forall|j: int| 0 <= j < old(self).rule_map_inv@.len() ==> #[trigger] s0.rule_map_inv@[j] == old(self).rule_map_inv@[j],
                    forall|j: int, names: Set<Seq<char>>| 0 <= j < len0
                        ==> #[trigger] ok_with(SItem::Or(s0.rules.rules@[j]@), names) == ok_with(SItem::Or(old(self).rules.rules@[j]@), names),
                    forall|j: int| 0 <= j < mid_rules.len() ==> #[trigger] mid_rules[j].keep == s0.rules.rules@[j].keep,
                    self.rule_map_inv == s0.rule_map_inv,
                    forall|t2: int| 0 <= t2 < to_prune@.len() ==> unbuildable(s0.rules.rules@, s0.rule_map_inv@, s0.rule_map, #[trigger] to_prune@[t2]@),
                    forall|k: Seq<char>| (#[trigger] self.rule_map.get_spec(k)) is Some && self.rule_map.get_spec(k)->0 < len0
                        ==> old(self).rule_map.get_spec(k) == self.rule_map.get_spec(k),
                    total_pruned > 0 ==> exists|k: Seq<char>, i: int| #[trigger] dropped_name(self.rules.rules@, self.rule_map_inv@,
                        old(self).rule_map, len0 as int, k, i) && view_names(pruned@).contains(k),
                    removed.finite(),
                    removed.len() == total_pruned,
                    forall|k: Seq<char>| #[trigger] removed.contains(k) ==> view_names(pruned@).contains(k),
                    forall|k: Seq<char>| #[trigger] removed.contains(k) ==> (old(self).rule_map.get_spec(k) is Some
                        || exists|j: int| len0 <= j < self.rule_map_inv@.len() && #[trigger] self.rule_map_inv@[j]@ == k),
                    forall|k: Seq<char>| (#[trigger] old(self).rule_map.get_spec(k)) is Some ==> self.rule_map.get_spec(k) is Some || removed.contains(k),
                    forall|j: int| len0 <= j < self.rule_map_inv@.len()
                        ==> self.rule_map.get_spec(#[trigger] self.rule_map_inv@[j]@) is Some || removed.contains(self.rule_map_inv@[j]@),
                    forall|j: int| len0 <= j < self.rules.rules@.len() ==> {
                        &&& (#[trigger] self.rules.rules@[j])@ == empty_or(true)
                        &&& u.contains(self.rule_map_inv@[j]@)
                    },
                    forall|k: Seq<char>| (#[trigger] old(self).rule_map.get_spec(k)) is Some && self.rule_map.get_spec(k) is Some
                        ==> self.rule_map.get_spec(k) == old(self).rule_map.get_spec(k),
                    forall|j: int| 0 <= j < len0 && plain(SItem::Or(old(self).rules.rules@[j]@))
                        ==> plain(SItem::Or(#[trigger] self.rules.rules@[j]@)),
                    started,
                    forall|j: int| 0 <= j < len0 && (#[trigger] self.rule_map.get_spec(self.rule_map_inv@[j]@)) == Some(j as usize)
                        ==> if started {
                            drop_ids(SItem::Or(self.rules.rules@[j]@)) == drop_ids(fin(SItem::Or(old(self).rules.rules@[j]@), mlast.entries()).item)
                        } else {
                            self.rules.rules@[j] == old(self).rules.rules@[j]
                        },
                    forall|j: int| 0 <= j < len0 && old(self).rules.rules@[j]@ == empty_or(true)
                        ==> (#[trigger] self.rules.rules@[j])@ == empty_or(true),
                decreases to_prune@.len() - t,
            {
                let ghost m0 = self.rule_map;
                let ghost nm = to_prune@[t as int]@;
                proof {
                    assert(m0.get_spec(nm) is Some);
                    assert(m0.get_spec(nm)->0 < len0 ==> old(self).rule_map.get_spec(nm) == m0.get_spec(nm));
                    assert(self.rules.rules.len() == self.rules.rules@.len());
                }
                let _had_name = self.rule_map.remove(to_prune[t].as_str());
                let ghost p0 = view_names(pruned@);
                proof {
                    assert(!removed.contains(nm)) by {
                        if removed.contains(nm) {
                            assert(view_names(pruned@).contains(nm));
                        }
                    }
                }
                pruned.push(to_prune[t].clone());
                total_pruned += 1;
                let ghost removed0 = removed;
                proof {
                    removed = removed.insert(nm);
                }
                proof {
                    assert(view_names(pruned@) =~= p0.push(nm));
                    lemma_missing_prune(u, m0, self.rule_map, p0, nm);
                    assert forall|k: Seq<char>| #[trigger] self.rule_map.get_spec(k) is Some implies self.rule_map.get_spec(k)->0 < self.rules.rules@.len()
                        && self.rule_map_inv@[self.rule_map.get_spec(k)->0 as int]@ == k by {
                        assert(self.rule_map.get_spec(k) == m0.get_spec(k));
                    }
                    assert forall|x: Seq<char>| #[trigger] view_names(pruned@).contains(x) implies self.rule_map.get_spec(x) is None by {
                        lemma_push_contains(p0, nm, x);
                        if x != nm {
                            assert(p0.contains(x));
                        }
                    }
                    assert forall|k: Seq<char>| (#[trigger] self.rule_map.get_spec(k)) is Some && self.rule_map.get_spec(k)->0 < len0
                        implies old(self).rule_map.get_spec(k) == self.rule_map.get_spec(k) by {
                        assert(self.rule_map.get_spec(k) == m0.get_spec(k));
                    }
                    {
                        let i = m0.get_spec(nm)->0 as int;
                        assert(unbuildable(s0.rules.rules@, s0.rule_map_inv@, s0.rule_map, nm));
                        let j = choose|j: int| 0 <= j < s0.rules.rules@.len() && #[trigger] s0.rule_map_inv@[j]@ == nm
                            && !fin(SItem::Or(s0.rules.rules@[j]@), s0.rule_map.entries()).ok && !s0.rules.rules@[j].keep;
                        assert(mid_rules[j].keep == s0.rules.rules@[j].keep);
                        assert(self.rule_map_inv@[j]@ == nm);
                        assert(dropped_name(self.rules.rules@, self.rule_map_inv@, old(self).rule_map, len0 as int, nm, i));
                        assert(view_names(pruned@).contains(nm)) by {
                            lemma_push_contains(p0, nm, nm);
                        }
                    }
                    assert forall|j: int| 0 <= j < len0 && (#[trigger] self.rule_map.get_spec(self.rule_map_inv@[j]@)) == Some(j as usize)
                        implies m0.get_spec(self.rule_map_inv@[j]@) == Some(j as usize) by {
                        assert(self.rule_map.get_spec(self.rule_map_inv@[j]@) == m0.get_spec(self.rule_map_inv@[j]@));
                    }
                    assert forall|k: Seq<char>| #[trigger] removed.contains(k) implies view_names(pruned@).contains(k) by {
                        lemma_push_contains(p0, nm, k);
                        if k != nm {
                            assert(removed0.contains(k));
                        }
                    }
                    assert forall|k: Seq<char>| #[trigger] removed.contains(k) implies (old(self).rule_map.get_spec(k) is Some
                        || exists|j: int| len0 <= j < self.rule_map_inv@.len() && #[trigger] self.rule_map_inv@[j]@ == k) by {
                        if k == nm {
                            let i = m0.get_spec(nm)->0 as int;
                            assert(self.rule_map_inv@[i]@ == nm);
                            if i < len0 {
                                assert(old(self).rule_map.get_spec(nm) == m0.get_spec(nm));
                            }
                        } else {
                            assert(removed0.contains(k));
                        }
                    }
                    assert forall|k: Seq<char>| (#[trigger] old(self).rule_map.get_spec(k)) is Some
                        implies self.rule_map.get_spec(k) is Some || removed.contains(k) by {
                        if k != nm {
                            assert(self.rule_map.get_spec(k) == m0.get_spec(k));
                        }
                    }
                    assert forall|k: Seq<char>| (#[trigger] old(self).rule_map.get_spec(k)) is Some && self.rule_map.get_spec(k) is Some
                        implies self.rule_map.get_spec(k) == old(self).rule_map.get_spec(k) by {
                        assert(self.rule_map.get_spec(k) == m0.get_spec(k));
                    }
                    assert forall|j: int| len0 <= j < self.rule_map_inv@.len()
                        implies self.rule_map.get_spec(#[trigger] self.rule_map_inv@[j]@) is Some || removed.contains(self.rule_map_inv@[j]@) by {
                        if self.rule_map_inv@[j]@ != nm {
                            assert(self.rule_map.get_spec(self.rule_map_inv@[j]@) == m0.get_spec(self.rule_map_inv@[j]@));
                        }
                    }
                    assert forall|s: int| t + 1 <= s < to_prune@.len() implies (#[trigger] self.rule_map.get_spec(to_prune@[s]@)) is Some by {
                        assert(to_prune@[s]@ != nm);
                    }
                    assert forall|k: Seq<char>| (#[trigger] self.rule_map.get_spec(k)) is Some implies s0.rule_map.get_spec(k) is Some by {
                        assert(self.rule_map.get_spec(k) == m0.get_spec(k));
                    }
                    assert forall|s: Set<Seq<char>>| s.subset_of(names0) && #[trigger] self_sufficient(old(self).rules.rules@, old(self).rule_map_inv@, s)
                        implies s.subset_of(map_names(self.rule_map.entries())) by {
                        assert(s.subset_of(map_names(m0.entries())));
                        if s.contains(nm) {
                            assert(unbuildable(s0.rules.rules@, s0.rule_map_inv@, s0.rule_map, nm));
                            let j = choose|j: int| 0 <= j < s0.rules.rules@.len() && #[trigger] s0.rule_map_inv@[j]@ == nm
                                && !fin(SItem::Or(s0.rules.rules@[j]@), s0.rule_map.entries()).ok && !s0.rules.rules@[j].keep;
                            assert(j < len0) by {
                                if j >= len0 {
                                    assert(self.rules.rules@[j].keep);
                                    assert(mid_rules[j].keep == s0.rules.rules@[j].keep);
                                }
                            }
                            assert(old(self).rule_map_inv@[j] == s0.rule_map_inv@[j]);
                            assert(old(self).rules.rules@[j].keep == s0.rules.rules@[j].keep);
                            assert(s.contains(old(self).rule_map_inv@[j]@));
                            assert(self_sufficient(old(self).rules.rules@, old(self).rule_map_inv@, s));
                            assert(0 <= j < old(self).rules.rules@.len());
                            assert(old(self).rules.rules@[j].keep || ok_with(SItem::Or(old(self).rules.rules@[j]@), s));
                            assert(!old(self).rules.rules@[j].keep);
                            assert(ok_with(SItem::Or(old(self).rules.rules@[j]@), s));
                            assert(ok_with(SItem::Or(s0.rules.rules@[j]@), s));
                            assert(s.subset_of(map_names(s0.rule_map.entries()))) by {
                                assert forall|k: Seq<char>| s.contains(k) implies map_names(s0.rule_map.entries()).contains(k) by {
                                    assert(m0.get_spec(k) is Some);
                                }
                            }
                            lemma_ok_with_mono(SItem::Or(s0.rules.rules@[j]@), s, map_names(s0.rule_map.entries()));
                            lemma_item_small(Item::Or(s0.rules.rules@[j]));
                            lemma_fin_ok(SItem::Or(s0.rules.rules@[j]@), s0.rule_map.entries());
                        }
                        assert forall|k: Seq<char>| s.contains(k) implies map_names(self.rule_map.entries()).contains(k) by {
                            assert(map_names(m0.entries()).contains(k));
                            assert(k != nm);
                            assert(self.rule_map.get_spec(k) == m0.get_spec(k));
                        }
                    }
                }
                t += 1;
            }
        }
        proof {
            let d = dropped_names(old(self).rule_map, self.rule_map_inv@, len0 as int, self.rule_map);
            assert(d =~= removed) by {
                assert forall|k: Seq<char>| removed.contains(k) implies d.contains(k) by {
                    assert(view_names(pruned@).contains(k));
                }
                assert forall|k: Seq<char>| d.contains(k) implies removed.contains(k) by {
                    if old(self).rule_map.get_spec(k) is None {
                        let j = choose|j: int| len0 <= j < self.rule_map_inv@.len() && #[trigger] self.rule_map_inv@[j]@ == k;
                        assert(self.rule_map.get_spec(self.rule_map_inv@[j]@) is Some || removed.contains(self.rule_map_inv@[j]@));
                    }
                }
            }
            if total_pruned == 0 {
                assert forall|j: int| 0 <= j < self.rules.rules@.len()
                    && (#[trigger] self.rule_map.get_spec(self.rule_map_inv@[j]@)) is Some
                    implies fin(SItem::Or(self.rules.rules@[j]@), self.rule_map.entries()).new_rules.len() == 0 by {
                    let nr = fin(SItem::Or(self.rules.rules@[j]@), self.rule_map.entries()).new_rules;
                    if nr.len() > 0 {
                        assert(nr.contains(nr[0]));
                        assert(view_names(pruned@).contains(nr[0]));
                    }
                }
            }
        }
        total_pruned
    }
}

// ----------------------------------------------------------------------------
// Shortest reference lengths of a rule set
// ----------------------------------------------------------------------------


/// Every rule that is the rule of its own name, and that is derivable when
/// the rules in `s` are, lies in `s`.
pub open spec fn closed_set(rules: Seq<Or>, inv: Seq<String>, map: RuleMap, s: Set<usize>) -> bool {
    forall|j: int| 0 <= j < rules.len() && map.get_spec(inv[j]@) == Some(j as usize)
        && #[trigger] derivable(SItem::Or(rules[j]@), s) ==> s.contains(j as usize)
}

/// Rule `j` can be written out in finitely many steps through the rules of
/// the map: it lies in every closed set.
pub open spec fn productive(rules: Seq<Or>, inv: Seq<String>, map: RuleMap, j: int) -> bool {
    forall|s: Set<usize>| #[trigger] closed_set(rules, inv, map, s) ==> s.contains(j as usize)
}

/// Rules that are derivable alike are productive alike.
pub proof fn lemma_productive_same(r1: Seq<Or>, r2: Seq<Or>, inv: Seq<String>, map: RuleMap, j: int)
    requires
        r1.len() == r2.len(),
        forall|i: int, s: Set<usize>| 0 <= i < r1.len()
            ==> #[trigger] derivable(SItem::Or(r1[i]@), s) == derivable(SItem::Or(r2[i]@), s),
    ensures
        productive(r1, inv, map, j) == productive(r2, inv, map, j),
{
    assert forall|s: Set<usize>| closed_set(r1, inv, map, s) == closed_set(r2, inv, map, s) by {
        if closed_set(r1, inv, map, s) {
            assert forall|i: int| 0 <= i < r2.len() && map.get_spec(inv[i]@) == Some(i as usize)
                && #[trigger] derivable(SItem::Or(r2[i]@), s) implies s.contains(i as usize) by {
                assert(derivable(SItem::Or(r1[i]@), s));
            }
        }
        if closed_set(r2, inv, map, s) {
            assert forall|i: int| 0 <= i < r1.len() && map.get_spec(inv[i]@) == Some(i as usize)
                && #[trigger] derivable(SItem::Or(r1[i]@), s) implies s.contains(i as usize) by {
                assert(derivable(SItem::Or(r2[i]@), s));
            }
        }
    }
}

/// Rule `j` is the rule of its name, is not kept, and has an option that
/// refers to no rule at all.
pub open spec fn free_rule(rules: Seq<Or>, inv: Seq<String>, map: RuleMap, j: int) -> bool {
    &&& 0 <= j < rules.len()
    &&& map.get_spec(inv[j]@) == Some(j as usize)
    &&& !rules[j].keep
    &&& derivable(SItem::Or(rules[j]@), Set::empty())
}

/// No rule but `j` that carries the name of rule `j` is left without `keep`.
pub open spec fn sole_unkept(rules: Seq<Or>, inv: Seq<String>, j: int) -> bool {
    forall|i: int| 0 <= i < rules.len() && i != j && #[trigger] inv[i]@ == inv[j]@ ==> rules[i].keep
}

/// The shortest options of `o` are known: there is one at least, and each
/// is one of its options.
pub open spec fn has_shortest(o: SOr) -> bool {
    &&& o.shortest.len() > 0
    &&& forall|x: usize| #[trigger] o.shortest.contains(x) ==> o.indices.contains(x)
}

/// The choice that computing the length of `o` leaves.
pub open spec fn calc_or(o: SOr, lengths: Seq<usize>) -> SOr {
    match ref_calc(SItem::Or(o), lengths).item {
        SItem::Or(o1) => o1,
        _ => o,
    }
}

/// One pass over the first `e` names in name order: each named rule gets
/// its length and shortest options recomputed from the lengths known so
/// far, and a length that is found is recorded. The flag says whether some
/// rule ended the step with more shortest options than it began with.
pub open spec fn calc_pass(rules: Seq<SOr>, lengths: Seq<usize>, entries: Seq<(Seq<char>, usize)>, e: nat) -> (Seq<SOr>, Seq<usize>, bool)
    decreases e,
{
    if e == 0 || e > entries.len() {
        (rules, lengths, false)
    } else {
        let p = calc_pass(rules, lengths, entries, (e - 1) as nat);
        let j = entries[e - 1].1 as int;
        if j >= p.0.len() {
            p
        } else {
            let c = ref_calc(SItem::Or(p.0[j]), p.1);
            let o1 = calc_or(p.0[j], p.1);
            (
                p.0.update(j, o1),
                if c.len != 0 && j < p.1.len() { p.1.update(j, c.len) } else { p.1 },
                p.2 || o1.shortest.len() > p.0[j].shortest.len(),
            )
        }
    }
}

/// Passes repeated until one leaves no rule with more shortest options, or
/// until `budget` further passes are spent.
pub open spec fn calc_passes(rules: Seq<SOr>, lengths: Seq<usize>, entries: Seq<(Seq<char>, usize)>, budget: nat) -> (Seq<SOr>, Seq<usize>)
    decreases budget,
{
    let p = calc_pass(rules, lengths, entries, entries.len());
    if !p.2 || budget == 0 {
        (p.0, p.1)
    } else {
        calc_passes(p.0, p.1, entries, (budget - 1) as nat)
    }
}

/// What the passes of `calc_shortest_ref_length` find, starting with no
/// length known: the rules and their lengths.
pub open spec fn length_outcome(rules: Seq<Or>, map: RuleMap) -> (Seq<SOr>, Seq<usize>) {
    calc_passes(view_ors(rules), Seq::new(rules.len(), |i: int| 0usize), map.entries(), u64::MAX as nat)
}

/// Whether `k` loses its index when lengths are `lengths`: it has one, and
/// a rule that is not kept carries it with no length found.
pub open spec fn length_pruned(rules: Seq<Or>, inv: Seq<String>, map: RuleMap, lengths: Seq<usize>, k: Seq<char>, upto: int) -> bool {
    &&& map.get_spec(k) is Some
    &&& exists|j: int| 0 <= j < upto && j < rules.len() && #[trigger] inv[j]@ == k && lengths[j] == 0 && !rules[j].keep
}

/// The rules that a first pass over the first `e` names, in name order,
/// finds a length for: each rule that is derivable from the rules found
/// before it.
pub open spec fn first_pass(rules: Seq<Or>, entries: Seq<(Seq<char>, usize)>, e: nat) -> Set<usize>
    decreases e,
{
    if e == 0 || e > entries.len() {
        Set::empty()
    } else {
        let p = first_pass(rules, entries, (e - 1) as nat);
        let j = entries[e - 1].1;
        if j < rules.len() && derivable(SItem::Or(rules[j as int]@), p) {
            p.insert(j)
        } else {
            p
        }
    }
}

/// The names of `w` that come before `k` in name order.
pub open spec fn names_before(w: Set<Seq<char>>, k: Seq<char>) -> Set<Seq<char>> {
    w.filter(|n: Seq<char>| bytes_less(name_bytes(n), name_bytes(k)))
}

/// Every name of `w` gives a rule that is not kept, that no other rule that
/// is not kept carries, that holds no empty sequence and that can be built
/// from the names of `w` before its own in name order. Computing lengths in
/// name order finds such rules one after the other.
pub open spec fn name_chain(rules: Seq<Or>, inv: Seq<String>, map: RuleMap, w: Set<Seq<char>>) -> bool {
    forall|k: Seq<char>| #[trigger] w.contains(k) ==> {
        &&& map.get_spec(k) is Some
        &&& !rules[map.get_spec(k)->0 as int].keep
        &&& sole_unkept(rules, inv, map.get_spec(k)->0 as int)
        &&& no_empty(SItem::Or(rules[map.get_spec(k)->0 as int]@))
        &&& ok_with(SItem::Or(rules[map.get_spec(k)->0 as int]@), names_before(w, k))
    }
}

/// A first pass over the first `e` names finds the rule of every name of
/// `w` among them, when each such rule is derivable from any set of rules
/// that holds the rules of the names of `w` before its own.
pub proof fn lemma_chain_first_pass(rules: Seq<Or>, m: RuleMap, w: Set<Seq<char>>, e: nat)
    requires
        m.wf(),
        e <= m.entries().len(),
        forall|k: Seq<char>| #[trigger] w.contains(k) ==> m.get_spec(k) is Some && m.get_spec(k)->0 < rules.len(),
        forall|k: Seq<char>, p: Set<usize>| w.contains(k)
            && (forall|n: Seq<char>| #[trigger] names_before(w, k).contains(n) ==> p.contains(m.get_spec(n)->0))
            ==> #[trigger] derivable(SItem::Or(rules[m.get_spec(k)->0 as int]@), p),
    ensures
        forall|i: int| 0 <= i < e && #[trigger] w.contains(m.entries()[i].0)
            ==> first_pass(rules, m.entries(), e).contains(m.entries()[i].1),
    decreases e,
{
    if e > 0 {
        lemma_chain_first_pass(rules, m, w, (e - 1) as nat);
        let s = m.entries();
        let p = first_pass(rules, s, (e - 1) as nat);
        let nm = s[e - 1].0;
        let j = s[e - 1].1;
        lemma_lookup(s, nm);
        assert(m.get_spec(nm) == Some(j));
        if w.contains(nm) {
            assert forall|n: Seq<char>| #[trigger] names_before(w, nm).contains(n) implies p.contains(m.get_spec(n)->0) by {
                assert(w.contains(n));
                assert(bytes_less(name_bytes(n), name_bytes(nm)));
                lemma_lookup(s, n);
                let i = choose|i: int| 0 <= i < s.len() && s[i].0 == n;
                lemma_bytes_less_total(name_bytes(n), name_bytes(nm));
                if i >= e - 1 {
                    if i == e - 1 {
                        assert(n == nm);
                    } else {
                        assert(bytes_less(name_bytes(s[e - 1].0), name_bytes(s[i].0)));
                    }
                }
                assert(w.contains(s[i].0));
                assert(m.get_spec(n) == Some(s[i].1));
            }
            assert(derivable(SItem::Or(rules[m.get_spec(nm)->0 as int]@), p));
            assert(first_pass(rules, s, e) == p.insert(j));
        }
        assert forall|i: int| 0 <= i < e && #[trigger] w.contains(m.entries()[i].0)
            implies first_pass(rules, s, e).contains(s[i].1) by {
            if i < e - 1 {
                assert(p.contains(s[i].1));
            }
        }
    }
}

/// A rule that carries no other name of a chain than its own, or is kept,
/// after a set of rules grew by kept rules only.
pub proof fn lemma_chain_sole(o: RuleSet, s: RuleSet, w: Set<Seq<char>>, k: Seq<char>)
    requires
        o.wf(),
        name_chain(o.rules.rules@, o.rule_map_inv@, o.rule_map, w),
        w.contains(k),
        s.rule_map_inv@.len() == s.rules.rules@.len(),
        s.rules.rules@.len() >= o.rules.rules@.len(),
        forall|j: int| 0 <= j < o.rules.rules@.len() ==> #[trigger] s.rule_map_inv@[j] == o.rule_map_inv@[j],
        forall|j: int| 0 <= j < o.rules.rules@.len() ==> #[trigger] s.rules.rules@[j].keep == o.rules.rules@[j].keep,
        forall|j: int| o.rules.rules@.len() <= j < s.rules.rules@.len() ==> #[trigger] s.rules.rules@[j].keep,
    ensures
        sole_unkept(s.rules.rules@, s.rule_map_inv@, o.rule_map.get_spec(k)->0 as int),
        !s.rules.rules@[o.rule_map.get_spec(k)->0 as int].keep,
        s.rule_map_inv@[o.rule_map.get_spec(k)->0 as int]@ == k,
{
    let j = o.rule_map.get_spec(k)->0 as int;
    assert(o.rule_map_inv@[j]@ == k);
    assert forall|i: int| 0 <= i < s.rules.rules@.len() && i != j && #[trigger] s.rule_map_inv@[i]@ == s.rule_map_inv@[j]@
        implies s.rules.rules@[i].keep by {
        if i < o.rules.rules@.len() {
            assert(s.rule_map_inv@[i] == o.rule_map_inv@[i]);
            assert(o.rule_map_inv@[i]@ == o.rule_map_inv@[j]@);
            assert(o.rules.rules@[i].keep);
        }
    }
}

/// At the start of a round, the names of a chain that kept their indices
/// make a set of rules that resolving keeps.
pub proof fn lemma_chain_sufficient(o: RuleSet, s0: RuleSet, w: Set<Seq<char>>, m: Seq<(Seq<char>, usize)>, started: bool)
    requires
        o.wf(),
        s0.wf(),
        name_chain(o.rules.rules@, o.rule_map_inv@, o.rule_map, w),
        forall|k: Seq<char>| #[trigger] w.contains(k) ==> s0.rule_map.get_spec(k) == o.rule_map.get_spec(k),
        s0.rules.rules@.len() >= o.rules.rules@.len(),
        forall|j: int| 0 <= j < o.rules.rules@.len() ==> #[trigger] s0.rule_map_inv@[j] == o.rule_map_inv@[j],
        forall|j: int| 0 <= j < o.rules.rules@.len() ==> #[trigger] s0.rules.rules@[j].keep == o.rules.rules@[j].keep,
        forall|j: int| o.rules.rules@.len() <= j < s0.rules.rules@.len() ==> #[trigger] s0.rules.rules@[j].keep,
        !started ==> s0.rules.rules@ == o.rules.rules@,
        started ==> forall|j: int| 0 <= j < o.rules.rules@.len()
            && (#[trigger] s0.rule_map.get_spec(s0.rule_map_inv@[j]@)) == Some(j as usize)
            ==> shape(SItem::Or(s0.rules.rules@[j]@)) == shape(fin(SItem::Or(o.rules.rules@[j]@), m).item),
    ensures
        self_sufficient(s0.rules.rules@, s0.rule_map_inv@, w),
        w.subset_of(map_names(s0.rule_map.entries())),
{
    assert forall|i: int| 0 <= i < s0.rules.rules@.len() && w.contains(#[trigger] s0.rule_map_inv@[i]@)
        implies s0.rules.rules@[i].keep || ok_with(SItem::Or(s0.rules.rules@[i]@), w) by {
        let k = s0.rule_map_inv@[i]@;
        lemma_chain_sole(o, s0, w, k);
        let j = o.rule_map.get_spec(k)->0 as int;
        if i == j {
            let x = SItem::Or(o.rules.rules@[j]@);
            assert(ok_with(x, names_before(w, k)));
            assert(names_before(w, k).subset_of(w));
            lemma_ok_with_mono(x, names_before(w, k), w);
            if started {
                assert(s0.rule_map.get_spec(s0.rule_map_inv@[j]@) == Some(j as usize));
                lemma_item_small(Item::Or(o.rules.rules@[j]));
                lemma_ok_with_fin(x, m, w);
                lemma_shape_ok_with(SItem::Or(s0.rules.rules@[j]@), w);
                lemma_shape_ok_with(fin(x, m).item, w);
            }
        }
    }
    assert forall|k: Seq<char>| w.contains(k) implies #[trigger] map_names(s0.rule_map.entries()).contains(k) by {
        assert(s0.rule_map.get_spec(k) is Some);
    }
}

/// After resolving, the rule of every name of a chain that kept its index
/// is found by the first pass of computing lengths.
pub proof fn lemma_chain_found(o: RuleSet, mid: RuleSet, w: Set<Seq<char>>)
    requires
        o.wf(),
        mid.wf(),
        name_chain(o.rules.rules@, o.rule_map_inv@, o.rule_map, w),
        forall|k: Seq<char>| #[trigger] w.contains(k) ==> mid.rule_map.get_spec(k) == o.rule_map.get_spec(k),
        mid.rules.rules@.len() >= o.rules.rules@.len(),
        forall|j: int| 0 <= j < o.rules.rules@.len() ==> #[trigger] mid.rule_map_inv@[j] == o.rule_map_inv@[j],
        forall|j: int| 0 <= j < o.rules.rules@.len() ==> #[trigger] mid.rules.rules@[j].keep == o.rules.rules@[j].keep,
        forall|j: int| o.rules.rules@.len() <= j < mid.rules.rules@.len() ==> #[trigger] mid.rules.rules@[j].keep,
        forall|j: int| 0 <= j < o.rules.rules@.len()
            && (#[trigger] mid.rule_map.get_spec(mid.rule_map_inv@[j]@)) == Some(j as usize)
            ==> shape(SItem::Or(mid.rules.rules@[j]@)) == shape(fin(SItem::Or(o.rules.rules@[j]@), mid.rule_map.entries()).item),
    ensures
        forall|k: Seq<char>| #[trigger] w.contains(k) ==> {
            &&& first_pass(mid.rules.rules@, mid.rule_map.entries(), mid.rule_map.entries().len()).contains(o.rule_map.get_spec(k)->0)
            &&& sole_unkept(mid.rules.rules@, mid.rule_map_inv@, o.rule_map.get_spec(k)->0 as int)
            &&& mid.rule_map.get_spec(mid.rule_map_inv@[o.rule_map.get_spec(k)->0 as int]@) == o.rule_map.get_spec(k)
        },
{
    let m = mid.rule_map;
    let rules = mid.rules.rules@;
    assert forall|k: Seq<char>, p: Set<usize>| w.contains(k)
        && (forall|n: Seq<char>| #[trigger] names_before(w, k).contains(n) ==> p.contains(m.get_spec(n)->0))
        implies #[trigger] derivable(SItem::Or(rules[m.get_spec(k)->0 as int]@), p) by {
        let j = o.rule_map.get_spec(k)->0 as int;
        assert(o.rule_map_inv@[j]@ == k);
        assert(mid.rule_map_inv@[j] == o.rule_map_inv@[j]);
        assert(mid.rule_map.get_spec(mid.rule_map_inv@[j]@) == Some(j as usize));
        let x = SItem::Or(o.rules.rules@[j]@);
        lemma_item_small(Item::Or(o.rules.rules@[j]));
        assert forall|n: Seq<char>| #[trigger] names_before(w, k).contains(n)
            implies crate::rulemap::lookup(m.entries(), n) is Some && p.contains(crate::rulemap::lookup(m.entries(), n)->0) by {
            assert(w.contains(n));
        }
        lemma_ok_derivable(x, m.entries(), names_before(w, k), p);
        lemma_shape_derivable(SItem::Or(rules[j]@), p);
        lemma_shape_derivable(fin(x, m.entries()).item, p);
    }
    assert forall|k: Seq<char>| #[trigger] w.contains(k) implies m.get_spec(k) is Some && m.get_spec(k)->0 < rules.len() by {}
    lemma_chain_first_pass(rules, m, w, m.entries().len());
    assert forall|k: Seq<char>| #[trigger] w.contains(k) implies {
        &&& first_pass(rules, m.entries(), m.entries().len()).contains(o.rule_map.get_spec(k)->0)
        &&& sole_unkept(rules, mid.rule_map_inv@, o.rule_map.get_spec(k)->0 as int)
        &&& mid.rule_map.get_spec(mid.rule_map_inv@[o.rule_map.get_spec(k)->0 as int]@) == o.rule_map.get_spec(k)
    } by {
        lemma_chain_sole(o, mid, w, k);
        crate::rulemap::lemma_lookup(m.entries(), k);
        let i = choose|i: int| 0 <= i < m.entries().len() && m.entries()[i].0 == k;
        assert(w.contains(m.entries()[i].0));
    }
}

impl RuleSet {
    /// Computes the shortest reference length of every named rule, passing
    /// over the rules in name order until a pass finds no rule with more
    /// shortest options than before, then removes the names of the rules
    /// that are not kept and whose length is still unknown. Returns how many
    /// names were removed.
    ///
    /// The passes are bounded by `u64::MAX`, far more than any rule set can
    /// take: each pass that finds more shortest options is followed by
    /// another. What the passes compute is `length_outcome`, exactly.
    ///
    /// A name is removed exactly when a rule that is not kept carries it and
    /// the passes found no length for that rule. Consequences proved besides:
    /// every rule left with a name that is not kept is productive; a rule
    /// that the first pass finds a length for keeps its name; a rule that
    /// needs no other rule gets shortest options. As the passes stop once the
    /// counts of shortest options stay as they were, counts left by an
    /// earlier call can end them before every productive rule has a length.
    pub fn calc_shortest_ref_length(&mut self) -> (r: usize)
        requires
            old(self).wf(),
            forall|j: int| 0 <= j < old(self).rules.rules@.len()
                && (#[trigger] old(self).rule_map.get_spec(old(self).rule_map_inv@[j]@)) is Some
                ==> ready(SItem::Or(old(self).rules.rules@[j]@)),
        ensures
            final(self).wf(),
            final(self).rules.parent == old(self).rules.parent,
            final(self).rules.rules@.len() == old(self).rules.rules@.len(),
            final(self).rule_map_inv == old(self).rule_map_inv,
            forall|j: int| 0 <= j < old(self).rules.rules@.len() ==> {
                &&& (#[trigger] final(self).rules.rules@[j])@.indices == old(self).rules.rules@[j]@.indices
                &&& final(self).rules.rules@[j].keep == old(self).rules.rules@[j].keep
            },
            forall|j: int| 0 <= j < old(self).rules.rules@.len()
                && (#[trigger] final(self).rule_map.get_spec(final(self).rule_map_inv@[j]@)) is Some ==> {
                &&& ready(SItem::Or(final(self).rules.rules@[j]@))
                &&& (linked(SItem::Or(old(self).rules.rules@[j]@), old(self).rule_map.entries())
                    ==> linked(SItem::Or(final(self).rules.rules@[j]@), old(self).rule_map.entries()))
            },
            forall|k: Seq<char>| (#[trigger] final(self).rule_map.get_spec(k)) is Some ==> final(self).rule_map.get_spec(k) == old(self).rule_map.get_spec(k),
            forall|k: Seq<char>| (#[trigger] old(self).rule_map.get_spec(k)) is Some && final(self).rule_map.get_spec(k) is None
                ==> exists|j: int| 0 <= j < old(self).rules.rules@.len() && old(self).rule_map_inv@[j]@ == k && !old(self).rules.rules@[j].keep,
            r == 0 ==> final(self).rule_map == old(self).rule_map,
            r > 0 ==> exists|k: Seq<char>| (#[trigger] old(self).rule_map.get_spec(k)) is Some && final(self).rule_map.get_spec(k) is None,
            final(self).rule_map.entries().len() + r == old(self).rule_map.entries().len(),
            forall|j: int, s: Set<usize>| 0 <= j < old(self).rules.rules@.len()
                ==> #[trigger] derivable(SItem::Or(final(self).rules.rules@[j]@), s) == derivable(SItem::Or(old(self).rules.rules@[j]@), s),
            forall|j: int| 0 <= j < old(self).rules.rules@.len()
                && (#[trigger] final(self).rule_map.get_spec(final(self).rule_map_inv@[j]@)) == Some(j as usize)
                ==> old(self).rules.rules@[j].keep || productive(old(self).rules.rules@, old(self).rule_map_inv@, old(self).rule_map, j),
            forall|j: int| #[trigger] free_rule(old(self).rules.rules@, old(self).rule_map_inv@, old(self).rule_map, j)
                ==> has_shortest(final(self).rules.rules@[j]@),
            forall|j: int| #[trigger] free_rule(old(self).rules.rules@, old(self).rule_map_inv@, old(self).rule_map, j)
                && sole_unkept(old(self).rules.rules@, old(self).rule_map_inv@, j)
                ==> final(self).rule_map.get_spec(old(self).rule_map_inv@[j]@) == Some(j as usize),
            forall|j: int| 0 <= j < old(self).rules.rules@.len() && plain(SItem::Or(old(self).rules.rules@[j]@))
                ==> plain(SItem::Or(#[trigger] final(self).rules.rules@[j]@)),
            old(self).rule_map.entries().len() < usize::MAX - 1 ==> forall|j: int| 0 <= j < old(self).rules.rules@.len()
                && (#[trigger] first_pass(old(self).rules.rules@, old(self).rule_map.entries(), old(self).rule_map.entries().len())).contains(j as usize)
                && old(self).rule_map.get_spec(old(self).rule_map_inv@[j]@) == Some(j as usize)
                && sole_unkept(old(self).rules.rules@, old(self).rule_map_inv@, j)
                ==> final(self).rule_map.get_spec(old(self).rule_map_inv@[j]@) == Some(j as usize),
            view_ors(final(self).rules.rules@) == length_outcome(old(self).rules.rules@, old(self).rule_map).0,
            forall|j: int| 0 <= j < old(self).rules.rules@.len()
                ==> shape(SItem::Or(#[trigger] final(self).rules.rules@[j]@)) == shape(SItem::Or(old(self).rules.rules@[j]@)),
            forall|j: int| 0 <= j < old(self).rules.rules@.len() && old(self).rules.rules@[j]@ == empty_or(true)
                ==> (#[trigger] final(self).rules.rules@[j])@ == empty_or(true),
            forall|k: Seq<char>| #[trigger] final(self).rule_map.get_spec(k) == if length_pruned(old(self).rules.rules@, old(self).rule_map_inv@,
                old(self).rule_map, length_outcome(old(self).rules.rules@, old(self).rule_map).1, k, old(self).rules.rules@.len() as int) {
                None
            } else {
                old(self).rule_map.get_spec(k)
            },
    {
        let ghost map0 = self.rule_map;
        let ghost old_rules = self.rules.rules@;
        let ghost inv = self.rule_map_inv@;
        let n = self.rules.rules.len();
        let mut rule_lengths: Vec<usize> = Vec::new();
        let mut i: usize = 0;
        while i < n
            invariant
                i <= n,
                rule_lengths@.len() == i,
                forall|j: int| 0 <= j < i ==> rule_lengths@[j] == 0,
            decreases n - i,
        {
            rule_lengths.push(0);
            i += 1;
        }
        let mut budget: u64 = u64::MAX;
        let ghost mut passed = false;
        let ghost target = length_outcome(old_rules, map0);
        proof {
            assert(rule_lengths@ =~= Seq::new(n as nat, |i: int| 0usize));
        }
        loop
            invariant_except_break
                calc_passes(view_ors(self.rules.rules@), rule_lengths@, map0.entries(), budget as nat) == target,
            invariant
                self.wf(),
                self.rule_map == map0,
                self.rule_map_inv == old(self).rule_map_inv,
                inv == old(self).rule_map_inv@,
                old_rules == old(self).rules.rules@,
                map0 == old(self).rule_map,
                self.rules.parent == old(self).rules.parent,
                self.rules.rules@.len() == n,
                n == old_rules.len(),
                rule_lengths@.len() == n,
                forall|j: int| 0 <= j < n ==> {
                    &&& (#[trigger] self.rules.rules@[j])@.indices == old_rules[j]@.indices
                    &&& self.rules.rules@[j].keep == old_rules[j].keep
                },
                forall|j: int| 0 <= j < n && (#[trigger] map0.get_spec(inv[j]@)) is Some ==> {
                    &&& ready(SItem::Or(self.rules.rules@[j]@))
                    &&& (linked(SItem::Or(old_rules[j]@), map0.entries()) ==> linked(SItem::Or(self.rules.rules@[j]@), map0.entries()))
                },
                forall|j: int, s: Set<usize>| 0 <= j < n
                    ==> #[trigger] derivable(SItem::Or(self.rules.rules@[j]@), s) == derivable(SItem::Or(old_rules[j]@), s),
                forall|j: int| 0 <= j < n && #[trigger] rule_lengths@[j] != 0 ==> productive(old_rules, inv, map0, j),
                passed ==> forall|j: int| #[trigger] free_rule(old_rules, inv, map0, j)
                    ==> rule_lengths@[j] != 0 && has_shortest(self.rules.rules@[j]@),
                forall|j: int| 0 <= j < n && plain(SItem::Or(old_rules[j]@)) ==> plain(SItem::Or(#[trigger] self.rules.rules@[j]@)),
                forall|j: int| 0 <= j < n ==> shape(SItem::Or(#[trigger] self.rules.rules@[j]@)) == shape(SItem::Or(old_rules[j]@)),
                forall|j: int| 0 <= j < n && old_rules[j]@ == empty_or(true) ==> (#[trigger] self.rules.rules@[j])@ == empty_or(true),
                passed && map0.entries().len() < usize::MAX - 1 ==> forall|x: usize| #[trigger] first_pass(old_rules, map0.entries(), map0.entries().len()).contains(x)
                    ==> x < n && rule_lengths@[x as int] != 0,
                !passed ==> forall|x: int| 0 <= x < n ==> #[trigger] rule_lengths@[x] == 0,
            ensures
                self.wf(),
                self.rule_map == map0,
                self.rule_map_inv == old(self).rule_map_inv,
                self.rules.parent == old(self).rules.parent,
                self.rules.rules@.len() == n,
                rule_lengths@.len() == n,
                forall|j: int| 0 <= j < n ==> {
                    &&& (#[trigger] self.rules.rules@[j])@.indices == old_rules[j]@.indices
                    &&& self.rules.rules@[j].keep == old_rules[j].keep
                },
                forall|j: int| 0 <= j < n && (#[trigger] map0.get_spec(inv[j]@)) is Some ==> {
                    &&& ready(SItem::Or(self.rules.rules@[j]@))
                    &&& (linked(SItem::Or(old_rules[j]@), map0.entries()) ==> linked(SItem::Or(self.rules.rules@[j]@), map0.entries()))
                },
                forall|j: int, s: Set<usize>| 0 <= j < n
                    ==> #[trigger] derivable(SItem::Or(self.rules.rules@[j]@), s) == derivable(SItem::Or(old_rules[j]@), s),
                forall|j: int| 0 <= j < n && #[trigger] rule_lengths@[j] != 0 ==> productive(old_rules, inv, map0, j),
                forall|j: int| #[trigger] free_rule(old_rules, inv, map0, j)
                    ==> rule_lengths@[j] != 0 && has_shortest(self.rules.rules@[j]@),
                forall|j: int| 0 <= j < n && plain(SItem::Or(old_rules[j]@)) ==> plain(SItem::Or(#[trigger] self.rules.rules@[j]@)),
                forall|j: int| 0 <= j < n ==> shape(SItem::Or(#[trigger] self.rules.rules@[j]@)) == shape(SItem::Or(old_rules[j]@)),
                forall|j: int| 0 <= j < n && old_rules[j]@ == empty_or(true) ==> (#[trigger] self.rules.rules@[j])@ == empty_or(true),
                map0.entries().len() < usize::MAX - 1 ==> forall|x: usize| #[trigger] first_pass(old_rules, map0.entries(), map0.entries().len()).contains(x)
                    ==> x < n && rule_lengths@[x as int] != 0,
                (view_ors(self.rules.rules@), rule_lengths@) == target,
            decreases budget,
        {
            let ghost rules_p = view_ors(self.rules.rules@);
            let ghost lens_p = rule_lengths@;
            let mut num_resolved: usize = 0;
            let ne = self.rule_map.len();
            let mut e: usize = 0;
            proof {
                if !passed {
                    assert forall|i: usize| #[trigger] known_len(rule_lengths@, i) <= 0 by {
                        if i < rule_lengths@.len() {
                            assert(rule_lengths@[i as int] == 0);
                        }
                    }
                }
            }
            while e < ne
                invariant
                    e <= ne,
                    ne == map0.entries().len(),
                    num_resolved <= e,
                    self.wf(),
                    self.rule_map == map0,
                    self.rule_map_inv == old(self).rule_map_inv,
                    inv == old(self).rule_map_inv@,
                    old_rules == old(self).rules.rules@,
                    map0 == old(self).rule_map,
                    self.rules.parent == old(self).rules.parent,
                    self.rules.rules@.len() == n,
                    n == old_rules.len(),
                    rule_lengths@.len() == n,
                    calc_pass(rules_p, lens_p, map0.entries(), e as nat) == (view_ors(self.rules.rules@), rule_lengths@, num_resolved > 0),
                    forall|j: int| 0 <= j < n ==> {
                        &&& (#[trigger] self.rules.rules@[j])@.indices == old_rules[j]@.indices
                        &&& self.rules.rules@[j].keep == old_rules[j].keep
                    },
                    forall|j: int| 0 <= j < n && (#[trigger] map0.get_spec(inv[j]@)) is Some ==> {
                        &&& ready(SItem::Or(self.rules.rules@[j]@))
                        &&& (linked(SItem::Or(old_rules[j]@), map0.entries()) ==> linked(SItem::Or(self.rules.rules@[j]@), map0.entries()))
                    },
                    forall|j: int, s: Set<usize>| 0 <= j < n
                        ==> #[trigger] derivable(SItem::Or(self.rules.rules@[j]@), s) == derivable(SItem::Or(old_rules[j]@), s),
                    forall|j: int| 0 <= j < n && #[trigger] rule_lengths@[j] != 0 ==> productive(old_rules, inv, map0, j),
                    passed ==> forall|j: int| #[trigger] free_rule(old_rules, inv, map0, j)
                        ==> rule_lengths@[j] != 0 && has_shortest(self.rules.rules@[j]@),
                    forall|i: int| 0 <= i < e && #[trigger] free_rule(old_rules, inv, map0, map0.entries()[i].1 as int)
                        ==> rule_lengths@[map0.entries()[i].1 as int] != 0 && has_shortest(self.rules.rules@[map0.entries()[i].1 as int]@),
                    forall|j: int| 0 <= j < n && plain(SItem::Or(old_rules[j]@)) ==> plain(SItem::Or(#[trigger] self.rules.rules@[j]@)),
                    forall|j: int| 0 <= j < n ==> shape(SItem::Or(#[trigger] self.rules.rules@[j]@)) == shape(SItem::Or(old_rules[j]@)),
                    forall|j: int| 0 <= j < n && old_rules[j]@ == empty_or(true) ==> (#[trigger] self.rules.rules@[j])@ == empty_or(true),
                    passed && map0.entries().len() < usize::MAX - 1 ==> forall|x: usize| #[trigger] first_pass(old_rules, map0.entries(), map0.entries().len()).contains(x)
                        ==> x < n && rule_lengths@[x as int] != 0,
                    !passed && ne < usize::MAX - 1 ==> lengths_below(rule_lengths@, e as int),
                    !passed && ne < usize::MAX - 1 ==> forall|x: usize| #[trigger] first_pass(old_rules, map0.entries(), e as nat).contains(x)
                        ==> x < n && rule_lengths@[x as int] != 0,
                decreases ne - e,
            {
                let (_name, rule_idx) = self.rule_map.entry(e);
                proof {
                    lemma_lookup(map0.entries(), map0.entries()[e as int].0);
                    assert(map0.get_spec(_name@) == Some(rule_idx));
                    assert(rule_idx < n && inv[rule_idx as int]@ == _name@);
                    assert(map0.get_spec(inv[rule_idx as int]@) is Some);
                }
                let before = self.rules.rules[rule_idx].shortest_options.len();
                let ghost rl0 = self.rules.rules@;
                let ghost o0 = self.rules.rules@[rule_idx as int]@;
                let ghost lens0 = rule_lengths@;
                proof {
                    assert forall|t: Set<usize>| #[trigger] derivable(SItem::Or(o0), t) == derivable(SItem::Or(old_rules[rule_idx as int]@), t) by {
                        assert(derivable(SItem::Or(self.rules.rules@[rule_idx as int]@), t) == derivable(SItem::Or(old_rules[rule_idx as int]@), t));
                    }
                }
                let new_len = {
                    let length_calc = RefLenCalculator { rule_lengths: &rule_lengths };
                    self.rules.rules[rule_idx].calc_ref_length(&length_calc)
                };
                proof {
                    let c = ref_calc(SItem::Or(o0), lens0);
                    lemma_calc_ready(SItem::Or(o0), lens0);
                    if linked(SItem::Or(o0), map0.entries()) {
                        lemma_calc_linked(SItem::Or(o0), map0.entries(), lens0);
                    }
                    lemma_or_choices(o0, o0.choices.len(), lens0);
                    assert(self.rules.rules@[rule_idx as int]@.indices == o0.indices);
                    assert forall|j: int| 0 <= j < n && j != rule_idx implies #[trigger] self.rules.rules@[j] == rl0[j] by {}
                    assert forall|j: int, t: Set<usize>| 0 <= j < n
                        implies #[trigger] derivable(SItem::Or(self.rules.rules@[j]@), t) == derivable(SItem::Or(old_rules[j]@), t) by {
                        if j == rule_idx {
                            lemma_calc_derivable(SItem::Or(o0), lens0, t);
                        } else {
                            assert(self.rules.rules@[j] == rl0[j]);
                            assert(derivable(SItem::Or(rl0[j]@), t) == derivable(SItem::Or(old_rules[j]@), t));
                        }
                    }
                }
                if new_len != 0 {
                    proof {
                        assert forall|t: Set<usize>| #[trigger] closed_set(old_rules, inv, map0, t) implies t.contains(rule_idx) by {
                            assert forall|i: usize| #[trigger] known_len(lens0, i) != 0 implies t.contains(i) by {
                                assert(lens0[i as int] != 0);
                                assert(productive(old_rules, inv, map0, i as int));
                            }
                            lemma_known_derivable(SItem::Or(o0), lens0, t);
                            assert(derivable(SItem::Or(o0), t));
                            assert(derivable(SItem::Or(old_rules[rule_idx as int]@), t));
                            assert(map0.get_spec(inv[rule_idx as int]@) == Some(rule_idx));
                        }
                        assert(productive(old_rules, inv, map0, rule_idx as int));
                    }
                    rule_lengths.set(rule_idx, new_len);
                }
                proof {
                    lemma_shape_calc(SItem::Or(o0), lens0);
                    if old_rules[rule_idx as int]@ == empty_or(true) {
                        assert(o0 == empty_or(true));
                        assert(or_choices(o0, 0, lens0) =~= Seq::<SItem>::empty());
                        assert(or_shortest(o0, 0, lens0, or_min(o0, 0, lens0)) =~= Seq::<usize>::empty());
                        assert(self.rules.rules@[rule_idx as int]@ == empty_or(true));
                    }
                    assert(shape(SItem::Or(rl0[rule_idx as int]@)) == shape(SItem::Or(old_rules[rule_idx as int]@)));
                    if plain(SItem::Or(old_rules[rule_idx as int]@)) {
                        assert(plain(SItem::Or(rl0[rule_idx as int]@)));
                        lemma_item_small(Item::Or(rl0[rule_idx as int]));
                        lemma_calc_plain(SItem::Or(o0), lens0);
                    }
                    if free_rule(old_rules, inv, map0, rule_idx as int) {
                        assert(derivable(SItem::Or(o0), Set::empty()));
                        lemma_free_known(SItem::Or(o0), lens0);
                        assert(!o0.keep);
                        lemma_free_shortest(o0, lens0);
                        assert(rule_lengths@[rule_idx as int] != 0);
                        assert(has_shortest(self.rules.rules@[rule_idx as int]@));
                    }
                    assert forall|j: int| #[trigger] free_rule(old_rules, inv, map0, j) && j != rule_idx && lens0[j] != 0
                        implies rule_lengths@[j] != 0 by {}
                }
                proof {
                    if !passed && ne < usize::MAX - 1 {
                        let p = first_pass(old_rules, map0.entries(), e as nat);
                        assert forall|i: usize| #[trigger] p.contains(i) implies known_len(lens0, i) != 0 by {
                            assert(i < n && lens0[i as int] != 0);
                        }
                        lemma_known_from(SItem::Or(o0), lens0, p, e as int);
                        assert(derivable(SItem::Or(o0), p) == derivable(SItem::Or(old_rules[rule_idx as int]@), p));
                        assert(map0.entries()[e as int].1 == rule_idx);
                        let p1 = first_pass(old_rules, map0.entries(), (e + 1) as nat);
                        assert forall|x: usize| #[trigger] p1.contains(x) implies x < n && rule_lengths@[x as int] != 0 by {
                            if x != rule_idx {
                                assert(p.contains(x));
                            }
                        }
                        assert forall|i: usize| #[trigger] known_len(rule_lengths@, i) <= e + 1 by {
                            if i < rule_lengths@.len() && i != rule_idx {
                                assert(known_len(lens0, i) <= e);
                            }
                        }
                    }
                    if passed && map0.entries().len() < usize::MAX - 1 {
                        assert forall|x: usize| #[trigger] first_pass(old_rules, map0.entries(), map0.entries().len()).contains(x)
                            implies x < n && rule_lengths@[x as int] != 0 by {
                            assert(lens0[x as int] != 0);
                        }
                    }
                }
                let more = self.rules.rules[rule_idx].shortest_options.len() > before;
                if more {
                    num_resolved += 1;
                }
                proof {
                    let pr = calc_pass(rules_p, lens_p, map0.entries(), e as nat);
                    assert(map0.entries()[e as int].1 == rule_idx);
                    assert(pr.0 == view_ors(rl0));
                    assert(view_ors(rl0)[rule_idx as int] == o0);
                    assert(calc_or(o0, lens0) == self.rules.rules@[rule_idx as int]@);
                    assert(view_ors(self.rules.rules@) =~= view_ors(rl0).update(rule_idx as int, calc_or(o0, lens0))) by {
                        assert forall|j: int| 0 <= j < n implies view_ors(self.rules.rules@)[j] == view_ors(rl0).update(rule_idx as int, calc_or(o0, lens0))[j] by {
                            if j != rule_idx {
                                assert(self.rules.rules@[j] == rl0[j]);
                            }
                        }
                    }
                }
                e += 1;
            }
            proof {
                assert forall|j: int| #[trigger] free_rule(old_rules, inv, map0, j)
                    implies rule_lengths@[j] != 0 && has_shortest(self.rules.rules@[j]@) by {
                    lemma_lookup(map0.entries(), inv[j]@);
                    let i = choose|i: int| 0 <= i < map0.entries().len() && map0.entries()[i].0 == inv[j]@;
                    assert(map0.entries()[i].1 == j as usize);
                    assert(free_rule(old_rules, inv, map0, map0.entries()[i].1 as int));
                }
                if !passed && ne < usize::MAX - 1 {
                    assert forall|x: usize| #[trigger] first_pass(old_rules, map0.entries(), map0.entries().len()).contains(x)
                        implies x < n && rule_lengths@[x as int] != 0 by {
                        assert(first_pass(old_rules, map0.entries(), e as nat).contains(x));
                    }
                }
                passed = true;
            }
            proof {
                assert(calc_pass(rules_p, lens_p, map0.entries(), map0.entries().len()) == (view_ors(self.rules.rules@), rule_lengths@, num_resolved > 0));
            }
            if num_resolved == 0 {
                break;
            }
            if budget == 0 {
                break;
            }
            budget -= 1;
        }
        let mut total_pruned: usize = 0;
        let mut j: usize = 0;
        while j < n
            invariant
                j <= n,
                total_pruned <= j,
                rule_lengths@.len() == n,
                self.wf(),
                self.rule_map_inv == old(self).rule_map_inv,
                inv == old(self).rule_map_inv@,
                old_rules == old(self).rules.rules@,
                map0 == old(self).rule_map,
                self.rules.parent == old(self).rules.parent,
                self.rules.rules@.len() == n,
                n == old_rules.len(),
                forall|i: int| 0 <= i < n ==> {
                    &&& (#[trigger] self.rules.rules@[i])@.indices == old_rules[i]@.indices
                    &&& self.rules.rules@[i].keep == old_rules[i].keep
                },
                forall|i: int| 0 <= i < n && (#[trigger] map0.get_spec(inv[i]@)) is Some ==> {
                    &&& ready(SItem::Or(self.rules.rules@[i]@))
                    &&& (linked(SItem::Or(old_rules[i]@), map0.entries()) ==> linked(SItem::Or(self.rules.rules@[i]@), map0.entries()))
                },
                forall|k: Seq<char>| (#[trigger] self.rule_map.get_spec(k)) is Some ==> self.rule_map.get_spec(k) == map0.get_spec(k),
                forall|k: Seq<char>| (#[trigger] map0.get_spec(k)) is Some && self.rule_map.get_spec(k) is None
                    ==> exists|i: int| 0 <= i < n && inv[i]@ == k && !old_rules[i].keep,
                total_pruned == 0 ==> self.rule_map == map0,
                total_pruned > 0 ==> exists|k: Seq<char>| (#[trigger] map0.get_spec(k)) is Some && self.rule_map.get_spec(k) is None,
                total_pruned + self.rule_map.entries().len() == map0.entries().len(),
                forall|i: int, s: Set<usize>| 0 <= i < n
                    ==> #[trigger] derivable(SItem::Or(self.rules.rules@[i]@), s) == derivable(SItem::Or(old_rules[i]@), s),
                forall|i: int| 0 <= i < n && #[trigger] rule_lengths@[i] != 0 ==> productive(old_rules, inv, map0, i),
                forall|i: int| 0 <= i < j && (#[trigger] self.rule_map.get_spec(inv[i]@)) == Some(i as usize)
                    ==> rule_lengths@[i] != 0 || old_rules[i].keep,
                forall|i: int| #[trigger] free_rule(old_rules, inv, map0, i)
                    ==> rule_lengths@[i] != 0 && has_shortest(self.rules.rules@[i]@),
                forall|i: int| #[trigger] free_rule(old_rules, inv, map0, i) && sole_unkept(old_rules, inv, i)
                    ==> self.rule_map.get_spec(inv[i]@) == Some(i as usize),
                forall|i: int| 0 <= i < n && plain(SItem::Or(old_rules[i]@)) ==> plain(SItem::Or(#[trigger] self.rules.rules@[i]@)),
                forall|i: int| 0 <= i < n ==> shape(SItem::Or(#[trigger] self.rules.rules@[i]@)) == shape(SItem::Or(old_rules[i]@)),
                forall|i: int| 0 <= i < n && old_rules[i]@ == empty_or(true) ==> (#[trigger] self.rules.rules@[i])@ == empty_or(true),
                map0.entries().len() < usize::MAX - 1 ==> forall|x: usize| #[trigger] first_pass(old_rules, map0.entries(), map0.entries().len()).contains(x)
                    ==> x < n && rule_lengths@[x as int] != 0,
                map0.entries().len() < usize::MAX - 1 ==> forall|i: int| 0 <= i < n
                    && (#[trigger] first_pass(old_rules, map0.entries(), map0.entries().len())).contains(i as usize)
                    && map0.get_spec(inv[i]@) == Some(i as usize) && sole_unkept(old_rules, inv, i)
                    ==> self.rule_map.get_spec(inv[i]@) == Some(i as usize),
                (view_ors(self.rules.rules@), rule_lengths@) == target,
                forall|k: Seq<char>| #[trigger] self.rule_map.get_spec(k) == if length_pruned(old_rules, inv, map0, rule_lengths@, k, j as int) {
                    None
                } else {
                    map0.get_spec(k)
                },
            decreases n - j,
        {
            let known = rule_lengths[j] != 0;
            let named = self.rule_map.contains_key(self.rule_map_inv[j].as_str());
            let keep = self.rules.rules[j].keep;
            if !known && named && !keep {
                let ghost m1 = self.rule_map;
                let ghost k = inv[j as int]@;
                self.rule_map.remove(self.rule_map_inv[j].as_str());
                total_pruned += 1;
                proof {
                    assert(m1.get_spec(k) == map0.get_spec(k));
                    assert(self.rule_map.get_spec(k) is None);
                    assert forall|k2: Seq<char>| #[trigger] self.rule_map.get_spec(k2) is Some implies self.rule_map.get_spec(k2)->0 < self.rules.rules@.len()
                        && self.rule_map_inv@[self.rule_map.get_spec(k2)->0 as int]@ == k2 by {
                        assert(self.rule_map.get_spec(k2) == m1.get_spec(k2));
                    }
                    assert forall|k2: Seq<char>| (#[trigger] map0.get_spec(k2)) is Some && self.rule_map.get_spec(k2) is None
                        implies exists|i: int| 0 <= i < n && inv[i]@ == k2 && !old_rules[i].keep by {
                        if k2 == k {
                            assert(inv[j as int]@ == k2 && !old_rules[j as int].keep);
                        } else {
                            assert(self.rule_map.get_spec(k2) == m1.get_spec(k2));
                        }
                    }
                    if map0.entries().len() < usize::MAX - 1 {
                        assert forall|i: int| 0 <= i < n
                            && (#[trigger] first_pass(old_rules, map0.entries(), map0.entries().len())).contains(i as usize)
                            && map0.get_spec(inv[i]@) == Some(i as usize) && sole_unkept(old_rules, inv, i)
                            implies self.rule_map.get_spec(inv[i]@) == Some(i as usize) by {
                            if inv[i]@ == k {
                                if i != j {
                                    assert(old_rules[j as int].keep);
                                } else {
                                    assert(rule_lengths@[i] != 0);
                                }
                            } else {
                                assert(self.rule_map.get_spec(inv[i]@) == m1.get_spec(inv[i]@));
                            }
                        }
                    }
                    assert forall|i: int| #[trigger] free_rule(old_rules, inv, map0, i) && sole_unkept(old_rules, inv, i)
                        implies self.rule_map.get_spec(inv[i]@) == Some(i as usize) by {
                        if inv[i]@ == k {
                            if i != j {
                                assert(old_rules[j as int].keep);
                            }
                        } else {
                            assert(self.rule_map.get_spec(inv[i]@) == m1.get_spec(inv[i]@));
                        }
                    }
                    assert forall|i: int| 0 <= i <= j && (#[trigger] self.rule_map.get_spec(inv[i]@)) == Some(i as usize)
                        implies rule_lengths@[i] != 0 || old_rules[i].keep by {
                        if inv[i]@ != k {
                            assert(self.rule_map.get_spec(inv[i]@) == m1.get_spec(inv[i]@));
                        }
                    }
                }
            }
            j += 1;
        }
        total_pruned
    }
}

/// Rule `j` is the rule of its name, is not kept, and is plain: it can be
/// written out without any rule.
pub open spec fn plain_rule(rules: Seq<Or>, inv: Seq<String>, map: RuleMap, j: int) -> bool {
    &&& 0 <= j < rules.len()
    &&& map.get_spec(inv[j]@) == Some(j as usize)
    &&& !rules[j].keep
    &&& plain(SItem::Or(rules[j]@))
}

/// `rules` extends `old_rules`, and every rule past them is a kept rule
/// without options named after an identifier target of `old_rules`.
pub open spec fn grown_by_ids(old_rules: Seq<Or>, rules: Seq<Or>, inv: Seq<String>) -> bool {
    &&& rules.len() >= old_rules.len()
    &&& forall|j: int| old_rules.len() <= j < rules.len() ==> {
        &&& (#[trigger] rules[j])@ == empty_or(true)
        &&& all_names(view_ors(old_rules)).contains(inv[j]@)
    }
}

/// No rule is kept, and no identifier is aimed at the name of a rule: a
/// name can then never be carried both by a kept rule and by one that is
/// not.
pub open spec fn no_takeover(rules: Seq<Or>, inv: Seq<String>) -> bool {
    &&& forall|j: int| 0 <= j < rules.len() ==> !(#[trigger] rules[j]).keep
    &&& forall|j: int| 0 <= j < rules.len() && j < inv.len() ==> !all_names(view_ors(rules)).contains(#[trigger] inv[j]@)
}

/// A name taken over after growing by identifier rules means a kept rule or
/// an identifier aimed at a rule's name at the start.
pub proof fn lemma_taken_over_needs(
    old_rules: Seq<Or>, old_inv: Seq<String>, rules: Seq<Or>, inv: Seq<String>, map: RuleMap, k: Seq<char>,
)
    requires
        grown_by_ids(old_rules, rules, inv),
        old_inv.len() == old_rules.len(),
        forall|j: int| 0 <= j < old_rules.len() ==> #[trigger] rules[j].keep == old_rules[j].keep,
        forall|j: int| 0 <= j < old_rules.len() ==> #[trigger] inv[j] == old_inv[j],
        taken_over(rules, inv, map, k),
    ensures
        !no_takeover(old_rules, old_inv),
{
    let i = choose|i: int| 0 <= i < rules.len() && i < inv.len() && #[trigger] inv[i]@ == k && rules[i].keep;
    let j = choose|j: int| 0 <= j < rules.len() && j < inv.len() && #[trigger] inv[j]@ == k && !rules[j].keep;
    if no_takeover(old_rules, old_inv) {
        if j >= old_rules.len() {
            assert(rules[j]@ == empty_or(true));
        } else {
            assert(inv[j] == old_inv[j]);
            if i < old_rules.len() {
                assert(rules[i].keep == old_rules[i].keep);
                assert(!old_rules[i].keep);
            } else {
                assert(all_names(view_ors(old_rules)).contains(inv[i]@));
                assert(!all_names(view_ors(old_rules)).contains(old_inv[j]@));
            }
        }
    }
}

/// No rule is kept, and every identifier aimed at the name of a rule is
/// aimed at a name of `w`.
pub open spec fn ids_in_chain(rules: Seq<Or>, inv: Seq<String>, w: Set<Seq<char>>) -> bool {
    &&& forall|j: int| 0 <= j < rules.len() ==> !(#[trigger] rules[j]).keep
    &&& forall|j: int| 0 <= j < rules.len() && j < inv.len() && all_names(view_ors(rules)).contains(#[trigger] inv[j]@)
        ==> w.contains(inv[j]@)
}

/// No name is taken over after growing by identifier rules when every
/// identifier aimed at a rule's name is aimed at a name of a chain that
/// kept its index: a name taken over is aimed at by an identifier and
/// carried by a rule at the start.
pub proof fn lemma_taken_over_chain(o: RuleSet, rules: Seq<Or>, inv: Seq<String>, map: RuleMap, k: Seq<char>, w: Set<Seq<char>>)
    requires
        o.wf(),
        grown_by_ids(o.rules.rules@, rules, inv),
        forall|j: int| 0 <= j < o.rules.rules@.len() ==> #[trigger] rules[j].keep == o.rules.rules@[j].keep,
        forall|j: int| 0 <= j < o.rules.rules@.len() ==> #[trigger] inv[j] == o.rule_map_inv@[j],
        name_chain(o.rules.rules@, o.rule_map_inv@, o.rule_map, w),
        ids_in_chain(o.rules.rules@, o.rule_map_inv@, w),
        forall|n: Seq<char>| #[trigger] w.contains(n) ==> map.get_spec(n) == o.rule_map.get_spec(n),
    ensures
        !taken_over(rules, inv, map, k),
{
    if taken_over(rules, inv, map, k) {
        let n0 = o.rules.rules@.len();
        let i = choose|i: int| 0 <= i < rules.len() && i < inv.len() && #[trigger] inv[i]@ == k && rules[i].keep;
        let j = choose|j: int| 0 <= j < rules.len() && j < inv.len() && #[trigger] inv[j]@ == k && !rules[j].keep;
        if j >= n0 {
            assert(rules[j]@ == empty_or(true));
        } else if i < n0 {
            assert(rules[i].keep == o.rules.rules@[i].keep);
            assert(!o.rules.rules@[i].keep);
        } else {
            assert(all_names(view_ors(o.rules.rules@)).contains(inv[i]@));
            assert(inv[j] == o.rule_map_inv@[j]);
            assert(all_names(view_ors(o.rules.rules@)).contains(o.rule_map_inv@[j]@));
            assert(w.contains(k));
            assert(map.get_spec(k) == o.rule_map.get_spec(k));
        }
    }
}

/// How many of the first `k` rules are not kept and are the rule their
/// name gives.
pub open spec fn unkept(rules: Seq<Or>, inv: Seq<String>, map: RuleMap, k: nat) -> nat
    decreases k,
{
    if k == 0 {
        0
    } else {
        let j = (k - 1) as int;
        unkept(rules, inv, map, (k - 1) as nat) + if map.get_spec(inv[j]@) == Some(j as usize) && !rules[j].keep {
            1nat
        } else {
            0nat
        }
    }
}

/// A name that has lost its index while a kept rule and a rule that is not
/// kept both carry it.
pub open spec fn taken_over(rules: Seq<Or>, inv: Seq<String>, map: RuleMap, k: Seq<char>) -> bool {
    &&& map.get_spec(k) is None
    &&& exists|i: int| 0 <= i < rules.len() && i < inv.len() && #[trigger] inv[i]@ == k && rules[i].keep
    &&& exists|j: int| 0 <= j < rules.len() && j < inv.len() && #[trigger] inv[j]@ == k && !rules[j].keep
}

/// If every rule among the first `k` that is not kept and is the rule of
/// its name in `m1` was so in `m0`, there are no more such rules in `m1`,
/// and fewer when one of them was so in `m0` only.
pub proof fn lemma_unkept_le(r0: Seq<Or>, i0: Seq<String>, m0: RuleMap, r1: Seq<Or>, i1: Seq<String>, m1: RuleMap, k: nat)
    requires
        k <= r0.len(),
        k <= r1.len(),
        k <= i0.len(),
        k <= i1.len(),
        forall|j: int| 0 <= j < k && #[trigger] m1.get_spec(i1[j]@) == Some(j as usize) && !r1[j].keep
            ==> m0.get_spec(i0[j]@) == Some(j as usize) && !r0[j].keep,
    ensures
        unkept(r1, i1, m1, k) <= unkept(r0, i0, m0, k),
        forall|w: int| 0 <= w < k && #[trigger] m0.get_spec(i0[w]@) == Some(w as usize) && !r0[w].keep
            && !(m1.get_spec(i1[w]@) == Some(w as usize) && !r1[w].keep)
            ==> unkept(r1, i1, m1, k) < unkept(r0, i0, m0, k),
    decreases k,
{
    if k > 0 {
        lemma_unkept_le(r0, i0, m0, r1, i1, m1, (k - 1) as nat);
        let j = k - 1;
        assert(m1.get_spec(i1[j]@) == Some(j as usize) && !r1[j].keep ==> m0.get_spec(i0[j]@) == Some(j as usize) && !r0[j].keep);
    }
}

/// Rules past `n0` that are all kept add nothing to the count.
pub proof fn lemma_unkept_tail(r1: Seq<Or>, i1: Seq<String>, m1: RuleMap, n0: nat, k: nat)
    requires
        n0 <= k <= r1.len(),
        forall|j: int| n0 <= j < r1.len() ==> #[trigger] r1[j].keep,
    ensures
        unkept(r1, i1, m1, k) == unkept(r1, i1, m1, n0),
    decreases k,
{
    if k > n0 {
        lemma_unkept_tail(r1, i1, m1, n0, (k - 1) as nat);
        assert(r1[k - 1].keep);
    }
}

/// One round of resolving and computing lengths keeps the index of every
/// name of a chain of the rules the rounds started from.
proof fn lemma_chain_round(o: RuleSet, s0: RuleSet, mid: RuleSet, s1: RuleSet, m0: RuleMap, started0: bool)
    requires
        o.wf(),
        s0.wf(),
        mid.wf(),
        s1.wf(),
        o.rule_map_inv@.len() == o.rules.rules@.len(),
        s0.rules.rules@.len() >= o.rules.rules@.len(),
        forall|j: int| 0 <= j < o.rules.rules@.len() ==> #[trigger] s0.rule_map_inv@[j] == o.rule_map_inv@[j],
        forall|j: int| 0 <= j < o.rules.rules@.len() ==> #[trigger] s0.rules.rules@[j].keep == o.rules.rules@[j].keep,
        grown_by_ids(o.rules.rules@, s0.rules.rules@, s0.rule_map_inv@),
        !started0 ==> s0.rules.rules@ == o.rules.rules@,
        started0 ==> forall|j: int| 0 <= j < o.rules.rules@.len()
            && (#[trigger] s0.rule_map.get_spec(s0.rule_map_inv@[j]@)) == Some(j as usize)
            ==> shape(SItem::Or(s0.rules.rules@[j]@)) == shape(fin(SItem::Or(o.rules.rules@[j]@), m0.entries()).item),
        forall|w: Set<Seq<char>>, k: Seq<char>|
            #![trigger name_chain(o.rules.rules@, o.rule_map_inv@, o.rule_map, w), w.contains(k)]
            s0.rules.rules@.len() < usize::MAX - 1
            && name_chain(o.rules.rules@, o.rule_map_inv@, o.rule_map, w) && w.contains(k)
            ==> s0.rule_map.get_spec(k) == o.rule_map.get_spec(k),
        mid.rules.rules@.len() >= s0.rules.rules@.len(),
        forall|j: int| 0 <= j < s0.rules.rules@.len() ==> #[trigger] mid.rules.rules@[j].keep == s0.rules.rules@[j].keep,
        forall|j: int| s0.rules.rules@.len() <= j < mid.rules.rules@.len() ==> #[trigger] mid.rules.rules@[j].keep,
        forall|j: int| 0 <= j < s0.rule_map_inv@.len() ==> #[trigger] mid.rule_map_inv@[j] == s0.rule_map_inv@[j],
        forall|t: Set<Seq<char>>| t.subset_of(map_names(s0.rule_map.entries()))
            && #[trigger] self_sufficient(s0.rules.rules@, s0.rule_map_inv@, t)
            ==> t.subset_of(map_names(mid.rule_map.entries())),
        forall|k: Seq<char>| (#[trigger] mid.rule_map.get_spec(k)) is Some
            && mid.rule_map.get_spec(k)->0 < s0.rules.rules@.len()
            ==> s0.rule_map.get_spec(k) == mid.rule_map.get_spec(k),
        forall|k: Seq<char>| (#[trigger] s0.rule_map.get_spec(k)) is Some && mid.rule_map.get_spec(k) is Some
            ==> mid.rule_map.get_spec(k) == s0.rule_map.get_spec(k),
        forall|j: int| 0 <= j < s0.rules.rules@.len()
            && (#[trigger] mid.rule_map.get_spec(mid.rule_map_inv@[j]@)) == Some(j as usize)
            ==> drop_ids(SItem::Or(mid.rules.rules@[j]@))
                == drop_ids(fin(SItem::Or(s0.rules.rules@[j]@), mid.rule_map.entries()).item),
        s1.rules.rules@.len() == mid.rules.rules@.len(),
        s1.rule_map_inv == mid.rule_map_inv,
        mid.rule_map.entries().len() < usize::MAX - 1 ==> forall|j: int| 0 <= j < mid.rules.rules@.len()
            && (#[trigger] first_pass(mid.rules.rules@, mid.rule_map.entries(), mid.rule_map.entries().len())).contains(j as usize)
            && mid.rule_map.get_spec(mid.rule_map_inv@[j]@) == Some(j as usize)
            && sole_unkept(mid.rules.rules@, mid.rule_map_inv@, j)
            ==> s1.rule_map.get_spec(mid.rule_map_inv@[j]@) == Some(j as usize),
    ensures
        forall|w: Set<Seq<char>>, k: Seq<char>|
            #![trigger name_chain(o.rules.rules@, o.rule_map_inv@, o.rule_map, w), w.contains(k)]
            s1.rules.rules@.len() < usize::MAX - 1
            && name_chain(o.rules.rules@, o.rule_map_inv@, o.rule_map, w) && w.contains(k)
            ==> s1.rule_map.get_spec(k) == o.rule_map.get_spec(k),
{
    let n0 = o.rules.rules@.len();
    assert forall|j: int| 0 <= j < n0
        && (#[trigger] mid.rule_map.get_spec(mid.rule_map_inv@[j]@)) == Some(j as usize)
        implies shape(SItem::Or(mid.rules.rules@[j]@)) == shape(fin(SItem::Or(o.rules.rules@[j]@), mid.rule_map.entries()).item) by {
        let k = mid.rule_map_inv@[j]@;
        assert(mid.rule_map_inv@[j] == s0.rule_map_inv@[j]);
        assert(drop_ids(SItem::Or(mid.rules.rules@[j]@)) == drop_ids(fin(SItem::Or(s0.rules.rules@[j]@), mid.rule_map.entries()).item));
        lemma_shape_drop(SItem::Or(mid.rules.rules@[j]@));
        lemma_shape_drop(fin(SItem::Or(s0.rules.rules@[j]@), mid.rule_map.entries()).item);
        if started0 {
            assert(s0.rule_map.get_spec(k) == Some(j as usize));
            assert(s0.rule_map.get_spec(s0.rule_map_inv@[j]@) == Some(j as usize));
            lemma_fin_shape_again(SItem::Or(s0.rules.rules@[j]@), SItem::Or(o.rules.rules@[j]@), m0.entries(), mid.rule_map.entries());
        } else {
            assert(s0.rules.rules@[j] == o.rules.rules@[j]);
        }
    }
    assert forall|j: int| 0 <= j < n0 implies #[trigger] mid.rule_map_inv@[j] == o.rule_map_inv@[j] by {
        assert(mid.rule_map_inv@[j] == s0.rule_map_inv@[j]);
    }
    assert forall|j: int| 0 <= j < n0 implies #[trigger] mid.rules.rules@[j].keep == o.rules.rules@[j].keep by {
        assert(mid.rules.rules@[j].keep == s0.rules.rules@[j].keep);
    }
    assert forall|j: int| n0 <= j < mid.rules.rules@.len() implies #[trigger] mid.rules.rules@[j].keep by {
        if j < s0.rules.rules@.len() {
            assert(s0.rules.rules@[j]@ == empty_or(true));
            assert(mid.rules.rules@[j].keep == s0.rules.rules@[j].keep);
        }
    }
    assert forall|j: int| n0 <= j < s0.rules.rules@.len() implies #[trigger] s0.rules.rules@[j].keep by {
        assert(s0.rules.rules@[j]@ == empty_or(true));
    }
    assert forall|w: Set<Seq<char>>, k: Seq<char>|
        #![trigger name_chain(o.rules.rules@, o.rule_map_inv@, o.rule_map, w), w.contains(k)]
        s1.rules.rules@.len() < usize::MAX - 1
        && name_chain(o.rules.rules@, o.rule_map_inv@, o.rule_map, w) && w.contains(k)
        implies s1.rule_map.get_spec(k) == o.rule_map.get_spec(k) by {
        assert forall|n: Seq<char>| #[trigger] w.contains(n) implies s0.rule_map.get_spec(n) == o.rule_map.get_spec(n) by {}
        lemma_chain_sufficient(o, s0, w, m0.entries(), started0);
        assert(w.subset_of(map_names(mid.rule_map.entries())));
        assert forall|n: Seq<char>| #[trigger] w.contains(n) implies mid.rule_map.get_spec(n) == o.rule_map.get_spec(n) by {
            assert(map_names(mid.rule_map.entries()).contains(n));
            assert(s0.rule_map.get_spec(n) is Some);
        }
        lemma_chain_found(o, mid, w);
        mid.rule_map.lemma_len_bound(mid.rules.rules@.len(), view_names(mid.rule_map_inv@));
        let j = o.rule_map.get_spec(k)->0 as int;
        assert(first_pass(mid.rules.rules@, mid.rule_map.entries(), mid.rule_map.entries().len()).contains(j as usize));
        assert(s1.rule_map.get_spec(mid.rule_map_inv@[j]@) == Some(j as usize));
        assert(o.rule_map_inv@[j]@ == k);
    }
}

impl RuleSet {
    /// The number of rules that are not kept and are the rule their name
    /// gives.
    fn count_unkept(&self) -> (r: usize)
        requires
            self.wf(),
        ensures
            r == unkept(self.rules.rules@, self.rule_map_inv@, self.rule_map, self.rules.rules@.len()),
    {
        let n = self.rules.rules.len();
        let mut count: usize = 0;
        let mut j: usize = 0;
        while j < n
            invariant
                j <= n,
                n == self.rules.rules@.len(),
                self.wf(),
                count == unkept(self.rules.rules@, self.rule_map_inv@, self.rule_map, j as nat),
                count <= j,
            decreases n - j,
        {
            let idx = self.rule_map.get(self.rule_map_inv[j].as_str());
            let is_own = match idx {
                Some(i) => i == j,
                None => false,
            };
            if is_own && !self.rules.rules[j].keep {
                count += 1;
            }
            j += 1;
        }
        count
    }

    /// Resolves the rules and computes their shortest reference lengths,
    /// again and again until a round removes no name. Returns `true` then.
    ///
    /// Returns `false`, and stops, after a round that removed names but left
    /// as many rules that are not kept and are the rule their name gives:
    /// such a round only removed names that a kept rule had taken over, and
    /// every later round would do the same again. On `false`, some name has
    /// lost its index while both a kept rule and a rule that is not kept
    /// carry it. So `true` is owed when no rule is kept at the start and no
    /// identifier is aimed at the name of a rule (`no_takeover`), and also
    /// when every identifier aimed at the name of a rule is aimed at a name
    /// of a `name_chain` (`ids_in_chain`), as those names are never removed.
    ///
    /// On `true`, every rule that has a name can be built from the named
    /// rules alone: its options only reach references, identifiers and
    /// definitions that name rules by the index of their name, it has an
    /// option unless it is kept, and it is productive unless it is kept. A
    /// plain rule, one that needs no other rule, keeps its name and gets
    /// shortest options, unless another rule that is not kept carries its
    /// name. Every rule that keeps its own name is, in shape, its original
    /// resolved against the final names: only the shortest options, the
    /// marker positions of definitions and the reference flags of optional
    /// items differ. Resolving any rule that has a name once more asks for
    /// no new rule: every identifier it needs names a rule.
    ///
    /// Whatever is returned, every name of a `name_chain` of the rules at the
    /// start keeps its index: rules that are not kept and can each be built
    /// from the rules of the chain before them in name order are never
    /// removed, as computing lengths passes over the names in that order.
    /// (The bound on the number of rules is one no rule set reaches.) A rule
    /// that needs a rule after it in name order is not covered: when names
    /// were removed before, a later round can find its length too late and
    /// remove its name, though it could be built.
    ///
    /// The rules grow only by kept rules without options, each named after
    /// an identifier of the rules at the start; in one pass, each rule that
    /// needs a missing identifier rule adds one, so two rules that need the
    /// same one add two rules of that name, of which the map keeps the last.
    #[verifier::rlimit(100)]
    #[verifier::spinoff_prover]
    pub fn finalize(&mut self) -> (r: bool)
        requires
            old(self).wf(),
        ensures
            final(self).wf(),
            final(self).rules.parent == old(self).rules.parent,
            r ==> forall|j: int| 0 <= j < final(self).rules.rules@.len()
                && (#[trigger] final(self).rule_map.get_spec(final(self).rule_map_inv@[j]@)) is Some ==> {
                &&& linked(SItem::Or(final(self).rules.rules@[j]@), final(self).rule_map.entries())
                &&& ready(SItem::Or(final(self).rules.rules@[j]@))
                &&& (final(self).rules.rules@[j]@.indices.len() > 0 || final(self).rules.rules@[j].keep)
            },
            r ==> forall|j: int| 0 <= j < final(self).rules.rules@.len()
                && (#[trigger] final(self).rule_map.get_spec(final(self).rule_map_inv@[j]@)) == Some(j as usize)
                ==> final(self).rules.rules@[j].keep
                    || productive(final(self).rules.rules@, final(self).rule_map_inv@, final(self).rule_map, j),
            r ==> forall|j: int| 0 <= j < final(self).rules.rules@.len()
                && (#[trigger] final(self).rule_map.get_spec(final(self).rule_map_inv@[j]@)) is Some
                ==> fin(SItem::Or(final(self).rules.rules@[j]@), final(self).rule_map.entries()).new_rules.len() == 0,
            !r ==> exists|k: Seq<char>| #[trigger] taken_over(final(self).rules.rules@, final(self).rule_map_inv@, final(self).rule_map, k),
            no_takeover(old(self).rules.rules@, old(self).rule_map_inv@) ==> r,
            forall|w: Set<Seq<char>>| #[trigger] name_chain(old(self).rules.rules@, old(self).rule_map_inv@, old(self).rule_map, w)
                && ids_in_chain(old(self).rules.rules@, old(self).rule_map_inv@, w)
                && final(self).rules.rules@.len() < usize::MAX - 1 ==> r,
            forall|j: int| 0 <= j < old(self).rules.rules@.len() ==> #[trigger] final(self).rules.rules@[j].keep == old(self).rules.rules@[j].keep,
            r ==> forall|j: int| #[trigger] plain_rule(old(self).rules.rules@, old(self).rule_map_inv@, old(self).rule_map, j)
                && sole_unkept(old(self).rules.rules@, old(self).rule_map_inv@, j)
                ==> final(self).rule_map.get_spec(old(self).rule_map_inv@[j]@) == Some(j as usize)
                    && has_shortest(final(self).rules.rules@[j]@),
            r ==> forall|j: int| 0 <= j < old(self).rules.rules@.len()
                && (#[trigger] final(self).rule_map.get_spec(final(self).rule_map_inv@[j]@)) == Some(j as usize)
                ==> shape(SItem::Or(final(self).rules.rules@[j]@))
                    == shape(fin(SItem::Or(old(self).rules.rules@[j]@), final(self).rule_map.entries()).item),
            forall|j: int| 0 <= j < old(self).rules.rules@.len()
                && (#[trigger] final(self).rule_map.get_spec(final(self).rule_map_inv@[j]@)) == Some(j as usize)
                ==> exists|m: RuleMap| shape(SItem::Or(final(self).rules.rules@[j]@))
                    == shape(fin(SItem::Or(old(self).rules.rules@[j]@), m.entries()).item),
            grown_by_ids(old(self).rules.rules@, final(self).rules.rules@, final(self).rule_map_inv@),
            forall|w: Set<Seq<char>>, k: Seq<char>|
                #![trigger name_chain(old(self).rules.rules@, old(self).rule_map_inv@, old(self).rule_map, w), w.contains(k)]
                final(self).rules.rules@.len() < usize::MAX - 1
                && name_chain(old(self).rules.rules@, old(self).rule_map_inv@, old(self).rule_map, w) && w.contains(k)
                ==> final(self).rule_map.get_spec(k) == old(self).rule_map.get_spec(k),
    {
        let mut count = self.count_unkept();
        let ghost mut started = false;
        let ghost mut mlast = self.rule_map;
        loop
            invariant
                self.wf(),
                old(self).wf(),
                self.rules.parent == old(self).rules.parent,
                count == unkept(self.rules.rules@, self.rule_map_inv@, self.rule_map, self.rules.rules@.len()),
                self.rules.rules@.len() >= old(self).rules.rules@.len(),
                forall|j: int| 0 <= j < old(self).rules.rules@.len() ==> #[trigger] self.rule_map_inv@[j] == old(self).rule_map_inv@[j],
                forall|j: int| #[trigger] plain_rule(old(self).rules.rules@, old(self).rule_map_inv@, old(self).rule_map, j)
                    && sole_unkept(old(self).rules.rules@, old(self).rule_map_inv@, j)
                    ==> plain_rule(self.rules.rules@, self.rule_map_inv@, self.rule_map, j)
                        && sole_unkept(self.rules.rules@, self.rule_map_inv@, j),
                !started ==> self.rules.rules@ == old(self).rules.rules@,
                all_names(view_ors(self.rules.rules@)).to_set() == all_names(view_ors(old(self).rules.rules@)).to_set(),
                grown_by_ids(old(self).rules.rules@, self.rules.rules@, self.rule_map_inv@),
                forall|j: int| 0 <= j < old(self).rules.rules@.len() ==> #[trigger] self.rules.rules@[j].keep == old(self).rules.rules@[j].keep,
                old(self).rule_map_inv@.len() == old(self).rules.rules@.len(),
                started ==> forall|j: int| 0 <= j < old(self).rules.rules@.len()
                    && (#[trigger] self.rule_map.get_spec(self.rule_map_inv@[j]@)) == Some(j as usize)
                    ==> shape(SItem::Or(self.rules.rules@[j]@)) == shape(fin(SItem::Or(old(self).rules.rules@[j]@), mlast.entries()).item),
                forall|w: Set<Seq<char>>, k: Seq<char>|
                    #![trigger name_chain(old(self).rules.rules@, old(self).rule_map_inv@, old(self).rule_map, w), w.contains(k)]
                    self.rules.rules@.len() < usize::MAX - 1
                    && name_chain(old(self).rules.rules@, old(self).rule_map_inv@, old(self).rule_map, w) && w.contains(k)
                    ==> self.rule_map.get_spec(k) == old(self).rule_map.get_spec(k),
            decreases count,
        {
            let ghost s0 = *self;
            let ghost started0 = started;
            let ghost m0 = mlast;
            let resolved_pruned = self.resolve_reachability();
            let ghost mid = *self;
            let ghost base = choose|base: Seq<SOr>| #![auto] settled(mid.rules.rules@, base, mid.rule_map_inv@, mid.rule_map)
                && buildable(base, mid.rule_map_inv@, mid.rule_map);
            proof {
                assert(settled(mid.rules.rules@, base, mid.rule_map_inv@, mid.rule_map));
                assert(buildable(base, mid.rule_map_inv@, mid.rule_map));
            }
            let length_pruned = self.calc_shortest_ref_length();
            proof {
                let s1 = *self;
                assert forall|j: int| #[trigger] plain_rule(s0.rules.rules@, s0.rule_map_inv@, s0.rule_map, j)
                    && sole_unkept(s0.rules.rules@, s0.rule_map_inv@, j)
                    implies plain_rule(s1.rules.rules@, s1.rule_map_inv@, s1.rule_map, j)
                        && sole_unkept(s1.rules.rules@, s1.rule_map_inv@, j)
                        && has_shortest(s1.rules.rules@[j]@) by {
                    let k = s0.rule_map_inv@[j]@;
                    let sk = set![k];
                    assert(self_sufficient(s0.rules.rules@, s0.rule_map_inv@, sk)) by {
                        assert forall|i: int| 0 <= i < s0.rules.rules@.len() && sk.contains(#[trigger] s0.rule_map_inv@[i]@)
                            implies s0.rules.rules@[i].keep || ok_with(SItem::Or(s0.rules.rules@[i]@), sk) by {
                            if i == j {
                                lemma_plain_ok(SItem::Or(s0.rules.rules@[j]@), sk);
                            }
                        }
                    }
                    assert(sk.subset_of(map_names(s0.rule_map.entries())));
                    assert(sk.subset_of(map_names(mid.rule_map.entries())));
                    assert(map_names(mid.rule_map.entries()).contains(k));
                    assert(mid.rule_map.get_spec(k) is Some);
                    assert(mid.rule_map.get_spec(k) == Some(j as usize));
                    assert(mid.rule_map_inv@[j] == s0.rule_map_inv@[j]);
                    assert(plain(SItem::Or(mid.rules.rules@[j]@)));
                    assert(mid.rules.rules@[j].keep == s0.rules.rules@[j].keep);
                    assert(sole_unkept(mid.rules.rules@, mid.rule_map_inv@, j)) by {
                        assert forall|i: int| 0 <= i < mid.rules.rules@.len() && i != j && #[trigger] mid.rule_map_inv@[i]@ == mid.rule_map_inv@[j]@
                            implies mid.rules.rules@[i].keep by {
                            if i < s0.rules.rules@.len() {
                                assert(mid.rule_map_inv@[i] == s0.rule_map_inv@[i]);
                                assert(s0.rules.rules@[i].keep);
                            }
                        }
                    }
                    lemma_plain_derivable(SItem::Or(mid.rules.rules@[j]@));
                    assert(free_rule(mid.rules.rules@, mid.rule_map_inv@, mid.rule_map, j));
                    assert(s1.rules.rules@[j].keep == mid.rules.rules@[j].keep);
                    assert(sole_unkept(s1.rules.rules@, s1.rule_map_inv@, j)) by {
                        assert forall|i: int| 0 <= i < s1.rules.rules@.len() && i != j && #[trigger] s1.rule_map_inv@[i]@ == s1.rule_map_inv@[j]@
                            implies s1.rules.rules@[i].keep by {
                            assert(s1.rules.rules@[i].keep == mid.rules.rules@[i].keep);
                            assert(mid.rule_map_inv@[i]@ == mid.rule_map_inv@[j]@);
                        }
                    }
                }
                assert forall|j: int| 0 <= j < old(self).rules.rules@.len() implies #[trigger] s1.rule_map_inv@[j] == old(self).rule_map_inv@[j] by {
                    assert(s0.rule_map_inv@[j] == old(self).rule_map_inv@[j]);
                    assert(mid.rule_map_inv@[j] == s0.rule_map_inv@[j]);
                }
                assert forall|j: int| 0 <= j < old(self).rules.rules@.len()
                    && (#[trigger] s1.rule_map.get_spec(s1.rule_map_inv@[j]@)) == Some(j as usize)
                    implies shape(SItem::Or(s1.rules.rules@[j]@)) == shape(fin(SItem::Or(old(self).rules.rules@[j]@), mid.rule_map.entries()).item) by {
                    let k = s1.rule_map_inv@[j]@;
                    assert(s1.rule_map_inv@[j] == mid.rule_map_inv@[j]);
                    assert(mid.rule_map_inv@[j] == s0.rule_map_inv@[j]);
                    assert(mid.rule_map.get_spec(k) == Some(j as usize));
                    assert(drop_ids(SItem::Or(mid.rules.rules@[j]@)) == drop_ids(fin(SItem::Or(s0.rules.rules@[j]@), mid.rule_map.entries()).item));
                    assert(shape(SItem::Or(s1.rules.rules@[j]@)) == shape(SItem::Or(mid.rules.rules@[j]@)));
                    lemma_shape_drop(SItem::Or(mid.rules.rules@[j]@));
                    lemma_shape_drop(fin(SItem::Or(s0.rules.rules@[j]@), mid.rule_map.entries()).item);
                    if started {
                        assert(s0.rule_map.get_spec(k) == Some(j as usize));
                        assert(s0.rule_map.get_spec(s0.rule_map_inv@[j]@) == Some(j as usize));
                        lemma_fin_shape_again(SItem::Or(s0.rules.rules@[j]@), SItem::Or(old(self).rules.rules@[j]@), mlast.entries(), mid.rule_map.entries());
                    } else {
                        assert(s0.rules.rules@[j] == old(self).rules.rules@[j]);
                    }
                }
                started = true;
                mlast = mid.rule_map;
                let a0 = all_names(view_ors(old(self).rules.rules@));
                assert forall|j: int| 0 <= j < view_ors(s1.rules.rules@).len()
                    implies #[trigger] shape(SItem::Or(view_ors(s1.rules.rules@)[j])) == shape(SItem::Or(view_ors(mid.rules.rules@)[j])) by {
                    assert(shape(SItem::Or(s1.rules.rules@[j]@)) == shape(SItem::Or(mid.rules.rules@[j]@)));
                }
                lemma_all_names_shape(view_ors(s1.rules.rules@), view_ors(mid.rules.rules@));
                assert forall|j: int| old(self).rules.rules@.len() <= j < s1.rules.rules@.len() implies {
                    &&& (#[trigger] s1.rules.rules@[j])@ == empty_or(true)
                    &&& a0.contains(s1.rule_map_inv@[j]@)
                } by {
                    assert(s1.rule_map_inv@[j] == mid.rule_map_inv@[j]);
                    if j < s0.rules.rules@.len() {
                        assert(s0.rules.rules@[j]@ == empty_or(true));
                        assert(mid.rules.rules@[j]@ == empty_or(true));
                        assert(mid.rule_map_inv@[j] == s0.rule_map_inv@[j]);
                    } else {
                        assert(mid.rules.rules@[j]@ == empty_or(true));
                        let nm = mid.rule_map_inv@[j]@;
                        assert(all_names(view_ors(s0.rules.rules@)).contains(nm));
                        assert(all_names(view_ors(s0.rules.rules@)).to_set().contains(nm));
                        assert(a0.to_set().contains(nm));
                    }
                }
                assert(s1.rules.rules@.len() >= old(self).rules.rules@.len());
                assert(grown_by_ids(old(self).rules.rules@, s1.rules.rules@, s1.rule_map_inv@));
                assert forall|j: int| 0 <= j < old(self).rules.rules@.len() implies #[trigger] s1.rules.rules@[j].keep == old(self).rules.rules@[j].keep by {
                    assert(s1.rules.rules@[j].keep == mid.rules.rules@[j].keep);
                    assert(mid.rules.rules@[j].keep == s0.rules.rules@[j].keep);
                }
            }
            proof {
                lemma_chain_round(*old(self), s0, mid, *self, m0, started0);
            }
            if resolved_pruned == 0 && length_pruned == 0 {
                proof {
                    assert(self.rule_map == mid.rule_map);
                    assert forall|j: int| 0 <= j < self.rules.rules@.len()
                        && (#[trigger] self.rule_map.get_spec(self.rule_map_inv@[j]@)) is Some implies {
                        &&& linked(SItem::Or(self.rules.rules@[j]@), self.rule_map.entries())
                        &&& ready(SItem::Or(self.rules.rules@[j]@))
                        &&& (self.rules.rules@[j]@.indices.len() > 0 || self.rules.rules@[j].keep)
                    } by {
                        assert(mid.rule_map.get_spec(mid.rule_map_inv@[j]@) is Some);
                        assert(SItem::Or(mid.rules.rules@[j]@) == fin(SItem::Or(base[j]), mid.rule_map.entries()).item);
                        assert(fin(SItem::Or(base[j]), mid.rule_map.entries()).ok || base[j].keep);
                    }
                    assert forall|j: int| 0 <= j < self.rules.rules@.len()
                        && (#[trigger] self.rule_map.get_spec(self.rule_map_inv@[j]@)) == Some(j as usize) implies
                        self.rules.rules@[j].keep || productive(self.rules.rules@, self.rule_map_inv@, self.rule_map, j) by {
                        lemma_productive_same(self.rules.rules@, mid.rules.rules@, self.rule_map_inv@, self.rule_map, j);
                    }
                    assert forall|j: int| 0 <= j < self.rules.rules@.len()
                        && (#[trigger] self.rule_map.get_spec(self.rule_map_inv@[j]@)) is Some
                        implies fin(SItem::Or(self.rules.rules@[j]@), self.rule_map.entries()).new_rules.len() == 0 by {
                        let mp = self.rule_map.entries();
                        assert(mid.rule_map.get_spec(mid.rule_map_inv@[j]@) is Some);
                        assert(SItem::Or(mid.rules.rules@[j]@) == fin(SItem::Or(base[j]), mp).item);
                        assert(shape(SItem::Or(self.rules.rules@[j]@)) == shape(SItem::Or(mid.rules.rules@[j]@)));
                        lemma_fin_shape_again(SItem::Or(self.rules.rules@[j]@), SItem::Or(base[j]), mp, mp);
                        lemma_fin_shape_again(SItem::Or(mid.rules.rules@[j]@), SItem::Or(base[j]), mp, mp);
                    }
                }
                return true;
            }
            let new_count = self.count_unkept();
            if new_count >= count {
                proof {
                    let s1 = *self;
                    let n0 = s0.rules.rules@.len();
                    let n1 = s1.rules.rules@.len();
                    assert forall|j: int| 0 <= j < n0 && #[trigger] s1.rule_map.get_spec(s1.rule_map_inv@[j]@) == Some(j as usize)
                        && !s1.rules.rules@[j].keep
                        implies s0.rule_map.get_spec(s0.rule_map_inv@[j]@) == Some(j as usize) && !s0.rules.rules@[j].keep by {
                        assert(mid.rule_map.get_spec(s1.rule_map_inv@[j]@) == Some(j as usize));
                        assert(s1.rule_map_inv@[j] == mid.rule_map_inv@[j]);
                        assert(mid.rule_map_inv@[j] == s0.rule_map_inv@[j]);
                        assert(s1.rules.rules@[j].keep == mid.rules.rules@[j].keep);
                        assert(mid.rules.rules@[j].keep == s0.rules.rules@[j].keep);
                    }
                    assert forall|j: int| n0 <= j < n1 implies #[trigger] s1.rules.rules@[j].keep by {
                        assert(s1.rules.rules@[j].keep == mid.rules.rules@[j].keep);
                    }
                    lemma_unkept_tail(s1.rules.rules@, s1.rule_map_inv@, s1.rule_map, n0, n1);
                    lemma_unkept_le(s0.rules.rules@, s0.rule_map_inv@, s0.rule_map, s1.rules.rules@, s1.rule_map_inv@, s1.rule_map, n0);
                    // a rule that is not kept and lost its own name would have lowered the count
                    assert forall|i: int, k: Seq<char>| #![trigger mid.rule_map_inv@[i], s1.rule_map.get_spec(k)] 0 <= i < n1 && mid.rule_map_inv@[i]@ == k
                        && s1.rule_map.get_spec(k) is None && !mid.rules.rules@[i].keep
                        && (i < n0 ==> s0.rule_map.get_spec(k) == Some(i as usize)) implies false by {
                        if i >= n0 {
                            assert(mid.rules.rules@[i].keep);
                        } else {
                            assert(s0.rule_map_inv@[i] == mid.rule_map_inv@[i]);
                            assert(s1.rule_map_inv@[i] == mid.rule_map_inv@[i]);
                            assert(s1.rules.rules@[i].keep == mid.rules.rules@[i].keep);
                            assert(mid.rules.rules@[i].keep == s0.rules.rules@[i].keep);
                            assert(s0.rule_map.get_spec(s0.rule_map_inv@[i]@) == Some(i as usize));
                        }
                    }
                    if resolved_pruned > 0 {
                        let (k, i) = choose|k: Seq<char>, i: int| #[trigger] dropped_name(mid.rules.rules@, mid.rule_map_inv@,
                            s0.rule_map, n0 as int, k, i) && mid.rule_map.get_spec(k) is None;
                        assert forall|j: int| 0 <= j < mid.rules.rules@.len() implies #[trigger] s1.rules.rules@[j].keep == mid.rules.rules@[j].keep by {}
                        lemma_dropped_extend(mid.rules.rules@, mid.rule_map_inv@, s1.rules.rules@, s1.rule_map_inv@, s0.rule_map, n0 as int, k, i);
                        assert(s1.rule_map.get_spec(k) is None);
                        assert(mid.rules.rules@[i].keep);
                        assert(s1.rules.rules@[i].keep);
                        assert(s1.rule_map_inv@[i]@ == k);
                        assert(taken_over(s1.rules.rules@, s1.rule_map_inv@, s1.rule_map, k));
                    } else {
                        assert(length_pruned > 0);
                        let k = choose|k: Seq<char>| (#[trigger] mid.rule_map.get_spec(k)) is Some && s1.rule_map.get_spec(k) is None;
                        let i = mid.rule_map.get_spec(k)->0 as int;
                        assert(mid.rule_map_inv@[i]@ == k);
                        if i < n0 {
                            assert(s0.rule_map.get_spec(k) == Some(i as usize));
                        }
                        assert(mid.rules.rules@[i].keep);
                        let j = choose|j: int| 0 <= j < mid.rules.rules@.len() && mid.rule_map_inv@[j]@ == k && !mid.rules.rules@[j].keep;
                        assert(s1.rules.rules@[i].keep == mid.rules.rules@[i].keep);
                        assert(s1.rules.rules@[j].keep == mid.rules.rules@[j].keep);
                        assert(s1.rule_map_inv@[i]@ == k);
                        assert(s1.rule_map_inv@[j]@ == k);
                        assert(taken_over(s1.rules.rules@, s1.rule_map_inv@, s1.rule_map, k));
                    }
                }
                proof {
                    let k = choose|k: Seq<char>| #[trigger] taken_over(self.rules.rules@, self.rule_map_inv@, self.rule_map, k);
                    lemma_taken_over_needs(old(self).rules.rules@, old(self).rule_map_inv@, self.rules.rules@, self.rule_map_inv@, self.rule_map, k);
                    assert forall|w: Set<Seq<char>>| #[trigger] name_chain(old(self).rules.rules@, old(self).rule_map_inv@, old(self).rule_map, w)
                        && ids_in_chain(old(self).rules.rules@, old(self).rule_map_inv@, w)
                        && self.rules.rules@.len() < usize::MAX - 1 implies false by {
                        assert forall|n: Seq<char>| #[trigger] w.contains(n) implies self.rule_map.get_spec(n) == old(self).rule_map.get_spec(n) by {}
                        lemma_taken_over_chain(*old(self), self.rules.rules@, self.rule_map_inv@, self.rule_map, k, w);
                    }
                }
                return false;
            }
            count = new_count;
        }
    }
}

} // verus!
