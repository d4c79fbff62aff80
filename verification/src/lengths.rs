//! Shortest reference lengths: how many nested references an item needs at
//! least before it can be written out.
use vstd::prelude::*;
use crate::fields::{SItem, SOr, Item, And, Or, Ref, Opt, Mul, Id, PreId, view_items, lemma_view_items, small, lemma_small_seq};

verus! {

/// The known length of rule `i` (zero when unknown).
pub open spec fn known_len(lengths: Seq<usize>, i: usize) -> usize {
    if i < lengths.len() {
        lengths[i as int]
    } else {
        0
    }
}

/// The length of a reference to a rule of length `l`: one more, or zero
/// (unknown) when `l` is unknown or has no successor.
pub open spec fn ref_len(l: usize) -> usize {
    if l == 0 || l == usize::MAX {
        0
    } else {
        (l + 1) as usize
    }
}

/// An item with its recomputed shortest options and the length found.
pub struct Calc {
    pub item: SItem,
    pub len: usize,
}

/// The items of a sequence with their lengths computed: the items, whether
/// every length is known, and the largest length.
pub struct CalcSeq {
    pub items: Seq<SItem>,
    pub all: bool,
    pub max: usize,
}

/// Every reference that computing the length of `item` meets is resolved,
/// and every option index it meets is in range.
pub open spec fn ready(item: SItem) -> bool
    decreases item, 0nat,
{
    match item {
        SItem::And { sep, items } => ready_seq(items),
        SItem::Or(o) => ready_or(o, o.indices.len()),
        SItem::Ref { name, idx } => idx is Some,
        SItem::Opt { inner, has_refs } => ready(*inner),
        SItem::Mul { inner, min, max } => ready(*inner),
        SItem::PreId { name, idx, sep, items, ids } => ready_seq(items),
        _ => true,
    }
}

pub open spec fn ready_seq(items: Seq<SItem>) -> bool
    decreases items, 0nat,
{
    items.len() == 0 || (ready_seq(items.drop_last()) && ready(items.last()))
}

pub open spec fn ready_or(o: SOr, k: nat) -> bool
    decreases o, k,
{
    if k == 0 || k > o.indices.len() {
        true
    } else {
        let idx = o.indices[k - 1];
        ready_or(o, (k - 1) as nat) && idx < o.choices.len() && ready(o.choices[idx as int])
    }
}

/// Computing the length of `item` from the known rule lengths, recomputing
/// the shortest options of the choices it holds on the way.
pub open spec fn ref_calc(item: SItem, lengths: Seq<usize>) -> Calc
    decreases item, 0nat,
{
    match item {
        SItem::And { sep, items } => {
            let c = calc_seq(items, lengths);
            Calc { item: SItem::And { sep, items: c.items }, len: if c.all { c.max } else { 0 } }
        },
        SItem::Or(o) => {
            let m = or_min(o, o.indices.len(), lengths);
            let m1: usize = if m == usize::MAX { 0 } else { m };
            Calc {
                item: SItem::Or(SOr {
                    choices: or_choices(o, o.choices.len(), lengths),
                    shortest: or_shortest(o, o.choices.len(), lengths, m),
                    indices: o.indices,
                    keep: o.keep,
                }),
                len: if o.keep && m1 == 0 { 1 } else { m1 },
            }
        },
        SItem::Ref { name, idx } => Calc {
            item,
            len: match idx {
                Some(i) => ref_len(known_len(lengths, i)),
                None => 0,
            },
        },
        SItem::Opt { inner, has_refs } => {
            let c = ref_calc(*inner, lengths);
            Calc { item: SItem::Opt { inner: Box::new(c.item), has_refs: has_refs || c.len > 1 }, len: c.len }
        },
        SItem::Mul { inner, min, max } => {
            let c = ref_calc(*inner, lengths);
            Calc { item: SItem::Mul { inner: Box::new(c.item), min, max }, len: c.len }
        },
        SItem::PreId { name, idx, sep, items, ids } => {
            let c = calc_seq(items, lengths);
            Calc { item: SItem::PreId { name, idx, sep, items: c.items, ids }, len: if c.all { c.max } else { 0 } }
        },
        _ => Calc { item, len: 1 },
    }
}

/// Computing the length of each item of a sequence: every length must be
/// known, and the largest one counts.
pub open spec fn calc_seq(items: Seq<SItem>, lengths: Seq<usize>) -> CalcSeq
    decreases items, 0nat,
{
    if items.len() == 0 {
        CalcSeq { items: Seq::empty(), all: true, max: 0 }
    } else {
        let p = calc_seq(items.drop_last(), lengths);
        let c = ref_calc(items.last(), lengths);
        CalcSeq {
            items: p.items.push(c.item),
            all: p.all && c.len != 0,
            max: if c.len != 0 && c.len > p.max { c.len } else { p.max },
        }
    }
}

/// The smallest known length among the first `k` options that can be
/// built (`usize::MAX` when there is none).
pub open spec fn or_min(o: SOr, k: nat, lengths: Seq<usize>) -> usize
    decreases o, k,
{
    if k == 0 || k > o.indices.len() {
        usize::MAX
    } else {
        let m = or_min(o, (k - 1) as nat, lengths);
        let idx = o.indices[k - 1];
        let l = if idx < o.choices.len() { ref_calc(o.choices[idx as int], lengths).len } else { 0 };
        if l < m && l != 0 { l } else { m }
    }
}

/// The first `j` choices, each recomputed if it is an option that can be
/// built.
pub open spec fn or_choices(o: SOr, j: nat, lengths: Seq<usize>) -> Seq<SItem>
    decreases o, j,
{
    if j == 0 || j > o.choices.len() {
        Seq::empty()
    } else {
        let c = o.choices[j - 1];
        or_choices(o, (j - 1) as nat, lengths).push(
            if o.indices.contains((j - 1) as usize) { ref_calc(c, lengths).item } else { c },
        )
    }
}

/// The choices among the first `t` that are options and have length `m`,
/// each once, in ascending order.
pub open spec fn or_shortest(o: SOr, t: nat, lengths: Seq<usize>, m: usize) -> Seq<usize>
    decreases o, t,
{
    if t == 0 || t > o.choices.len() {
        Seq::empty()
    } else {
        let p = or_shortest(o, (t - 1) as nat, lengths, m);
        let c = (t - 1) as int;
        if o.indices.contains(c as usize) && ref_calc(o.choices[c], lengths).len == m {
            p.push(c as usize)
        } else {
            p
        }
    }
}


pub proof fn lemma_ready_seq(items: Seq<SItem>)
    requires
        ready_seq(items),
    ensures
        forall|i: int| 0 <= i < items.len() ==> ready(#[trigger] items[i]),
    decreases items.len(),
{
    if items.len() > 0 {
        lemma_ready_seq(items.drop_last());
        assert forall|i: int| 0 <= i < items.len() implies ready(#[trigger] items[i]) by {
            if i < items.len() - 1 {
                assert(items.drop_last()[i] == items[i]);
            }
        }
    }
}

pub proof fn lemma_ready_or(o: SOr, k: nat)
    requires
        ready_or(o, k),
        k <= o.indices.len(),
    ensures
        forall|i: int| 0 <= i < k ==> #[trigger] o.indices[i] < o.choices.len(),
        forall|i: int| 0 <= i < k ==> ready(#[trigger] o.choices[o.indices[i] as int]),
    decreases k,
{
    if k > 0 {
        let k1 = (k - 1) as nat;
        lemma_ready_or(o, k1);
        let idx = o.indices[k1 as int];
        assert(idx < o.choices.len() && ready(o.choices[idx as int]));
    }
}

pub proof fn lemma_ready_seq_intro(items: Seq<SItem>)
    requires
        forall|i: int| 0 <= i < items.len() ==> ready(#[trigger] items[i]),
    ensures
        ready_seq(items),
    decreases items.len(),
{
    if items.len() > 0 {
        let d = items.drop_last();
        assert forall|i: int| 0 <= i < d.len() implies ready(#[trigger] d[i]) by {
            assert(d[i] == items[i]);
        }
        lemma_ready_seq_intro(d);
        assert(ready(items[items.len() - 1]));
    }
}

pub proof fn lemma_ready_or_intro(o: SOr, k: nat)
    requires
        k <= o.indices.len(),
        forall|i: int| 0 <= i < k ==> #[trigger] o.indices[i] < o.choices.len(),
        forall|i: int| 0 <= i < k ==> ready(#[trigger] o.choices[o.indices[i] as int]),
    ensures
        ready_or(o, k),
    decreases k,
{
    if k > 0 {
        lemma_ready_or_intro(o, (k - 1) as nat);
        let i = k - 1;
        assert(o.indices[i] < o.choices.len());
        assert(ready(o.choices[o.indices[i] as int]));
    }
}

/// The first `j` recomputed choices: those that are options are recomputed,
/// the others are kept.
pub proof fn lemma_or_choices(o: SOr, j: nat, lengths: Seq<usize>)
    requires
        j <= o.choices.len(),
    ensures
        or_choices(o, j, lengths).len() == j,
        forall|t: int| 0 <= t < j ==> #[trigger] or_choices(o, j, lengths)[t] == if o.indices.contains(t as usize) {
            ref_calc(o.choices[t], lengths).item
        } else {
            o.choices[t]
        },
    decreases j,
{
    if j > 0 {
        lemma_or_choices(o, (j - 1) as nat, lengths);
    }
}

pub proof fn lemma_take_contains(s: Seq<usize>, k: int, x: usize)
    requires
        0 <= k < s.len(),
    ensures
        s.take(k + 1).contains(x) == (s.take(k).contains(x) || s[k] == x),
{
    let s1 = s.take(k + 1);
    let s0 = s.take(k);
    if s1.contains(x) {
        let t = choose|t: int| 0 <= t < s1.len() && #[trigger] s1[t] == x;
        if t < k {
            assert(s0[t] == x);
        }
    }
    if s0.contains(x) {
        let t = choose|t: int| 0 <= t < s0.len() && #[trigger] s0[t] == x;
        assert(s1[t] == x);
    }
    if s[k] == x {
        assert(s1[k] == x);
    }
}

/// Computing lengths keeps an item ready.
pub proof fn lemma_calc_ready(item: SItem, lengths: Seq<usize>)
    requires
        ready(item),
    ensures
        ready(ref_calc(item, lengths).item),
    decreases item, 1nat,
{
    match item {
        SItem::And { sep, items } => {
            lemma_calc_seq_ready(items, lengths);
        },
        SItem::Or(o) => {
            let m = or_min(o, o.indices.len(), lengths);
            let o1 = SOr {
                choices: or_choices(o, o.choices.len(), lengths),
                shortest: or_shortest(o, o.choices.len(), lengths, m),
                indices: o.indices,
                keep: o.keep,
            };
            lemma_or_choices(o, o.choices.len(), lengths);
            lemma_ready_or(o, o.indices.len());
            assert forall|i: int| 0 <= i < o1.indices.len() implies ready(#[trigger] o1.choices[o1.indices[i] as int]) by {
                let c = o.indices[i] as int;
                assert(o.indices.contains(c as usize));
                assert(decreases_to!(item => o.choices[c]));
                lemma_calc_ready(o.choices[c], lengths);
            }
            assert forall|i: int| 0 <= i < o1.indices.len() implies #[trigger] o1.indices[i] < o1.choices.len() by {
                assert(o.indices[i] < o.choices.len());
            }
            lemma_ready_or_intro(o1, o1.indices.len());
        },
        SItem::Opt { inner, has_refs } => {
            lemma_calc_ready(*inner, lengths);
        },
        SItem::Mul { inner, min, max } => {
            lemma_calc_ready(*inner, lengths);
        },
        SItem::PreId { name, idx, sep, items, ids } => {
            lemma_calc_seq_ready(items, lengths);
        },
        _ => {},
    }
}

pub proof fn lemma_calc_seq_ready(items: Seq<SItem>, lengths: Seq<usize>)
    requires
        ready_seq(items),
    ensures
        ready_seq(calc_seq(items, lengths).items),
        calc_seq(items, lengths).items.len() == items.len(),
        forall|j: int| 0 <= j < items.len() ==> #[trigger] calc_seq(items, lengths).items[j] == ref_calc(items[j], lengths).item,
    decreases items, 0nat,
{
    if items.len() > 0 {
        let d = items.drop_last();
        lemma_calc_seq_ready(d, lengths);
        lemma_calc_ready(items.last(), lengths);
        let out = calc_seq(items, lengths).items;
        assert(out.drop_last() =~= calc_seq(d, lengths).items);
        assert forall|j: int| 0 <= j < items.len() implies #[trigger] out[j] == ref_calc(items[j], lengths).item by {
            if j < d.len() {
                assert(d[j] == items[j]);
            }
        }
    }
}

/// Whether `item` can be written out when the rules in `s` can: a
/// reference must lead into `s`, a sequence must be non-empty with every
/// item derivable, a choice must be kept or have a derivable option.
/// This is the shape of item whose computed length can be known.
pub open spec fn derivable(item: SItem, s: Set<usize>) -> bool
    decreases item, 0nat,
{
    match item {
        SItem::And { sep, items } => items.len() > 0 && derivable_all(items, s),
        SItem::Or(o) => o.keep || derivable_or(o, o.indices.len(), s),
        SItem::Ref { name, idx } => match idx {
            Some(i) => s.contains(i),
            None => false,
        },
        SItem::Opt { inner, has_refs } => derivable(*inner, s),
        SItem::Mul { inner, min, max } => derivable(*inner, s),
        SItem::PreId { name, idx, sep, items, ids } => items.len() > 0 && derivable_all(items, s),
        _ => true,
    }
}

pub open spec fn derivable_all(items: Seq<SItem>, s: Set<usize>) -> bool
    decreases items, 0nat,
{
    items.len() == 0 || (derivable_all(items.drop_last(), s) && derivable(items.last(), s))
}

/// One of the first `k` options of `o` is derivable.
pub open spec fn derivable_or(o: SOr, k: nat, s: Set<usize>) -> bool
    decreases o, k,
{
    if k == 0 || k > o.indices.len() {
        false
    } else {
        let idx = o.indices[k - 1];
        derivable_or(o, (k - 1) as nat, s) || (idx < o.choices.len() && derivable(o.choices[idx as int], s))
    }
}

/// A known length is only computed for a derivable item, when every rule
/// whose length is known lies in `s`.
pub proof fn lemma_known_derivable(item: SItem, lengths: Seq<usize>, s: Set<usize>)
    requires
        forall|i: usize| #[trigger] known_len(lengths, i) != 0 ==> s.contains(i),
    ensures
        ref_calc(item, lengths).len != 0 ==> derivable(item, s),
    decreases item, 1nat,
{
    match item {
        SItem::And { sep, items } => {
            lemma_known_derivable_seq(items, lengths, s);
        },
        SItem::Or(o) => {
            lemma_known_derivable_or(o, o.indices.len(), lengths, s);
        },
        SItem::Ref { name, idx } => {
            if let Some(i) = idx {
                assert(known_len(lengths, i) != 0 || ref_calc(item, lengths).len == 0);
            }
        },
        SItem::Opt { inner, has_refs } => {
            lemma_known_derivable(*inner, lengths, s);
        },
        SItem::Mul { inner, min, max } => {
            lemma_known_derivable(*inner, lengths, s);
        },
        SItem::PreId { name, idx, sep, items, ids } => {
            lemma_known_derivable_seq(items, lengths, s);
        },
        _ => {},
    }
}

pub proof fn lemma_known_derivable_seq(items: Seq<SItem>, lengths: Seq<usize>, s: Set<usize>)
    requires
        forall|i: usize| #[trigger] known_len(lengths, i) != 0 ==> s.contains(i),
    ensures
        calc_seq(items, lengths).all ==> derivable_all(items, s),
        calc_seq(items, lengths).max != 0 ==> items.len() > 0,
    decreases items, 0nat,
{
    if items.len() > 0 {
        lemma_known_derivable_seq(items.drop_last(), lengths, s);
        lemma_known_derivable(items.last(), lengths, s);
    }
}

pub proof fn lemma_known_derivable_or(o: SOr, k: nat, lengths: Seq<usize>, s: Set<usize>)
    requires
        forall|i: usize| #[trigger] known_len(lengths, i) != 0 ==> s.contains(i),
    ensures
        or_min(o, k, lengths) != usize::MAX ==> derivable_or(o, k, s),
    decreases o, k,
{
    if k > 0 && k <= o.indices.len() {
        let k1 = (k - 1) as nat;
        lemma_known_derivable_or(o, k1, lengths, s);
        let idx = o.indices[k1 as int];
        if idx < o.choices.len() {
            assert(decreases_to!(o => o.choices[idx as int]));
            lemma_known_derivable(o.choices[idx as int], lengths, s);
        }
    }
}

/// Computing lengths leaves whether an item is derivable as it was.
pub proof fn lemma_calc_derivable(item: SItem, lengths: Seq<usize>, s: Set<usize>)
    requires
        ready(item),
    ensures
        derivable(ref_calc(item, lengths).item, s) == derivable(item, s),
    decreases item, 1nat,
{
    match item {
        SItem::And { sep, items } => {
            lemma_calc_derivable_seq(items, lengths, s);
        },
        SItem::Or(o) => {
            let m = or_min(o, o.indices.len(), lengths);
            let o1 = SOr {
                choices: or_choices(o, o.choices.len(), lengths),
                shortest: or_shortest(o, o.choices.len(), lengths, m),
                indices: o.indices,
                keep: o.keep,
            };
            lemma_or_choices(o, o.choices.len(), lengths);
            lemma_calc_derivable_or(o, o1, o.indices.len(), lengths, s);
        },
        SItem::Opt { inner, has_refs } => {
            lemma_calc_derivable(*inner, lengths, s);
        },
        SItem::Mul { inner, min, max } => {
            lemma_calc_derivable(*inner, lengths, s);
        },
        SItem::PreId { name, idx, sep, items, ids } => {
            lemma_calc_derivable_seq(items, lengths, s);
        },
        _ => {},
    }
}

pub proof fn lemma_calc_derivable_seq(items: Seq<SItem>, lengths: Seq<usize>, s: Set<usize>)
    requires
        ready_seq(items),
    ensures
        calc_seq(items, lengths).items.len() == items.len(),
        derivable_all(calc_seq(items, lengths).items, s) == derivable_all(items, s),
    decreases items, 0nat,
{
    if items.len() > 0 {
        let d = items.drop_last();
        lemma_calc_derivable_seq(d, lengths, s);
        lemma_calc_derivable(items.last(), lengths, s);
        let out = calc_seq(items, lengths).items;
        assert(out.drop_last() =~= calc_seq(d, lengths).items);
    }
}

pub proof fn lemma_calc_derivable_or(o: SOr, o1: SOr, k: nat, lengths: Seq<usize>, s: Set<usize>)
    requires
        ready_or(o, o.indices.len()),
        k <= o.indices.len(),
        o1.indices == o.indices,
        o1.choices.len() == o.choices.len(),
        forall|t: int| 0 <= t < o.choices.len() ==> #[trigger] o1.choices[t] == if o.indices.contains(t as usize) {
            ref_calc(o.choices[t], lengths).item
        } else {
            o.choices[t]
        },
    ensures
        derivable_or(o1, k, s) == derivable_or(o, k, s),
    decreases o, k,
{
    if k > 0 {
        let k1 = (k - 1) as nat;
        lemma_calc_derivable_or(o, o1, k1, lengths, s);
        lemma_ready_or(o, o.indices.len());
        let idx = o.indices[k1 as int];
        assert(o.indices.contains(idx));
        assert(decreases_to!(o => o.choices[idx as int]));
        lemma_calc_derivable(o.choices[idx as int], lengths, s);
    }
}

/// An item that is derivable from no rule at all has a known length,
/// whatever lengths are known.
pub proof fn lemma_free_known(item: SItem, lengths: Seq<usize>)
    requires
        derivable(item, Set::empty()),
    ensures
        0 < ref_calc(item, lengths).len < usize::MAX,
    decreases item, 1nat,
{
    match item {
        SItem::And { sep, items } => {
            lemma_free_known_seq(items, lengths);
        },
        SItem::Or(o) => {
            lemma_or_min_nonzero(o, o.indices.len(), lengths);
            if !o.keep {
                lemma_free_known_or(o, o.indices.len(), lengths);
            }
        },
        SItem::Opt { inner, has_refs } => {
            lemma_free_known(*inner, lengths);
        },
        SItem::Mul { inner, min, max } => {
            lemma_free_known(*inner, lengths);
        },
        SItem::PreId { name, idx, sep, items, ids } => {
            lemma_free_known_seq(items, lengths);
        },
        _ => {},
    }
}

pub proof fn lemma_free_known_seq(items: Seq<SItem>, lengths: Seq<usize>)
    requires
        derivable_all(items, Set::empty()),
    ensures
        calc_seq(items, lengths).all,
        calc_seq(items, lengths).max < usize::MAX,
        items.len() > 0 ==> calc_seq(items, lengths).max > 0,
    decreases items, 0nat,
{
    if items.len() > 0 {
        lemma_free_known_seq(items.drop_last(), lengths);
        lemma_free_known(items.last(), lengths);
    }
}

pub proof fn lemma_free_known_or(o: SOr, k: nat, lengths: Seq<usize>)
    requires
        derivable_or(o, k, Set::empty()),
    ensures
        or_min(o, k, lengths) < usize::MAX,
    decreases o, k,
{
    if k > 0 && k <= o.indices.len() {
        let k1 = (k - 1) as nat;
        let idx = o.indices[k1 as int];
        if derivable_or(o, k1, Set::empty()) {
            lemma_free_known_or(o, k1, lengths);
        } else {
            assert(decreases_to!(o => o.choices[idx as int]));
            lemma_free_known(o.choices[idx as int], lengths);
        }
    }
}

/// The smallest length among options is never zero.
pub proof fn lemma_or_min_nonzero(o: SOr, k: nat, lengths: Seq<usize>)
    ensures
        or_min(o, k, lengths) != 0,
    decreases k,
{
    if k > 0 && k <= o.indices.len() {
        lemma_or_min_nonzero(o, (k - 1) as nat, lengths);
    }
}

/// A smallest length that is found is the length of one of the options.
pub proof fn lemma_or_min_found(o: SOr, k: nat, lengths: Seq<usize>)
    requires
        or_min(o, k, lengths) != usize::MAX,
    ensures
        exists|i: int| 0 <= i < k && i < o.indices.len() && #[trigger] o.indices[i] < o.choices.len()
            && ref_calc(o.choices[o.indices[i] as int], lengths).len == or_min(o, k, lengths),
    decreases k,
{
    if k > 0 && k <= o.indices.len() {
        let k1 = (k - 1) as nat;
        let m = or_min(o, k1, lengths);
        let idx = o.indices[k1 as int];
        let l = if idx < o.choices.len() { ref_calc(o.choices[idx as int], lengths).len } else { 0 };
        if l < m && l != 0 {
            assert(o.indices[k1 as int] < o.choices.len());
        } else {
            lemma_or_min_found(o, k1, lengths);
        }
    }
}

/// The options listed as shortest are options, and each option of length
/// `m` among the first `t` choices is listed.
pub proof fn lemma_or_shortest(o: SOr, t: nat, lengths: Seq<usize>, m: usize)
    requires
        t <= o.choices.len(),
    ensures
        forall|x: usize| #[trigger] or_shortest(o, t, lengths, m).contains(x) ==> o.indices.contains(x),
        forall|c: int| 0 <= c < t && o.indices.contains(c as usize)
            && #[trigger] ref_calc(o.choices[c], lengths).len == m
            ==> or_shortest(o, t, lengths, m).contains(c as usize),
    decreases t,
{
    if t > 0 {
        let t1 = (t - 1) as nat;
        lemma_or_shortest(o, t1, lengths, m);
        let p = or_shortest(o, t1, lengths, m);
        let c0 = t1 as int;
        let s = or_shortest(o, t, lengths, m);
        assert forall|x: usize| #[trigger] s.contains(x) implies o.indices.contains(x) by {
            if !p.contains(x) {
                assert(s == p.push(c0 as usize));
                let q = choose|q: int| 0 <= q < s.len() && s[q] == x;
                assert(q == p.len());
            }
        }
        assert forall|c: int| 0 <= c < t && o.indices.contains(c as usize)
            && #[trigger] ref_calc(o.choices[c], lengths).len == m implies s.contains(c as usize) by {
            if c < t1 {
                assert(p.contains(c as usize));
                let q = choose|q: int| 0 <= q < p.len() && p[q] == c as usize;
                if s != p {
                    assert(s == p.push(c0 as usize));
                    assert(s[q] == p[q]);
                }
            } else {
                assert(s == p.push(c0 as usize));
                assert(s[p.len() as int] == c0 as usize);
            }
        }
    }
}

/// Computing the length of a choice that is derivable from no rule leaves
/// it with shortest options, each one of its options.
pub proof fn lemma_free_shortest(o: SOr, lengths: Seq<usize>)
    requires
        !o.keep,
        derivable(SItem::Or(o), Set::empty()),
    ensures
        ({
            let c = ref_calc(SItem::Or(o), lengths).item;
            &&& c is Or
            &&& c->Or_0.shortest.len() > 0
            &&& forall|x: usize| #[trigger] c->Or_0.shortest.contains(x) ==> c->Or_0.indices.contains(x)
        }),
{
    let k = o.indices.len();
    lemma_free_known_or(o, k, lengths);
    let m = or_min(o, k, lengths);
    lemma_or_min_found(o, k, lengths);
    lemma_or_shortest(o, o.choices.len(), lengths, m);
    let i = choose|i: int| 0 <= i < k && i < o.indices.len() && #[trigger] o.indices[i] < o.choices.len()
        && ref_calc(o.choices[o.indices[i] as int], lengths).len == or_min(o, k, lengths);
    let c = o.indices[i] as int;
    assert(o.indices.contains(c as usize));
    assert(ref_calc(o.choices[c], lengths).len == m);
    assert(or_shortest(o, o.choices.len(), lengths, m).contains(o.indices[i]));
}

/// An item that refers to no rule and can always be written out: every
/// sequence in it is non-empty, every choice in it has options, and it
/// holds no reference.
pub open spec fn plain(item: SItem) -> bool
    decreases item, 0nat,
{
    match item {
        SItem::And { sep, items } => items.len() > 0 && plain_all(items),
        SItem::Or(o) => o.choices.len() > 0 && plain_all(o.choices) && plain_pick(o, o.indices.len()),
        SItem::Ref { name, idx } => false,
        SItem::Opt { inner, has_refs } => plain(*inner),
        SItem::Mul { inner, min, max } => plain(*inner),
        SItem::Scoped { inner } => plain(*inner),
        SItem::PreId { name, idx, sep, items, ids } => items.len() > 0 && plain_all(items),
        _ => true,
    }
}

pub open spec fn plain_all(items: Seq<SItem>) -> bool
    decreases items, 0nat,
{
    items.len() == 0 || (plain_all(items.drop_last()) && plain(items.last()))
}

/// One of the first `k` option indices of `o` names one of its choices.
pub open spec fn plain_pick(o: SOr, k: nat) -> bool
    decreases k,
{
    k != 0 && k <= o.indices.len() && (plain_pick(o, (k - 1) as nat) || o.indices[k - 1] < o.choices.len())
}

pub proof fn lemma_plain_all(items: Seq<SItem>)
    ensures
        plain_all(items) <==> forall|i: int| 0 <= i < items.len() ==> plain(#[trigger] items[i]),
    decreases items.len(),
{
    if items.len() > 0 {
        let d = items.drop_last();
        lemma_plain_all(d);
        assert forall|i: int| 0 <= i < d.len() implies d[i] == items[i] by {}
        if forall|i: int| 0 <= i < items.len() ==> plain(#[trigger] items[i]) {
            assert forall|i: int| 0 <= i < d.len() implies plain(#[trigger] d[i]) by {
                assert(d[i] == items[i]);
            }
            assert(plain(items[items.len() - 1]));
        }
        if plain_all(items) {
            assert forall|i: int| 0 <= i < items.len() implies plain(#[trigger] items[i]) by {
                if i < d.len() {
                    assert(d[i] == items[i]);
                    assert(plain(d[i]));
                }
            }
        }
    }
}

pub proof fn lemma_plain_pick(o: SOr, k: nat, i: int)
    requires
        0 <= i < k <= o.indices.len(),
        o.indices[i] < o.choices.len(),
    ensures
        plain_pick(o, k),
    decreases k,
{
    if i < k - 1 {
        lemma_plain_pick(o, (k - 1) as nat, i);
    }
}

pub proof fn lemma_plain_pick_found(o: SOr, k: nat)
    requires
        plain_pick(o, k),
    ensures
        exists|i: int| 0 <= i < k && i < o.indices.len() && #[trigger] o.indices[i] < o.choices.len(),
    decreases k,
{
    if !(o.indices[k - 1] < o.choices.len()) {
        lemma_plain_pick_found(o, (k - 1) as nat);
    } else {
        assert(o.indices[k - 1] < o.choices.len());
    }
}

/// A plain item is derivable from no rule.
pub proof fn lemma_plain_derivable(item: SItem)
    requires
        plain(item),
    ensures
        derivable(item, Set::empty()),
    decreases item, 1nat,
{
    match item {
        SItem::And { sep, items } => {
            lemma_plain_derivable_seq(items);
        },
        SItem::Or(o) => {
            if !o.keep {
                lemma_plain_pick_found(o, o.indices.len());
                let i = choose|i: int| 0 <= i < o.indices.len() && i < o.indices.len() && #[trigger] o.indices[i] < o.choices.len();
                lemma_plain_all(o.choices);
                let c = o.choices[o.indices[i] as int];
                assert(decreases_to!(o => c));
                lemma_plain_derivable(c);
                lemma_derivable_or_intro(o, o.indices.len(), i, Set::empty());
            }
        },
        SItem::Opt { inner, has_refs } => {
            lemma_plain_derivable(*inner);
        },
        SItem::Mul { inner, min, max } => {
            lemma_plain_derivable(*inner);
        },
        SItem::PreId { name, idx, sep, items, ids } => {
            lemma_plain_derivable_seq(items);
        },
        _ => {},
    }
}

pub proof fn lemma_plain_derivable_seq(items: Seq<SItem>)
    requires
        plain_all(items),
    ensures
        derivable_all(items, Set::empty()),
    decreases items, 0nat,
{
    if items.len() > 0 {
        lemma_plain_derivable_seq(items.drop_last());
        lemma_plain_derivable(items.last());
    }
}

pub proof fn lemma_derivable_or_intro(o: SOr, k: nat, i: int, s: Set<usize>)
    requires
        0 <= i < k <= o.indices.len(),
        o.indices[i] < o.choices.len(),
        derivable(o.choices[o.indices[i] as int], s),
    ensures
        derivable_or(o, k, s),
    decreases k,
{
    if i < k - 1 {
        lemma_derivable_or_intro(o, (k - 1) as nat, i, s);
    }
}

/// Computing lengths keeps an item plain.
pub proof fn lemma_calc_plain(item: SItem, lengths: Seq<usize>)
    requires
        ready(item),
        plain(item),
        small(item),
    ensures
        plain(ref_calc(item, lengths).item),
    decreases item, 1nat,
{
    match item {
        SItem::And { sep, items } => {
            lemma_small_seq(items, items.len());
            lemma_calc_plain_seq(items, lengths);
        },
        SItem::Or(o) => {
            lemma_small_seq(o.choices, o.choices.len());
            let m = or_min(o, o.indices.len(), lengths);
            let o1 = SOr {
                choices: or_choices(o, o.choices.len(), lengths),
                shortest: or_shortest(o, o.choices.len(), lengths, m),
                indices: o.indices,
                keep: o.keep,
            };
            lemma_or_choices(o, o.choices.len(), lengths);
            lemma_plain_all(o.choices);
            lemma_ready_or(o, o.indices.len());
            assert forall|t: int| 0 <= t < o1.choices.len() implies plain(#[trigger] o1.choices[t]) by {
                if o.indices.contains(t as usize) {
                    let a = choose|a: int| 0 <= a < o.indices.len() && o.indices[a] == t as usize;
                    assert(o.indices[a] as int == t);
                    assert(ready(o.choices[o.indices[a] as int]));
                    assert(decreases_to!(item => o.choices[t]));
                    lemma_calc_plain(o.choices[t], lengths);
                }
            }
            lemma_plain_all(o1.choices);
            lemma_plain_pick_found(o, o.indices.len());
            let i = choose|i: int| 0 <= i < o.indices.len() && i < o.indices.len() && #[trigger] o.indices[i] < o.choices.len();
            lemma_plain_pick(o1, o1.indices.len(), i);
        },
        SItem::Opt { inner, has_refs } => {
            lemma_calc_plain(*inner, lengths);
        },
        SItem::Mul { inner, min, max } => {
            lemma_calc_plain(*inner, lengths);
        },
        SItem::PreId { name, idx, sep, items, ids } => {
            lemma_small_seq(items, items.len());
            lemma_calc_plain_seq(items, lengths);
        },
        _ => {},
    }
}

pub proof fn lemma_calc_plain_seq(items: Seq<SItem>, lengths: Seq<usize>)
    requires
        ready_seq(items),
        plain_all(items),
        forall|i: int| 0 <= i < items.len() ==> small(#[trigger] items[i]),
    ensures
        plain_all(calc_seq(items, lengths).items),
        calc_seq(items, lengths).items.len() == items.len(),
    decreases items, 0nat,
{
    if items.len() > 0 {
        let d = items.drop_last();
        assert forall|i: int| 0 <= i < d.len() implies small(#[trigger] d[i]) by {
            assert(d[i] == items[i]);
        }
        lemma_calc_plain_seq(d, lengths);
        lemma_calc_plain(items.last(), lengths);
        let out = calc_seq(items, lengths).items;
        assert(out.drop_last() =~= calc_seq(d, lengths).items);
    }
}

/// Every known length in `lengths` is at most `b`.
pub open spec fn lengths_below(lengths: Seq<usize>, b: int) -> bool {
    forall|i: usize| #[trigger] known_len(lengths, i) <= b
}

/// Known lengths of at most `b` give lengths of at most `b + 1`; and an item
/// that is derivable from rules of known length then has a known length.
pub proof fn lemma_known_from(item: SItem, lengths: Seq<usize>, s: Set<usize>, b: int)
    requires
        0 <= b < usize::MAX - 1,
        lengths_below(lengths, b),
        forall|i: usize| #[trigger] s.contains(i) ==> known_len(lengths, i) != 0,
    ensures
        ref_calc(item, lengths).len <= b + 1,
        derivable(item, s) ==> ref_calc(item, lengths).len != 0,
    decreases item, 1nat,
{
    match item {
        SItem::And { sep, items } => {
            lemma_known_from_seq(items, lengths, s, b);
            if derivable(item, s) {
                assert(items.len() > 0 && derivable_all(items, s));
                assert(calc_seq(items, lengths).all && calc_seq(items, lengths).max != 0);
                assert(ref_calc(item, lengths).len == calc_seq(items, lengths).max);
            }
        },
        SItem::Or(o) => {
            lemma_known_from_or(o, o.indices.len(), lengths, s, b);
            lemma_or_min_nonzero(o, o.indices.len(), lengths);
        },
        SItem::Ref { name, idx } => {
            if let Some(i) = idx {
                assert(known_len(lengths, i) <= b);
            }
        },
        SItem::Opt { inner, has_refs } => {
            lemma_known_from(*inner, lengths, s, b);
        },
        SItem::Mul { inner, min, max } => {
            lemma_known_from(*inner, lengths, s, b);
        },
        SItem::PreId { name, idx, sep, items, ids } => {
            lemma_known_from_seq(items, lengths, s, b);
        },
        _ => {},
    }
}

pub proof fn lemma_known_from_seq(items: Seq<SItem>, lengths: Seq<usize>, s: Set<usize>, b: int)
    requires
        0 <= b < usize::MAX - 1,
        lengths_below(lengths, b),
        forall|i: usize| #[trigger] s.contains(i) ==> known_len(lengths, i) != 0,
    ensures
        calc_seq(items, lengths).max <= b + 1,
        derivable_all(items, s) ==> calc_seq(items, lengths).all,
        items.len() > 0 && derivable_all(items, s) ==> calc_seq(items, lengths).max != 0,
    decreases items, 0nat,
{
    if items.len() > 0 {
        lemma_known_from_seq(items.drop_last(), lengths, s, b);
        lemma_known_from(items.last(), lengths, s, b);
    }
}

pub proof fn lemma_known_from_or(o: SOr, k: nat, lengths: Seq<usize>, s: Set<usize>, b: int)
    requires
        0 <= b < usize::MAX - 1,
        lengths_below(lengths, b),
        forall|i: usize| #[trigger] s.contains(i) ==> known_len(lengths, i) != 0,
    ensures
        or_min(o, k, lengths) == usize::MAX || or_min(o, k, lengths) <= b + 1,
        derivable_or(o, k, s) ==> or_min(o, k, lengths) != usize::MAX,
    decreases o, k,
{
    if k > 0 && k <= o.indices.len() {
        let k1 = (k - 1) as nat;
        lemma_known_from_or(o, k1, lengths, s, b);
        let idx = o.indices[k1 as int];
        if idx < o.choices.len() {
            assert(decreases_to!(o => o.choices[idx as int]));
            lemma_known_from(o.choices[idx as int], lengths, s, b);
        }
    }
}

/// Looks up the known lengths of rules while computing reference lengths.
pub struct RefLenCalculator<'a> {
    pub rule_lengths: &'a Vec<usize>,
}

impl<'a> RefLenCalculator<'a> {
    /// The known length of rule `rule_idx`, if there is one.
    pub fn get_ref_len(&self, rule_idx: usize) -> (r: Option<usize>)
        ensures
            r == if known_len(self.rule_lengths@, rule_idx) == 0 {
                None
            } else {
                Some(known_len(self.rule_lengths@, rule_idx))
            },
    {
        if rule_idx < self.rule_lengths.len() && self.rule_lengths[rule_idx] != 0 {
            Some(self.rule_lengths[rule_idx])
        } else {
            None
        }
    }

    /// Computes how many nested references `item` needs at least (zero when
    /// that is not known yet), recomputing the shortest options of the
    /// choices it holds.
    pub fn calc_ref_length(&self, item: &mut Item) -> (r: usize)
        requires
            ready(old(item)@),
        ensures
            final(item)@ == ref_calc(old(item)@, self.rule_lengths@).item,
            r == ref_calc(old(item)@, self.rule_lengths@).len,
        decreases *old(item),
    {
        match item {
            Item::And(v) => v.calc_ref_length(self),
            Item::Or(v) => v.calc_ref_length(self),
            Item::Ref(v) => v.calc_ref_length(self),
            Item::Opt(v) => v.calc_ref_length(self),
            Item::Mul(v) => v.calc_ref_length(self),
            Item::Id(v) => v.calc_ref_length(self),
            Item::PreId(v) => v.calc_ref_length(self),
            _ => 1,
        }
    }
}

impl And {
    /// The largest length of the items, or zero when one of them is not
    /// known.
    pub fn calc_ref_length(&mut self, length_calc: &RefLenCalculator) -> (r: usize)
        requires
            ready(old(self)@),
        ensures
            final(self)@ == ref_calc(old(self)@, length_calc.rule_lengths@).item,
            r == ref_calc(old(self)@, length_calc.rule_lengths@).len,
        decreases *old(self),
    {
        let ghost lengths = length_calc.rule_lengths@;
        let ghost old_items = self.items@;
        let ghost items0 = view_items(old_items);
        let mut max_ref_length: usize = 0;
        let mut all_resolved = true;
        let mut i: usize = 0;
        proof {
            lemma_view_items(old_items);
            lemma_ready_seq(items0);
            assert(items0.take(0) =~= Seq::<SItem>::empty());
        }
        while i < self.items.len()
            invariant
                i <= self.items@.len(),
                self.items@.len() == old_items.len(),
                items0 == view_items(old_items),
                items0.len() == old_items.len(),
                old_items == old(self).items@,
                lengths == length_calc.rule_lengths@,
                forall|j: int| 0 <= j < old_items.len() ==> #[trigger] items0[j] == old_items[j]@,
                forall|j: int| 0 <= j < old_items.len() ==> ready(#[trigger] items0[j]),
                forall|j: int| i <= j < old_items.len() ==> #[trigger] self.items@[j] == old_items[j],
                forall|j: int| 0 <= j < i ==> #[trigger] self.items@[j]@ == calc_seq(items0.take(i as int), lengths).items[j],
                calc_seq(items0.take(i as int), lengths).items.len() == i,
                all_resolved == calc_seq(items0.take(i as int), lengths).all,
                max_ref_length == calc_seq(items0.take(i as int), lengths).max,
                self.sep@ == old(self).sep@,
            decreases self.items@.len() - i,
        {
            proof {
                assert(decreases_to!(*old(self) => old(self).items));
                assert(decreases_to!(old(self).items@ => old(self).items@[i as int]));
                assert(ready(items0[i as int]));
            }
            let ref_len = length_calc.calc_ref_length(&mut self.items[i]);
            if ref_len == 0 {
                all_resolved = false;
            } else if ref_len > max_ref_length {
                max_ref_length = ref_len;
            }
            proof {
                assert(items0.take(i + 1).drop_last() =~= items0.take(i as int));
                assert(items0.take(i + 1).last() == old_items[i as int]@);
            }
            i += 1;
        }
        proof {
            assert(items0.take(i as int) =~= items0);
            lemma_view_items(self.items@);
            assert(view_items(self.items@) =~= calc_seq(items0, lengths).items);
        }
        if all_resolved {
            max_ref_length
        } else {
            0
        }
    }
}

impl PreId {
    /// The largest length of the items, or zero when one of them is not
    /// known.
    pub fn calc_ref_length(&mut self, length_calc: &RefLenCalculator) -> (r: usize)
        requires
            ready(old(self)@),
        ensures
            final(self)@ == ref_calc(old(self)@, length_calc.rule_lengths@).item,
            r == ref_calc(old(self)@, length_calc.rule_lengths@).len,
        decreases *old(self),
    {
        let ghost lengths = length_calc.rule_lengths@;
        let ghost old_items = self.items@;
        let ghost items0 = view_items(old_items);
        let mut max_ref_length: usize = 0;
        let mut all_resolved = true;
        let mut i: usize = 0;
        proof {
            lemma_view_items(old_items);
            lemma_ready_seq(items0);
            assert(items0.take(0) =~= Seq::<SItem>::empty());
        }
        while i < self.items.len()
            invariant
                i <= self.items@.len(),
                self.items@.len() == old_items.len(),
                items0 == view_items(old_items),
                items0.len() == old_items.len(),
                old_items == old(self).items@,
                lengths == length_calc.rule_lengths@,
                forall|j: int| 0 <= j < old_items.len() ==> #[trigger] items0[j] == old_items[j]@,
                forall|j: int| 0 <= j < old_items.len() ==> ready(#[trigger] items0[j]),
                forall|j: int| i <= j < old_items.len() ==> #[trigger] self.items@[j] == old_items[j],
                forall|j: int| 0 <= j < i ==> #[trigger] self.items@[j]@ == calc_seq(items0.take(i as int), lengths).items[j],
                calc_seq(items0.take(i as int), lengths).items.len() == i,
                all_resolved == calc_seq(items0.take(i as int), lengths).all,
                max_ref_length == calc_seq(items0.take(i as int), lengths).max,
                self.sep@ == old(self).sep@,
                self.rule_name@ == old(self).rule_name@,
                self.rule_idx == old(self).rule_idx,
                self.id_indices@ == old(self).id_indices@,
            decreases self.items@.len() - i,
        {
            proof {
                assert(decreases_to!(*old(self) => old(self).items));
                assert(decreases_to!(old(self).items@ => old(self).items@[i as int]));
                assert(ready(items0[i as int]));
            }
            let ref_len = length_calc.calc_ref_length(&mut self.items[i]);
            if ref_len == 0 {
                all_resolved = false;
            } else if ref_len > max_ref_length {
                max_ref_length = ref_len;
            }
            proof {
                assert(items0.take(i + 1).drop_last() =~= items0.take(i as int));
                assert(items0.take(i + 1).last() == old_items[i as int]@);
            }
            i += 1;
        }
        proof {
            assert(items0.take(i as int) =~= items0);
            lemma_view_items(self.items@);
            assert(view_items(self.items@) =~= calc_seq(items0, lengths).items);
        }
        if all_resolved {
            max_ref_length
        } else {
            0
        }
    }
}

impl Ref {
    /// One more than the length of the rule referred to, or zero when that
    /// is not known.
    pub fn calc_ref_length(&mut self, length_calc: &RefLenCalculator) -> (r: usize)
        requires
            ready(old(self)@),
        ensures
            final(self)@ == ref_calc(old(self)@, length_calc.rule_lengths@).item,
            r == ref_calc(old(self)@, length_calc.rule_lengths@).len,
    {
        let ref_idx = match self.ref_idx {
            Some(v) => v,
            None => {
                return 0;
            },
        };
        let refd_len = match length_calc.get_ref_len(ref_idx) {
            Some(v) => v,
            None => 0,
        };
        if refd_len == 0 || refd_len == usize::MAX {
            return 0;
        }
        refd_len + 1
    }
}

impl Opt {
    /// The length of the optional item; an item with references is noted as
    /// such.
    pub fn calc_ref_length(&mut self, length_calc: &RefLenCalculator) -> (r: usize)
        requires
            ready(old(self)@),
        ensures
            final(self)@ == ref_calc(old(self)@, length_calc.rule_lengths@).item,
            r == ref_calc(old(self)@, length_calc.rule_lengths@).len,
        decreases *old(self),
    {
        let mut b: Box<Item> = Box::new(Item::PreFlush);
        std::mem::swap(&mut b, &mut self.item);
        let mut inner: Item = *b;
        proof { assert(decreases_to!(*old(self) => *old(self).item)); }
        let res = length_calc.calc_ref_length(&mut inner);
        self.item = Box::new(inner);
        if res > 1 {
            self.has_refs = true;
        }
        res
    }
}

impl Mul {
    /// The length of the repeated item.
    pub fn calc_ref_length(&mut self, length_calc: &RefLenCalculator) -> (r: usize)
        requires
            ready(old(self)@),
        ensures
            final(self)@ == ref_calc(old(self)@, length_calc.rule_lengths@).item,
            r == ref_calc(old(self)@, length_calc.rule_lengths@).len,
        decreases *old(self),
    {
        let mut b: Box<Item> = Box::new(Item::PreFlush);
        std::mem::swap(&mut b, &mut self.item);
        let mut inner: Item = *b;
        proof { assert(decreases_to!(*old(self) => *old(self).item)); }
        let res = length_calc.calc_ref_length(&mut inner);
        self.item = Box::new(inner);
        res
    }
}

impl Id {
    /// An identifier takes a single step.
    pub fn calc_ref_length(&mut self, _length_calc: &RefLenCalculator) -> (r: usize)
        ensures
            final(self)@ == ref_calc(old(self)@, _length_calc.rule_lengths@).item,
            r == ref_calc(old(self)@, _length_calc.rule_lengths@).len,
    {
        1
    }
}

impl Or {
    /// The smallest length among the options whose length is known (zero
    /// when there is none, one for a kept rule); the options of that length
    /// become the shortest ones.
    pub fn calc_ref_length(&mut self, length_calc: &RefLenCalculator) -> (r: usize)
        requires
            ready(SItem::Or(old(self)@)),
        ensures
            SItem::Or(final(self)@) == ref_calc(SItem::Or(old(self)@), length_calc.rule_lengths@).item,
            r == ref_calc(SItem::Or(old(self)@), length_calc.rule_lengths@).len,
        decreases *old(self),
    {
        let ghost lengths = length_calc.rule_lengths@;
        let ghost o = self@;
        let ghost old_choices = self.choices@;
        self.shortest_options.clear();
        let mut min_ref_length: usize = usize::MAX;
        let n = self.choices.len();
        let mut lens: Vec<usize> = Vec::new();
        let mut done: Vec<bool> = Vec::new();
        let mut z: usize = 0;
        while z < n
            invariant
                z <= n,
                lens@.len() == z,
                done@.len() == z,
                forall|j: int| 0 <= j < z ==> !(#[trigger] done@[j]),
            decreases n - z,
        {
            lens.push(0);
            done.push(false);
            z += 1;
        }
        let mut k: usize = 0;
        proof {
            lemma_view_items(old_choices);
            lemma_ready_or(o, o.indices.len());
            assert(o.indices.take(0) =~= Seq::<usize>::empty());
        }
        while k < self.choice_indices.len()
            invariant
                k <= o.indices.len(),
                o == old(self)@,
                old_choices == old(self).choices@,
                o.choices == view_items(old_choices),
                o.choices.len() == old_choices.len(),
                n == old_choices.len(),
                forall|i: int| 0 <= i < o.indices.len() ==> #[trigger] o.indices[i] < o.choices.len(),
                forall|i: int| 0 <= i < o.indices.len() ==> ready(#[trigger] o.choices[o.indices[i] as int]),
                forall|j: int| 0 <= j < old_choices.len() ==> #[trigger] o.choices[j] == old_choices[j]@,
                lengths == length_calc.rule_lengths@,
                self.choice_indices@ == o.indices,
                self.keep == o.keep,
                self.shortest_options@.len() == 0,
                self.choices@.len() == old_choices.len(),
                lens@.len() == n,
                done@.len() == n,
                forall|j: int| 0 <= j < n ==> #[trigger] done@[j] == o.indices.take(k as int).contains(j as usize),
                forall|j: int| 0 <= j < n && done@[j] ==> #[trigger] lens@[j] == ref_calc(o.choices[j], lengths).len,
                forall|j: int| 0 <= j < old_choices.len() ==> #[trigger] self.choices@[j]@ == if o.indices.take(k as int).contains(j as usize) {
                    ref_calc(o.choices[j], lengths).item
                } else {
                    o.choices[j]
                },
                forall|j: int| 0 <= j < old_choices.len() && !o.indices.take(k as int).contains(j as usize) ==> #[trigger] self.choices@[j] == old_choices[j],
                min_ref_length == or_min(o, k as nat, lengths),
            decreases o.indices.len() - k,
        {
            let item_idx = self.choice_indices[k];
            proof {
                assert(item_idx < o.choices.len());
                assert(o.indices[k as int] == item_idx);
            }
            let ghost before = self.choices@;
            if !done[item_idx] {
                proof {
                    assert(!o.indices.take(k as int).contains(item_idx));
                    assert(self.choices@[item_idx as int] == old_choices[item_idx as int]);
                    assert(decreases_to!(*old(self) => old(self).choices));
                    assert(decreases_to!(old(self).choices@ => old(self).choices@[item_idx as int]));
                    assert(ready(o.choices[o.indices[k as int] as int]));
                }
                let ref_len = length_calc.calc_ref_length(&mut self.choices[item_idx]);
                proof {
                    assert(self.choices@.len() == before.len());
                    assert(forall|j: int| 0 <= j < before.len() && j != item_idx ==> self.choices@[j] == #[trigger] before[j]);
                    assert(self.choices@[item_idx as int]@ == ref_calc(o.choices[item_idx as int], lengths).item);
                }
                lens.set(item_idx, ref_len);
                done.set(item_idx, true);
            }
            let ref_len = lens[item_idx];
            if ref_len < min_ref_length && ref_len != 0 {
                min_ref_length = ref_len;
            }
            proof {
                assert(o.indices.take(k + 1) =~= o.indices.take(k as int).push(item_idx));
                assert forall|j: int| 0 <= j < n implies #[trigger] done@[j] == o.indices.take(k + 1).contains(j as usize) by {
                    lemma_take_contains(o.indices, k as int, j as usize);
                }
                assert forall|j: int| 0 <= j < old_choices.len() implies #[trigger] self.choices@[j]@ == if o.indices.take(k + 1).contains(j as usize) {
                    ref_calc(o.choices[j], lengths).item
                } else {
                    o.choices[j]
                } by {
                    lemma_take_contains(o.indices, k as int, j as usize);
                    if j != item_idx {
                        assert(self.choices@[j] == before[j]);
                        assert(o.indices.take(k + 1).contains(j as usize) == o.indices.take(k as int).contains(j as usize));
                    }
                }
                assert forall|j: int| 0 <= j < old_choices.len() && !o.indices.take(k + 1).contains(j as usize) implies #[trigger] self.choices@[j] == old_choices[j] by {
                    lemma_take_contains(o.indices, k as int, j as usize);
                }
            }
            k += 1;
        }
        let ghost c1 = self.choices@;
        proof {
            assert(o.indices.take(k as int) =~= o.indices);
        }
        let mut t: usize = 0;
        while t < n
            invariant
                t <= n,
                n == o.choices.len(),
                self.choices@ == c1,
                self.keep == o.keep,
                self.choice_indices@ == o.indices,
                lens@.len() == n,
                done@.len() == n,
                forall|j: int| 0 <= j < n ==> #[trigger] done@[j] == o.indices.contains(j as usize),
                forall|j: int| 0 <= j < n && done@[j] ==> #[trigger] lens@[j] == ref_calc(o.choices[j], lengths).len,
                self.shortest_options@ == or_shortest(o, t as nat, lengths, min_ref_length),
            decreases n - t,
        {
            if done[t] && lens[t] == min_ref_length {
                self.shortest_options.push(t);
            }
            t += 1;
        }
        if min_ref_length == usize::MAX {
            min_ref_length = 0;
        }
        if self.keep && min_ref_length == 0 {
            min_ref_length = 1;
        }
        proof {
            lemma_or_choices(o, o.choices.len(), lengths);
            lemma_view_items(self.choices@);
            assert(view_items(self.choices@) =~= or_choices(o, o.choices.len(), lengths));
        }
        min_ref_length
    }
}

} // verus!
