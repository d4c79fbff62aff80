//! Laws of building single kinds of items, stated by how a build relates to
//! the builds of the items it holds.
use vstd::prelude::*;
use crate::fields::{SItem, SOr};
use crate::generate::{
    build_spec, and_spec, repeat_spec, preid_spec, pre_spec, rule_spec, choice_spec, opt_spec, pick_choice,
    rule_options, has_rule, Gen, Outcome, done, draw_at, skip_draws, draw_index, gen_id,
};
use crate::lengths::{ref_calc, known_len};

verus! {

// ----------------------------------------------------------------------------
// Building never gives back references it may expand
// ----------------------------------------------------------------------------

proof fn lemma_build_budget(item: SItem, g: Gen, depth: nat, max_depth: nat)
    ensures
        build_spec(item, g, depth, max_depth).state.budget <= g.budget,
    decreases g.budget, 1int, item, 0int,
{
    let shortest = depth >= max_depth;
    match item {
        SItem::And { sep, items } => {
            lemma_and_budget(sep, items, 0, g, depth, max_depth);
        },
        SItem::Or(o) => {
            lemma_choice_budget(o, g, depth, max_depth, shortest);
        },
        SItem::Ref { name, idx } => {
            if idx is Some && g.budget > 0 {
                let g1 = Gen { budget: (g.budget - 1) as nat, ..g };
                lemma_rule_budget(idx->0, g1, depth + 1, max_depth, shortest);
            }
        },
        SItem::Opt { inner, has_refs } => {
            lemma_opt_budget(*inner, has_refs, g, depth, max_depth, shortest);
        },
        SItem::Mul { inner, min, max } => {
            if max > min {
                lemma_repeat_budget(*inner, draw_at(g, 0) as nat, skip_draws(g, 1), depth, max_depth);
            } else {
                lemma_repeat_budget(*inner, min as nat, g, depth, max_depth);
            }
        },
        SItem::PreId { name, idx, sep, items, ids } => {
            if idx is Some && g.scopes.len() > 0 && idx->0 < g.scopes[0].len() {
                lemma_preid_budget(sep, items, ids, g, depth, max_depth);
            }
        },
        SItem::Scoped { inner } => {
            if g.scopes.len() > 0 {
                let g2 = Gen { scopes: seq![crate::rules::fresh_scope(g.scopes[0].len())] + g.scopes, ..g };
                lemma_build_budget(*inner, g2, depth, max_depth);
            }
        },
        _ => {},
    }
}

proof fn lemma_and_budget(sep: Seq<u8>, items: Seq<SItem>, i: nat, g: Gen, depth: nat, max_depth: nat)
    ensures
        and_spec(sep, items, i, g, depth, max_depth).state.budget <= g.budget,
    decreases g.budget, 1int, items, items.len() - i,
{
    if i < items.len() {
        let g0 = if sep.len() > 0 && i > 0 { crate::generate::write(g, sep) } else { g };
        lemma_build_budget(items[i as int], g0, depth, max_depth);
        let o = build_spec(items[i as int], g0, depth, max_depth);
        if o.ok is Ok && o.state.budget <= g.budget {
            lemma_and_budget(sep, items, i + 1, o.state, depth, max_depth);
        }
    }
}

proof fn lemma_repeat_budget(inner: SItem, n: nat, g: Gen, depth: nat, max_depth: nat)
    ensures
        repeat_spec(inner, n, g, depth, max_depth).state.budget <= g.budget,
    decreases g.budget, 1int, inner, n,
{
    if n > 0 {
        lemma_build_budget(inner, g, depth, max_depth);
        let o = build_spec(inner, g, depth, max_depth);
        if o.ok is Ok && o.state.budget <= g.budget {
            lemma_repeat_budget(inner, (n - 1) as nat, o.state, depth, max_depth);
        }
    }
}

proof fn lemma_preid_budget(sep: Seq<u8>, items: Seq<SItem>, ids: Seq<usize>, g: Gen, depth: nat, max_depth: nat)
    ensures
        preid_spec(sep, items, ids, g, depth, max_depth).0.state.budget <= g.budget,
    decreases g.budget, 1int, items, items.len() + 1,
{
    let (g1, id) = gen_id(g);
    lemma_pre_budget(sep, items, ids, id, 0, Gen { out: Seq::empty(), ..g1 }, g1.out, depth, max_depth);
}

proof fn lemma_pre_budget(
    sep: Seq<u8>,
    items: Seq<SItem>,
    ids: Seq<usize>,
    id: Seq<u8>,
    k: nat,
    g: Gen,
    real_out: Seq<u8>,
    depth: nat,
    max_depth: nat,
)
    ensures
        pre_spec(sep, items, ids, id, k, g, real_out, depth, max_depth).0.state.budget <= g.budget,
    decreases g.budget, 1int, items, items.len() - k,
{
    if k < items.len() {
        let ro = if sep.len() > 0 && k > 0 { real_out + sep } else { real_out };
        if ids.contains(k as usize) {
            lemma_pre_budget(sep, items, ids, id, k + 1, crate::generate::write(g, id), ro, depth, max_depth);
        } else {
            lemma_build_budget(items[k as int], g, depth, max_depth);
            let o = build_spec(items[k as int], g, depth, max_depth);
            if o.ok is Ok && o.state.budget <= g.budget {
                lemma_pre_budget(sep, items, ids, id, k + 1, o.state, ro, depth, max_depth);
            }
        }
    }
}

proof fn lemma_rule_budget(i: usize, g: Gen, depth: nat, max_depth: nat, shortest: bool)
    ensures
        rule_spec(i, g, depth, max_depth, shortest).state.budget <= g.budget,
    decreases g.budget, 2int, SItem::PreFlush, 0int,
{
    if has_rule(g.scopes, i) {
        let opts = rule_options(g.scopes, i);
        if opts.len() > 0 {
            let o = opts[draw_index(draw_at(g, 0), opts.len() as usize) as int];
            lemma_choice_budget(o, skip_draws(g, 1), depth, max_depth, shortest);
        }
    }
}

proof fn lemma_choice_budget(o: SOr, g: Gen, depth: nat, max_depth: nat, shortest: bool)
    ensures
        choice_spec(o, g, depth, max_depth, shortest).state.budget <= g.budget,
    decreases g.budget, 1int, o, 0int,
{
    let (g1, c) = pick_choice(o, g, shortest);
    match c {
        Ok(ci) => {
            if ci < o.choices.len() && g1.budget <= g.budget {
                lemma_build_budget(o.choices[ci as int], g1, depth, max_depth);
            }
        },
        Err(e) => {},
    }
}

proof fn lemma_opt_budget(inner: SItem, has_refs: bool, g: Gen, depth: nat, max_depth: nat, shortest: bool)
    ensures
        opt_spec(inner, has_refs, g, depth, max_depth, shortest).state.budget <= g.budget,
    decreases g.budget, 1int, inner, 1int,
{
    if !(shortest && has_refs) && draw_at(g, 0) != 0 {
        lemma_build_budget(inner, skip_draws(g, 1), depth, max_depth);
    }
}

/// Building never leaves more references to expand than it started with.
pub proof fn law_build_spends_budget(item: SItem, g: Gen, depth: nat, max_depth: nat)
    ensures
        build_spec(item, g, depth, max_depth).state.budget <= g.budget,
{
    lemma_build_budget(item, g, depth, max_depth);
}

// ----------------------------------------------------------------------------
// Sequences
// ----------------------------------------------------------------------------

proof fn lemma_write_empty(g: Gen)
    ensures
        crate::generate::write(g, Seq::<u8>::empty()) == g,
{
    assert(g.out + Seq::<u8>::empty() =~= g.out);
}

proof fn lemma_ok_done(o: Outcome)
    ensures
        o.ok is Ok ==> o == done(o.state),
{
    match o.ok {
        Ok(u) => {
            assert(o.ok == Ok::<(), crate::generate::BuildError>(()));
        },
        Err(_) => {},
    }
}

proof fn lemma_and_push_from(sep: Seq<u8>, xs: Seq<SItem>, y: SItem, i: nat, g: Gen, depth: nat, max_depth: nat)
    requires
        xs.len() > 0,
        i <= xs.len(),
    ensures
        ({
            let a = and_spec(sep, xs, i, g, depth, max_depth);
            and_spec(sep, xs.push(y), i, g, depth, max_depth) == if a.ok is Ok {
                build_spec(y, crate::generate::write(a.state, sep), depth, max_depth)
            } else {
                a
            }
        }),
    decreases xs.len() - i,
{
    let ys = xs.push(y);
    let g0 = if sep.len() > 0 && i > 0 { crate::generate::write(g, sep) } else { g };
    if sep.len() == 0 {
        lemma_write_empty(g);
        assert(sep =~= Seq::<u8>::empty());
    }
    if i == xs.len() {
        assert(ys[i as int] == y);
        let o = build_spec(y, g0, depth, max_depth);
        assert(g0 == crate::generate::write(g, sep));
        assert(and_spec(sep, xs, i, g, depth, max_depth) == done(g));
        assert(and_spec(sep, ys, i + 1, o.state, depth, max_depth) == done(o.state));
        lemma_ok_done(o);
    } else {
        assert(ys[i as int] == xs[i as int]);
        lemma_build_budget(xs[i as int], g0, depth, max_depth);
        let o = build_spec(xs[i as int], g0, depth, max_depth);
        if o.ok is Ok {
            lemma_and_push_from(sep, xs, y, i + 1, o.state, depth, max_depth);
        }
        assert(and_spec(sep, xs, i, g, depth, max_depth) == if o.ok is Ok {
            and_spec(sep, xs, i + 1, o.state, depth, max_depth)
        } else {
            o
        });
        assert(and_spec(sep, ys, i, g, depth, max_depth) == if o.ok is Ok {
            and_spec(sep, ys, i + 1, o.state, depth, max_depth)
        } else {
            o
        });
    }
}

/// A sequence of one item builds just that item, whatever its kind.
pub proof fn law_and_single(sep: Seq<u8>, x: SItem, g: Gen, depth: nat, max_depth: nat)
    ensures
        build_spec(SItem::And { sep, items: seq![x] }, g, depth, max_depth) == build_spec(x, g, depth, max_depth),
{
    let items = seq![x];
    lemma_build_budget(x, g, depth, max_depth);
    let o = build_spec(x, g, depth, max_depth);
    assert(and_spec(sep, items, 1, o.state, depth, max_depth) == done(o.state));
    lemma_ok_done(o);
    assert(and_spec(sep, items, 0, g, depth, max_depth) == if o.ok is Ok {
        and_spec(sep, items, 1, o.state, depth, max_depth)
    } else {
        o
    });
}

/// Building a sequence with one more item at its end builds the shorter
/// sequence, then writes the separator, then builds the new item, whatever
/// its kind: the separator stands before every item but the first.
pub proof fn law_and_push(sep: Seq<u8>, xs: Seq<SItem>, y: SItem, g: Gen, depth: nat, max_depth: nat)
    requires
        xs.len() > 0,
    ensures
        ({
            let a = build_spec(SItem::And { sep, items: xs }, g, depth, max_depth);
            build_spec(SItem::And { sep, items: xs.push(y) }, g, depth, max_depth) == if a.ok is Ok {
                build_spec(y, crate::generate::write(a.state, sep), depth, max_depth)
            } else {
                a
            }
        }),
{
    lemma_and_push_from(sep, xs, y, 0, g, depth, max_depth);
}

// ----------------------------------------------------------------------------
// Repetitions
// ----------------------------------------------------------------------------

/// Repeating an item no time writes and draws nothing.
pub proof fn law_mul_none(inner: SItem, g: Gen, depth: nat, max_depth: nat)
    ensures
        build_spec(SItem::Mul { inner: Box::new(inner), min: 0, max: 0 }, g, depth, max_depth) == done(g),
{
    assert(repeat_spec(inner, 0, g, depth, max_depth) == done(g));
}

/// Without a range (`max <= min`) an item is repeated exactly `min` times,
/// whatever its kind: it is built once, then repeated `min - 1` times from
/// where that build left off.
pub proof fn law_mul_fixed_step(inner: SItem, min: usize, max: usize, g: Gen, depth: nat, max_depth: nat)
    requires
        max <= min,
        min > 0,
    ensures
        ({
            let o = build_spec(inner, g, depth, max_depth);
            build_spec(SItem::Mul { inner: Box::new(inner), min, max }, g, depth, max_depth) == if o.ok is Ok {
                build_spec(SItem::Mul { inner: Box::new(inner), min: (min - 1) as usize, max: (min - 1) as usize }, o.state, depth, max_depth)
            } else {
                o
            }
        }),
{
    lemma_build_budget(inner, g, depth, max_depth);
    let o = build_spec(inner, g, depth, max_depth);
    assert(repeat_spec(inner, min as nat, g, depth, max_depth) == if o.ok is Ok {
        repeat_spec(inner, (min - 1) as nat, o.state, depth, max_depth)
    } else {
        o
    });
    assert(build_spec(SItem::Mul { inner: Box::new(inner), min: (min - 1) as usize, max: (min - 1) as usize }, o.state, depth, max_depth)
        == repeat_spec(inner, (min - 1) as nat, o.state, depth, max_depth));
}

/// With a range (`max > min`) the count is the value drawn first: the item
/// is then repeated that many times, as without a range.
pub proof fn law_mul_drawn(inner: SItem, min: usize, max: usize, g: Gen, depth: nat, max_depth: nat)
    requires
        max > min,
        0 <= draw_at(g, 0) <= usize::MAX,
    ensures
        ({
            let n = draw_at(g, 0) as usize;
            build_spec(SItem::Mul { inner: Box::new(inner), min, max }, g, depth, max_depth)
                == build_spec(SItem::Mul { inner: Box::new(inner), min: n, max: n }, skip_draws(g, 1), depth, max_depth)
        }),
{
}

// ----------------------------------------------------------------------------
// Optional items
// ----------------------------------------------------------------------------

/// At the depth limit an optional item that holds references is left out:
/// nothing is written, nothing is drawn, nothing changes.
pub proof fn law_opt_left_out_at_limit(inner: SItem, g: Gen, depth: nat, max_depth: nat)
    requires
        depth >= max_depth,
    ensures
        build_spec(SItem::Opt { inner: Box::new(inner), has_refs: true }, g, depth, max_depth) == done(g),
{
    assert(opt_spec(inner, true, g, depth, max_depth, true) == done(g));
}

/// Computing lengths marks an optional item as holding references whenever
/// its inner item needs a rule of known length (a length above that of
/// fixed content): in particular an optional reference to a rule whose
/// length is known. An item of fixed content leaves the mark as it was; the
/// length is that of the inner item. So, at the depth limit, an optional
/// reference to a rule of known length is left out once lengths are known.
pub proof fn law_opt_calc_marks_refs(inner: SItem, has_refs: bool, lengths: Seq<usize>, g: Gen, depth: nat, max_depth: nat)
    ensures
        ({
            let c = ref_calc(SItem::Opt { inner: Box::new(inner), has_refs }, lengths);
            &&& c.item is Opt
            &&& c.len == ref_calc(inner, lengths).len
            &&& ref_calc(inner, lengths).len > 1 ==> c.item->has_refs
            &&& has_refs ==> c.item->has_refs
            &&& inner is Direct ==> c.item->has_refs == has_refs
            &&& (inner matches SItem::Ref { name, idx: Some(i) } && 0 < known_len(lengths, i) < usize::MAX)
                ==> c.item->has_refs
            &&& (inner matches SItem::Ref { name, idx: Some(i) } && 0 < known_len(lengths, i) < usize::MAX && depth >= max_depth)
                ==> build_spec(c.item, g, depth, max_depth) == done(g)
        }),
{
    let c = ref_calc(inner, lengths);
    assert(ref_calc(SItem::Opt { inner: Box::new(inner), has_refs }, lengths)
        == crate::lengths::Calc { item: SItem::Opt { inner: Box::new(c.item), has_refs: has_refs || c.len > 1 }, len: c.len });
    if let SItem::Ref { name, idx: Some(i) } = inner {
        if 0 < known_len(lengths, i) < usize::MAX {
            assert(c.len == crate::lengths::ref_len(known_len(lengths, i)));
            assert(c.len > 1);
            assert(opt_spec(c.item, true, g, depth, max_depth, true) == done(g));
        }
    }
}

// ----------------------------------------------------------------------------
// References
// ----------------------------------------------------------------------------

/// At the depth limit a reference is expanded to one of the shortest
/// options of the rule picked for it, when every rule offered has shortest
/// options: one value is drawn for the rule, one for the option, and one
/// reference less may be expanded from there on.
pub proof fn law_ref_at_limit_takes_shortest(name: Seq<char>, i: usize, g: Gen, depth: nat, max_depth: nat)
    requires
        depth >= max_depth,
        g.budget > 0,
        has_rule(g.scopes, i),
        rule_options(g.scopes, i).len() > 0,
        forall|k: int| 0 <= k < rule_options(g.scopes, i).len() ==> {
            &&& (#[trigger] rule_options(g.scopes, i)[k]).shortest.len() > 0
            &&& forall|x: usize| rule_options(g.scopes, i)[k].shortest.contains(x) ==> x < rule_options(g.scopes, i)[k].choices.len()
        },
    ensures
        ({
            let opts = rule_options(g.scopes, i);
            let g2 = skip_draws(skip_draws(Gen { budget: (g.budget - 1) as nat, ..g }, 1), 1);
            exists|k: int, c: usize| 0 <= k < opts.len() && #[trigger] opts[k].shortest.contains(c)
                && build_spec(SItem::Ref { name, idx: Some(i) }, g, depth, max_depth)
                    == build_spec(opts[k].choices[c as int], g2, depth + 1, max_depth)
        }),
{
    let opts = rule_options(g.scopes, i);
    let g1 = Gen { budget: (g.budget - 1) as nat, ..g };
    let k = draw_index(draw_at(g1, 0), opts.len() as usize) as int;
    let o = opts[k];
    let gs = skip_draws(g1, 1);
    let a = draw_index(draw_at(gs, 0), o.shortest.len() as usize) as int;
    let c = o.shortest[a];
    assert(o.shortest.contains(c));
    assert(c < o.choices.len());
    assert(rule_spec(i, g1, depth + 1, max_depth, true) == choice_spec(o, gs, depth + 1, max_depth, true));
}

/// Below the depth limit a reference is expanded to one of the options
/// that the rule picked for it can be built with: one value is drawn for
/// the rule, one for the option, and one reference less may be expanded
/// from there on. Its shortest options play no part.
pub proof fn law_ref_below_limit_takes_any_option(name: Seq<char>, i: usize, g: Gen, depth: nat, max_depth: nat)
    requires
        depth < max_depth,
        g.budget > 0,
        has_rule(g.scopes, i),
        rule_options(g.scopes, i).len() > 0,
        forall|k: int| 0 <= k < rule_options(g.scopes, i).len() ==> forall|x: usize|
            (#[trigger] rule_options(g.scopes, i)[k]).indices.contains(x) ==> x < rule_options(g.scopes, i)[k].choices.len(),
    ensures
        ({
            let opts = rule_options(g.scopes, i);
            let g2 = skip_draws(skip_draws(Gen { budget: (g.budget - 1) as nat, ..g }, 1), 1);
            exists|k: int, c: usize| 0 <= k < opts.len() && #[trigger] opts[k].indices.contains(c)
                && build_spec(SItem::Ref { name, idx: Some(i) }, g, depth, max_depth)
                    == build_spec(opts[k].choices[c as int], g2, depth + 1, max_depth)
        }),
{
    let opts = rule_options(g.scopes, i);
    let g1 = Gen { budget: (g.budget - 1) as nat, ..g };
    let k = draw_index(draw_at(g1, 0), opts.len() as usize) as int;
    let o = opts[k];
    let gs = skip_draws(g1, 1);
    lemma_rule_options_nonempty(g.scopes, i);
    assert(o.indices.len() > 0);
    let a = draw_index(draw_at(gs, 0), o.indices.len() as usize) as int;
    let c = o.indices[a];
    assert(o.indices.contains(c));
    assert(c < o.choices.len());
    assert(rule_spec(i, g1, depth + 1, max_depth, false) == choice_spec(o, gs, depth + 1, max_depth, false));
}

/// Every rule that `rule_options` offers has an option.
proof fn lemma_rule_options_nonempty(scopes: Seq<Seq<SOr>>, i: usize)
    ensures
        forall|k: int| 0 <= k < rule_options(scopes, i).len() ==> (#[trigger] rule_options(scopes, i)[k]).indices.len() > 0,
    decreases scopes.len(),
{
    if scopes.len() > 0 {
        lemma_rule_options_nonempty(scopes.drop_first(), i);
        let o = scopes[0][i as int];
        let head: Seq<SOr> = if o.indices.len() > 0 { seq![o] } else { Seq::empty() };
        let rest = rule_options(scopes.drop_first(), i);
        assert(rule_options(scopes, i) == head + rest);
        assert forall|k: int| 0 <= k < rule_options(scopes, i).len() implies (#[trigger] rule_options(scopes, i)[k]).indices.len() > 0 by {
            if k < head.len() {
                assert(rule_options(scopes, i)[k] == head[k]);
            } else {
                assert(rule_options(scopes, i)[k] == rest[k - head.len()]);
            }
        }
    }
}

/// At the depth limit a choice with shortest options builds one of them,
/// after drawing one value.
pub proof fn law_or_at_limit_takes_shortest(o: SOr, g: Gen, depth: nat, max_depth: nat)
    requires
        depth >= max_depth,
        o.shortest.len() > 0,
        forall|x: usize| o.shortest.contains(x) ==> x < o.choices.len(),
    ensures
        exists|c: usize| #[trigger] o.shortest.contains(c)
            && build_spec(SItem::Or(o), g, depth, max_depth) == build_spec(o.choices[c as int], skip_draws(g, 1), depth, max_depth),
{
    let a = draw_index(draw_at(g, 0), o.shortest.len() as usize) as int;
    let c = o.shortest[a];
    assert(o.shortest.contains(c));
    assert(choice_spec(o, g, depth, max_depth, true) == build_spec(o.choices[c as int], skip_draws(g, 1), depth, max_depth));
}

/// Below the depth limit a choice does not look at its shortest options:
/// replacing them changes nothing that building it does.
pub proof fn law_or_below_limit_ignores_shortest(o: SOr, shortest: Seq<usize>, g: Gen, depth: nat, max_depth: nat)
    requires
        depth < max_depth,
    ensures
        build_spec(SItem::Or(o), g, depth, max_depth) == build_spec(SItem::Or(SOr { shortest, ..o }), g, depth, max_depth),
{
    let o2 = SOr { shortest, ..o };
    assert(pick_choice(o, g, false) == pick_choice(o2, g, false));
    assert(build_spec(SItem::Or(o), g, depth, max_depth) == choice_spec(o, g, depth, max_depth, false));
    assert(build_spec(SItem::Or(o2), g, depth, max_depth) == choice_spec(o2, g, depth, max_depth, false));
}

/// A sequence of no items writes and draws nothing.
pub proof fn law_and_empty(sep: Seq<u8>, g: Gen, depth: nat, max_depth: nat)
    ensures
        build_spec(SItem::And { sep, items: Seq::empty() }, g, depth, max_depth) == done(g),
{
    assert(and_spec(sep, Seq::empty(), 0, g, depth, max_depth) == done(g));
}

/// Where an optional item is not left out, one value is drawn as a coin:
/// on `0` nothing else happens, otherwise the inner item is built from
/// there.
pub proof fn law_opt_coin(inner: SItem, has_refs: bool, g: Gen, depth: nat, max_depth: nat)
    requires
        !(depth >= max_depth && has_refs),
    ensures
        build_spec(SItem::Opt { inner: Box::new(inner), has_refs }, g, depth, max_depth) == if draw_at(g, 0) == 0 {
            done(skip_draws(g, 1))
        } else {
            build_spec(inner, skip_draws(g, 1), depth, max_depth)
        },
{
    let shortest = depth >= max_depth;
    assert(opt_spec(inner, has_refs, g, depth, max_depth, shortest) == if draw_at(g, 0) == 0 {
        done(skip_draws(g, 1))
    } else {
        build_spec(inner, skip_draws(g, 1), depth, max_depth)
    });
}

} // verus!
