//! What building an item promises, for every state it starts from.
use vstd::prelude::*;
use crate::fields::SItem;
use crate::fields::SOr;
use crate::generate::{
    build_spec, and_spec, repeat_spec, preid_spec, pre_spec, rule_spec, choice_spec, opt_spec, pick_choice,
    rule_options, Gen, Outcome, done, draw_at, skip_draws, draw_index, extra_len, letters,
    add_id, gen_id, pick_bytes, id_len,
};

verus! {

/// The parts, with `sep` between each two of them.
pub open spec fn join_from(sep: Seq<u8>, parts: Seq<Seq<u8>>, i: nat) -> Seq<u8>
    decreases parts.len() - i,
{
    if i >= parts.len() {
        Seq::empty()
    } else {
        (if sep.len() > 0 && i > 0 { sep } else { Seq::empty() }) + parts[i as int] + join_from(sep, parts, i + 1)
    }
}

/// The parts joined by `sep`.
pub open spec fn join(sep: Seq<u8>, parts: Seq<Seq<u8>>) -> Seq<u8> {
    join_from(sep, parts, 0)
}

/// Each part as a `Direct` item.
pub open spec fn directs(parts: Seq<Seq<u8>>) -> Seq<SItem> {
    Seq::new(parts.len(), |i: int| SItem::Direct(parts[i]))
}

/// `v` written `n` times.
pub open spec fn repeat_bytes(v: Seq<u8>, n: nat) -> Seq<u8>
    decreases n,
{
    if n == 0 {
        Seq::empty()
    } else {
        v + repeat_bytes(v, (n - 1) as nat)
    }
}

proof fn lemma_write_write(g: Gen, a: Seq<u8>, b: Seq<u8>)
    ensures
        crate::generate::write(crate::generate::write(g, a), b) == crate::generate::write(g, a + b),
{
    assert(g.out + a + b =~= g.out + (a + b));
}

proof fn lemma_and_directs_from(sep: Seq<u8>, parts: Seq<Seq<u8>>, i: nat, g: Gen, depth: nat, max_depth: nat)
    requires
        i <= parts.len(),
    ensures
        and_spec(sep, directs(parts), i, g, depth, max_depth) == done(crate::generate::write(g, join_from(sep, parts, i))),
    decreases parts.len() - i,
{
    let items = directs(parts);
    if i >= parts.len() {
        assert(g.out + Seq::<u8>::empty() =~= g.out);
    } else {
        let g0 = if sep.len() > 0 && i > 0 { crate::generate::write(g, sep) } else { g };
        let g1 = crate::generate::write(g0, parts[i as int]);
        assert(build_spec(items[i as int], g0, depth, max_depth) == done(g1));
        lemma_and_directs_from(sep, parts, i + 1, g1, depth, max_depth);
        let s0: Seq<u8> = if sep.len() > 0 && i > 0 { sep } else { Seq::empty() };
        assert(g0 == crate::generate::write(g, s0)) by {
            assert(g.out + Seq::<u8>::empty() =~= g.out);
        }
        lemma_write_write(g, s0, parts[i as int]);
        lemma_write_write(g, s0 + parts[i as int], join_from(sep, parts, i + 1));
    }
}

/// Building a sequence of fixed byte strings writes them joined by the
/// separator, and draws nothing.
pub proof fn law_and_of_directs(sep: Seq<u8>, parts: Seq<Seq<u8>>, g: Gen, depth: nat, max_depth: nat)
    ensures
        build_spec(SItem::And { sep, items: directs(parts) }, g, depth, max_depth) == done(crate::generate::write(g, join(sep, parts))),
{
    lemma_and_directs_from(sep, parts, 0, g, depth, max_depth);
}

/// Repeating a fixed byte string `n` times writes it `n` times, and draws
/// nothing.
pub proof fn law_repeat_direct(v: Seq<u8>, n: nat, g: Gen, depth: nat, max_depth: nat)
    ensures
        repeat_spec(SItem::Direct(v), n, g, depth, max_depth) == done(crate::generate::write(g, repeat_bytes(v, n))),
    decreases n,
{
    if n == 0 {
        assert(g.out + Seq::<u8>::empty() =~= g.out);
    } else {
        let g1 = crate::generate::write(g, v);
        assert(build_spec(SItem::Direct(v), g, depth, max_depth) == done(g1));
        law_repeat_direct(v, (n - 1) as nat, g1, depth, max_depth);
        lemma_write_write(g, v, repeat_bytes(v, (n - 1) as nat));
    }
}

/// A random string has a length of at least `min` and at most `min + diff`,
/// and every byte of it is a byte of the charset; nothing else changes but
/// the values drawn.
pub proof fn law_str_output(min: usize, max: usize, diff: usize, charset: Seq<u8>, g: Gen, depth: nat, max_depth: nat)
    requires
        charset.len() > 0,
        min + diff <= usize::MAX,
    ensures
        ({
            let o = build_spec(SItem::Str { min, max, diff, charset }, g, depth, max_depth);
            &&& o.ok is Ok
            &&& o.state.pre == g.pre
            &&& o.state.scopes == g.scopes
            &&& o.state.budget == g.budget
            &&& exists|s: Seq<u8>| #![auto] o.state.out == g.out + s
                && min <= s.len() <= min + diff
                && forall|i: int| 0 <= i < s.len() ==> charset.contains(s[i])
        }),
{
    let rem = extra_len(draw_at(g, 0), diff);
    let g1 = skip_draws(g, 1);
    let n = (rem + min) as nat;
    let s = pick_bytes(g1, n, charset);
    assert forall|i: int| 0 <= i < s.len() implies charset.contains(s[i]) by {
        let k = draw_index(draw_at(g1, i), charset.len() as usize) as int;
        assert(0 <= k < charset.len());
        assert(s[i] == charset[k]);
    }
}

/// A fixed byte string is written as it is.
pub proof fn law_direct(v: Seq<u8>, g: Gen, depth: nat, max_depth: nat)
    ensures
        build_spec(SItem::Direct(v), g, depth, max_depth) == done(crate::generate::write(g, v)),
{
}

/// Flushing moves what was written so far behind the front part.
pub proof fn law_pre_flush(g: Gen, depth: nat, max_depth: nat)
    ensures
        build_spec(SItem::PreFlush, g, depth, max_depth) == done(Gen { pre: g.pre + g.out, out: Seq::empty(), ..g }),
{
}

/// A new identifier is 10 to 19 lowercase letters; it is written out and,
/// at once, added as an option of its rule in the innermost scope.
pub proof fn law_id(name: Seq<char>, i: usize, g: Gen, depth: nat, max_depth: nat)
    requires
        g.scopes.len() > 0,
        i < g.scopes[0].len(),
    ensures
        ({
            let o = build_spec(SItem::Id { name, idx: Some(i) }, g, depth, max_depth);
            &&& o.ok is Ok
            &&& exists|id: Seq<u8>| #![auto] 10 <= id.len() < 20
                && (forall|k: int| 0 <= k < id.len() ==> letters().contains(id[k]))
                && o.state.out == g.out + id
                && o.state.scopes == add_id(g.scopes, i, id)
                && o.state.pre == g.pre
        }),
{
    let (g1, id) = gen_id(g);
    let n = id_len(draw_at(g, 0));
    assert(id == pick_bytes(skip_draws(g, 1), n, letters()));
    assert forall|k: int| 0 <= k < id.len() implies letters().contains(id[k]) by {
        let j = draw_index(draw_at(skip_draws(g, 1), k), 26) as int;
        assert(letters().len() == 26);
        assert(id[k] == letters()[j]);
    }
}

/// `g1` has the scopes of `g0`, but for what the innermost one holds.
pub open spec fn keeps_outer(g0: Gen, g1: Gen) -> bool {
    &&& g1.scopes.len() == g0.scopes.len()
    &&& forall|j: int| 1 <= j < g0.scopes.len() ==> #[trigger] g1.scopes[j] == g0.scopes[j]
}

proof fn lemma_keeps_outer_trans(g0: Gen, g1: Gen, g2: Gen)
    requires
        keeps_outer(g0, g1),
        keeps_outer(g1, g2),
    ensures
        keeps_outer(g0, g2),
{
}

proof fn lemma_add_id_outer(g0: Gen, scopes: Seq<Seq<SOr>>, i: usize, id: Seq<u8>)
    requires
        scopes.len() == g0.scopes.len(),
        scopes.len() > 0,
        i < scopes[0].len(),
        forall|j: int| 1 <= j < g0.scopes.len() ==> #[trigger] scopes[j] == g0.scopes[j],
    ensures
        keeps_outer(g0, Gen { scopes: add_id(scopes, i, id), ..g0 }),
{
}

proof fn lemma_build_outer(item: SItem, g: Gen, depth: nat, max_depth: nat)
    ensures
        keeps_outer(g, build_spec(item, g, depth, max_depth).state),
    decreases g.budget, 1int, item, 0int,
{
    let shortest = depth >= max_depth;
    match item {
        SItem::And { sep, items } => {
            lemma_and_outer(sep, items, 0, g, depth, max_depth);
        },
        SItem::Or(o) => {
            lemma_choice_outer(o, g, depth, max_depth, shortest);
        },
        SItem::Ref { name, idx } => {
            if idx is Some && g.budget > 0 {
                let g1 = Gen { budget: (g.budget - 1) as nat, ..g };
                lemma_rule_outer(idx->0, g1, depth + 1, max_depth, shortest);
            }
        },
        SItem::Opt { inner, has_refs } => {
            lemma_opt_outer(*inner, has_refs, g, depth, max_depth, shortest);
        },
        SItem::Mul { inner, min, max } => {
            if max > min {
                lemma_repeat_outer(*inner, draw_at(g, 0) as nat, skip_draws(g, 1), depth, max_depth);
            } else {
                lemma_repeat_outer(*inner, min as nat, g, depth, max_depth);
            }
        },
        SItem::Id { name, idx } => {
            if idx is Some && g.scopes.len() > 0 && idx->0 < g.scopes[0].len() {
                let (g1, id) = gen_id(g);
                lemma_add_id_outer(g, g1.scopes, idx->0, id);
            }
        },
        SItem::PreId { name, idx, sep, items, ids } => {
            if idx is Some && g.scopes.len() > 0 && idx->0 < g.scopes[0].len() {
                lemma_preid_outer(sep, items, ids, g, depth, max_depth);
                let (o, id) = preid_spec(sep, items, ids, g, depth, max_depth);
                if o.ok is Ok && o.state.scopes.len() > 0 && idx->0 < o.state.scopes[0].len() {
                    lemma_add_id_outer(g, o.state.scopes, idx->0, id);
                }
            }
        },
        SItem::Scoped { inner } => {
            if g.scopes.len() > 0 {
                let g2 = Gen { scopes: seq![crate::rules::fresh_scope(g.scopes[0].len())] + g.scopes, ..g };
                lemma_build_outer(*inner, g2, depth, max_depth);
                let o = build_spec(*inner, g2, depth, max_depth);
                assert forall|j: int| 1 <= j < g.scopes.len() implies #[trigger] o.state.scopes.drop_first()[j] == g.scopes[j] by {
                    assert(o.state.scopes[j + 1] == g2.scopes[j + 1]);
                }
            }
        },
        _ => {},
    }
}

proof fn lemma_and_outer(sep: Seq<u8>, items: Seq<SItem>, i: nat, g: Gen, depth: nat, max_depth: nat)
    ensures
        keeps_outer(g, and_spec(sep, items, i, g, depth, max_depth).state),
    decreases g.budget, 1int, items, items.len() - i,
{
    if i < items.len() {
        let g0 = if sep.len() > 0 && i > 0 { crate::generate::write(g, sep) } else { g };
        lemma_build_outer(items[i as int], g0, depth, max_depth);
        let o = build_spec(items[i as int], g0, depth, max_depth);
        if o.ok is Ok && o.state.budget <= g.budget {
            lemma_and_outer(sep, items, i + 1, o.state, depth, max_depth);
            lemma_keeps_outer_trans(g, o.state, and_spec(sep, items, i + 1, o.state, depth, max_depth).state);
        }
    }
}

proof fn lemma_repeat_outer(inner: SItem, n: nat, g: Gen, depth: nat, max_depth: nat)
    ensures
        keeps_outer(g, repeat_spec(inner, n, g, depth, max_depth).state),
    decreases g.budget, 1int, inner, n,
{
    if n > 0 {
        lemma_build_outer(inner, g, depth, max_depth);
        let o = build_spec(inner, g, depth, max_depth);
        if o.ok is Ok && o.state.budget <= g.budget {
            lemma_repeat_outer(inner, (n - 1) as nat, o.state, depth, max_depth);
            lemma_keeps_outer_trans(g, o.state, repeat_spec(inner, (n - 1) as nat, o.state, depth, max_depth).state);
        }
    }
}

proof fn lemma_preid_outer(sep: Seq<u8>, items: Seq<SItem>, ids: Seq<usize>, g: Gen, depth: nat, max_depth: nat)
    ensures
        keeps_outer(g, preid_spec(sep, items, ids, g, depth, max_depth).0.state),
    decreases g.budget, 1int, items, items.len() + 1,
{
    let (g1, id) = gen_id(g);
    lemma_pre_outer(sep, items, ids, id, 0, Gen { out: Seq::empty(), ..g1 }, g1.out, depth, max_depth);
}

proof fn lemma_pre_outer(
    sep: Seq<u8>,
    items: Seq<SItem>,
    ids: Seq<usize>,
    id: Seq<u8>,
    k: nat,
    g: Gen,
    real_out: Seq<u8>,
    depth: nat,
    max_depth: nat,
)
    ensures
        keeps_outer(g, pre_spec(sep, items, ids, id, k, g, real_out, depth, max_depth).0.state),
    decreases g.budget, 1int, items, items.len() - k,
{
    if k < items.len() {
        let ro = if sep.len() > 0 && k > 0 { real_out + sep } else { real_out };
        if ids.contains(k as usize) {
            let g1 = crate::generate::write(g, id);
            lemma_pre_outer(sep, items, ids, id, k + 1, g1, ro, depth, max_depth);
        } else {
            lemma_build_outer(items[k as int], g, depth, max_depth);
            let o = build_spec(items[k as int], g, depth, max_depth);
            if o.ok is Ok && o.state.budget <= g.budget {
                lemma_pre_outer(sep, items, ids, id, k + 1, o.state, ro, depth, max_depth);
                lemma_keeps_outer_trans(g, o.state, pre_spec(sep, items, ids, id, k + 1, o.state, ro, depth, max_depth).0.state);
            }
        }
    }
}

proof fn lemma_rule_outer(i: usize, g: Gen, depth: nat, max_depth: nat, shortest: bool)
    ensures
        keeps_outer(g, rule_spec(i, g, depth, max_depth, shortest).state),
    decreases g.budget, 2int, SItem::PreFlush, 0int,
{
    if crate::generate::has_rule(g.scopes, i) {
        let opts = rule_options(g.scopes, i);
        if opts.len() > 0 {
            let o = opts[draw_index(draw_at(g, 0), opts.len() as usize) as int];
            lemma_choice_outer(o, skip_draws(g, 1), depth, max_depth, shortest);
        }
    }
}

proof fn lemma_choice_outer(o: SOr, g: Gen, depth: nat, max_depth: nat, shortest: bool)
    ensures
        keeps_outer(g, choice_spec(o, g, depth, max_depth, shortest).state),
    decreases g.budget, 1int, o, 0int,
{
    let (g1, c) = pick_choice(o, g, shortest);
    assert(g1.scopes == g.scopes);
    match c {
        Ok(ci) => {
            if ci < o.choices.len() && g1.budget <= g.budget {
                lemma_build_outer(o.choices[ci as int], g1, depth, max_depth);
            }
        },
        Err(e) => {},
    }
}

proof fn lemma_opt_outer(inner: SItem, has_refs: bool, g: Gen, depth: nat, max_depth: nat, shortest: bool)
    ensures
        keeps_outer(g, opt_spec(inner, has_refs, g, depth, max_depth, shortest).state),
    decreases g.budget, 1int, inner, 1int,
{
    if !(shortest && has_refs) && draw_at(g, 0) != 0 {
        lemma_build_outer(inner, skip_draws(g, 1), depth, max_depth);
    }
}

/// The front part of `g1` begins with the front part of `g0`.
pub open spec fn pre_grows(g0: Gen, g1: Gen) -> bool {
    &&& g0.pre.len() <= g1.pre.len()
    &&& forall|i: int| 0 <= i < g0.pre.len() ==> #[trigger] g1.pre[i] == g0.pre[i]
}

proof fn lemma_pre_grows_trans(g0: Gen, g1: Gen, g2: Gen)
    requires
        pre_grows(g0, g1),
        pre_grows(g1, g2),
    ensures
        pre_grows(g0, g2),
{
    assert forall|i: int| 0 <= i < g0.pre.len() implies #[trigger] g2.pre[i] == g0.pre[i] by {
        assert(g2.pre[i] == g1.pre[i]);
    }
}

proof fn lemma_pre_grows_append(g0: Gen, g1: Gen)
    requires
        exists|t: Seq<u8>| g1.pre == g0.pre + t,
    ensures
        pre_grows(g0, g1),
{
    let t = choose|t: Seq<u8>| g1.pre == g0.pre + t;
    assert forall|i: int| 0 <= i < g0.pre.len() implies #[trigger] g1.pre[i] == g0.pre[i] by {
        assert((g0.pre + t)[i] == g0.pre[i]);
    }
}

proof fn lemma_build_pre(item: SItem, g: Gen, depth: nat, max_depth: nat)
    ensures
        pre_grows(g, build_spec(item, g, depth, max_depth).state),
    decreases g.budget, 1int, item, 0int,
{
    let shortest = depth >= max_depth;
    match item {
        SItem::And { sep, items } => {
            lemma_and_pre(sep, items, 0, g, depth, max_depth);
        },
        SItem::Or(o) => {
            lemma_choice_pre(o, g, depth, max_depth, shortest);
        },
        SItem::Ref { name, idx } => {
            if idx is Some && g.budget > 0 {
                let g1 = Gen { budget: (g.budget - 1) as nat, ..g };
                lemma_rule_pre(idx->0, g1, depth + 1, max_depth, shortest);
            }
        },
        SItem::Opt { inner, has_refs } => {
            lemma_opt_pre(*inner, has_refs, g, depth, max_depth, shortest);
        },
        SItem::Mul { inner, min, max } => {
            if max > min {
                lemma_repeat_pre(*inner, draw_at(g, 0) as nat, skip_draws(g, 1), depth, max_depth);
            } else {
                lemma_repeat_pre(*inner, min as nat, g, depth, max_depth);
            }
        },
        SItem::Id { name, idx } => {
            assert(gen_id(g).0.pre == g.pre);
        },
        SItem::PreId { name, idx, sep, items, ids } => {
            if idx is Some && g.scopes.len() > 0 && idx->0 < g.scopes[0].len() {
                lemma_preid_pre(sep, items, ids, g, depth, max_depth);
            }
        },
        SItem::Scoped { inner } => {
            if g.scopes.len() > 0 {
                let g2 = Gen { scopes: seq![crate::rules::fresh_scope(g.scopes[0].len())] + g.scopes, ..g };
                lemma_build_pre(*inner, g2, depth, max_depth);

            }
        },
        _ => {},
    }
}

proof fn lemma_and_pre(sep: Seq<u8>, items: Seq<SItem>, i: nat, g: Gen, depth: nat, max_depth: nat)
    ensures
        pre_grows(g, and_spec(sep, items, i, g, depth, max_depth).state),
    decreases g.budget, 1int, items, items.len() - i,
{
    if i < items.len() {
        let g0 = if sep.len() > 0 && i > 0 { crate::generate::write(g, sep) } else { g };
        lemma_build_pre(items[i as int], g0, depth, max_depth);
        let o = build_spec(items[i as int], g0, depth, max_depth);
        if o.ok is Ok && o.state.budget <= g.budget {
            lemma_and_pre(sep, items, i + 1, o.state, depth, max_depth);
            lemma_pre_grows_trans(g, o.state, and_spec(sep, items, i + 1, o.state, depth, max_depth).state);
        }
    }
}

proof fn lemma_repeat_pre(inner: SItem, n: nat, g: Gen, depth: nat, max_depth: nat)
    ensures
        pre_grows(g, repeat_spec(inner, n, g, depth, max_depth).state),
    decreases g.budget, 1int, inner, n,
{
    if n > 0 {
        lemma_build_pre(inner, g, depth, max_depth);
        let o = build_spec(inner, g, depth, max_depth);
        if o.ok is Ok && o.state.budget <= g.budget {
            lemma_repeat_pre(inner, (n - 1) as nat, o.state, depth, max_depth);
            lemma_pre_grows_trans(g, o.state, repeat_spec(inner, (n - 1) as nat, o.state, depth, max_depth).state);
        }
    }
}

proof fn lemma_preid_pre(sep: Seq<u8>, items: Seq<SItem>, ids: Seq<usize>, g: Gen, depth: nat, max_depth: nat)
    ensures
        pre_grows(g, preid_spec(sep, items, ids, g, depth, max_depth).0.state),
    decreases g.budget, 1int, items, items.len() + 1,
{
    let (g1, id) = gen_id(g);
    let g0 = Gen { out: Seq::empty(), ..g1 };
    lemma_pre_pre(sep, items, ids, id, 0, g0, g1.out, depth, max_depth);
    let (o, real_out) = pre_spec(sep, items, ids, id, 0, g0, g1.out, depth, max_depth);
    let g2 = o.state;
    let g3 = Gen { pre: g2.pre + g2.out, ..g2 };
    lemma_pre_grows_append(g2, g3);
    lemma_pre_grows_trans(g0, g2, g3);
}

proof fn lemma_pre_pre(
    sep: Seq<u8>,
    items: Seq<SItem>,
    ids: Seq<usize>,
    id: Seq<u8>,
    k: nat,
    g: Gen,
    real_out: Seq<u8>,
    depth: nat,
    max_depth: nat,
)
    ensures
        pre_grows(g, pre_spec(sep, items, ids, id, k, g, real_out, depth, max_depth).0.state),
    decreases g.budget, 1int, items, items.len() - k,
{
    if k < items.len() {
        let ro = if sep.len() > 0 && k > 0 { real_out + sep } else { real_out };
        if ids.contains(k as usize) {
            let g1 = crate::generate::write(g, id);
            lemma_pre_pre(sep, items, ids, id, k + 1, g1, ro, depth, max_depth);
        } else {
            lemma_build_pre(items[k as int], g, depth, max_depth);
            let o = build_spec(items[k as int], g, depth, max_depth);
            if o.ok is Ok && o.state.budget <= g.budget {
                lemma_pre_pre(sep, items, ids, id, k + 1, o.state, ro, depth, max_depth);
                lemma_pre_grows_trans(g, o.state, pre_spec(sep, items, ids, id, k + 1, o.state, ro, depth, max_depth).0.state);
            }
        }
    }
}

proof fn lemma_rule_pre(i: usize, g: Gen, depth: nat, max_depth: nat, shortest: bool)
    ensures
        pre_grows(g, rule_spec(i, g, depth, max_depth, shortest).state),
    decreases g.budget, 2int, SItem::PreFlush, 0int,
{
    if crate::generate::has_rule(g.scopes, i) {
        let opts = rule_options(g.scopes, i);
        if opts.len() > 0 {
            let o = opts[draw_index(draw_at(g, 0), opts.len() as usize) as int];
            lemma_choice_pre(o, skip_draws(g, 1), depth, max_depth, shortest);
        }
    }
}

proof fn lemma_choice_pre(o: SOr, g: Gen, depth: nat, max_depth: nat, shortest: bool)
    ensures
        pre_grows(g, choice_spec(o, g, depth, max_depth, shortest).state),
    decreases g.budget, 1int, o, 0int,
{
    let (g1, c) = pick_choice(o, g, shortest);
    assert(g1.pre == g.pre);
    match c {
        Ok(ci) => {
            if ci < o.choices.len() && g1.budget <= g.budget {
                lemma_build_pre(o.choices[ci as int], g1, depth, max_depth);
            }
        },
        Err(e) => {},
    }
}

proof fn lemma_opt_pre(inner: SItem, has_refs: bool, g: Gen, depth: nat, max_depth: nat, shortest: bool)
    ensures
        pre_grows(g, opt_spec(inner, has_refs, g, depth, max_depth, shortest).state),
    decreases g.budget, 1int, inner, 1int,
{
    if !(shortest && has_refs) && draw_at(g, 0) != 0 {
        lemma_build_pre(inner, skip_draws(g, 1), depth, max_depth);
    }
}

/// Building an item only adds to the front part of the output: what was
/// there stays at its start.
pub proof fn law_build_keeps_front(item: SItem, g: Gen, depth: nat, max_depth: nat)
    ensures
        pre_grows(g, build_spec(item, g, depth, max_depth).state),
{
    lemma_build_pre(item, g, depth, max_depth);
}

/// Building an item changes no scope but the innermost one: the
/// identifiers it creates go there, and nowhere else.
pub proof fn law_build_keeps_outer_scopes(item: SItem, g: Gen, depth: nat, max_depth: nat)
    ensures
        keeps_outer(g, build_spec(item, g, depth, max_depth).state),
{
    lemma_build_outer(item, g, depth, max_depth);
}

/// Building a scoped item leaves every scope as it was: the identifiers
/// created inside are dropped with the scope.
pub proof fn law_scoped_drops_ids(inner: SItem, g: Gen, depth: nat, max_depth: nat)
    ensures
        build_spec(SItem::Scoped { inner: Box::new(inner) }, g, depth, max_depth).state.scopes == g.scopes,
{
    if g.scopes.len() > 0 {
        let g2 = Gen { scopes: seq![crate::rules::fresh_scope(g.scopes[0].len())] + g.scopes, ..g };
        lemma_build_outer(inner, g2, depth, max_depth);
        let o = build_spec(inner, g2, depth, max_depth);
        assert forall|j: int| 0 <= j < g.scopes.len() implies #[trigger] o.state.scopes.drop_first()[j] == g.scopes[j] by {
            assert(o.state.scopes[j + 1] == g2.scopes[j + 1]);
        }
        assert(o.state.scopes.drop_first() =~= g.scopes);
    }
}

/// Building a rule of a rule set without keeping the identifiers leaves
/// the rule set's scopes as they were.
pub proof fn law_build_without_keep(rules: Seq<Seq<SOr>>, ref_idx: usize, max_depth: nat, pre: Seq<u8>, draws: Seq<int>)
    requires
        rules.len() > 0,
    ensures
        crate::rules::build_outcome(crate::rules::build_scopes(rules, false), ref_idx, max_depth, pre, draws).state.scopes.drop_first()
            == rules,
{
    let scopes = crate::rules::build_scopes(rules, false);
    let g = Gen { scopes, pre, out: Seq::empty(), draws, budget: usize::MAX as nat };
    lemma_rule_outer(ref_idx, g, 0, max_depth, false);
    let o = rule_spec(ref_idx, g, 0, max_depth, false);
    assert forall|j: int| 0 <= j < rules.len() implies #[trigger] o.state.scopes.drop_first()[j] == rules[j] by {
        assert(o.state.scopes[j + 1] == scopes[j + 1]);
    }
    assert(o.state.scopes.drop_first() =~= rules);
}

} // verus!
