//! Resolving the names in items to rule indices.
use vstd::prelude::*;
use crate::fields::{
    SItem, SOr, Item, And, Or, Ref, Opt, Mul, Id, PreId, Scoped, view_items, lemma_view_items,
    small, small_seq, lemma_small_seq,
    pre_id_marker, pre_id_bytes, direct_bytes,
};
use crate::rulemap::{RuleMap, lookup};
use crate::text::slice_equal;
use crate::lengths::{
    ready, ready_seq, ready_or, lemma_ready_seq_intro, lemma_ready_or_intro, lemma_ready_seq, lemma_ready_or, ref_calc, calc_seq,
    or_min, or_choices, or_shortest, lemma_or_choices, lemma_calc_seq_ready, plain, plain_all, lemma_plain_all, lemma_plain_pick,
    derivable, derivable_all, derivable_or, lemma_derivable_or_intro,
};

verus! {

/// The result of resolving an item: the item with its names resolved,
/// whether it can be built, and the names of the identifier rules it needs
/// that do not exist yet, in the order they were met.
pub struct Fin {
    pub item: SItem,
    pub ok: bool,
    pub new_rules: Seq<Seq<char>>,
}

/// The result of resolving a sequence of items: the items, whether all of
/// them can be built, the missing identifier rules, the positions of the
/// identifier markers, and the positions of the items that can be built.
pub struct FinSeq {
    pub items: Seq<SItem>,
    pub ok: bool,
    pub new_rules: Seq<Seq<char>>,
    pub marks: Seq<usize>,
    pub oks: Seq<usize>,
}

/// `i` is the identifier marker.
pub open spec fn is_marker(i: SItem) -> bool {
    i is Direct && direct_bytes(i) == pre_id_marker()
}

/// Resolving `item` against the names in `map`.
pub open spec fn fin(item: SItem, map: Seq<(Seq<char>, usize)>) -> Fin
    decreases item,
{
    match item {
        SItem::And { sep, items } => {
            let f = fin_seq(items, map);
            Fin { item: SItem::And { sep, items: f.items }, ok: f.ok, new_rules: f.new_rules }
        },
        SItem::Or(o) => {
            let f = fin_seq(o.choices, map);
            Fin {
                item: SItem::Or(SOr { choices: f.items, shortest: o.shortest, indices: f.oks, keep: o.keep }),
                ok: f.oks.len() > 0,
                new_rules: f.new_rules,
            }
        },
        SItem::Ref { name, idx } => Fin {
            item: SItem::Ref { name, idx: lookup(map, name) },
            ok: lookup(map, name) is Some,
            new_rules: Seq::empty(),
        },
        SItem::Opt { inner, has_refs } => {
            let f = fin(*inner, map);
            Fin { item: SItem::Opt { inner: Box::new(f.item), has_refs }, ok: f.ok, new_rules: f.new_rules }
        },
        SItem::Mul { inner, min, max } => {
            let f = fin(*inner, map);
            Fin { item: SItem::Mul { inner: Box::new(f.item), min, max }, ok: f.ok, new_rules: f.new_rules }
        },
        SItem::Scoped { inner } => {
            let f = fin(*inner, map);
            Fin { item: SItem::Scoped { inner: Box::new(f.item) }, ok: f.ok, new_rules: f.new_rules }
        },
        SItem::Id { name, idx } => Fin {
            item: SItem::Id { name, idx: lookup(map, name) },
            ok: true,
            new_rules: if lookup(map, name) is None { seq![name] } else { Seq::empty() },
        },
        SItem::PreId { name, idx, sep, items, ids } => {
            let f = fin_seq(items, map);
            Fin {
                item: SItem::PreId { name, idx: lookup(map, name), sep, items: f.items, ids: ids + f.marks },
                ok: f.ok,
                new_rules: f.new_rules + if f.ok && lookup(map, name) is None { seq![name] } else { Seq::empty() },
            }
        },
        _ => Fin { item, ok: true, new_rules: Seq::empty() },
    }
}

/// Resolving each item of a sequence in order.
pub open spec fn fin_seq(items: Seq<SItem>, map: Seq<(Seq<char>, usize)>) -> FinSeq
    decreases items,
{
    if items.len() == 0 {
        FinSeq { items: Seq::empty(), ok: true, new_rules: Seq::empty(), marks: Seq::empty(), oks: Seq::empty() }
    } else {
        let p = fin_seq(items.drop_last(), map);
        let f = fin(items.last(), map);
        let k = (items.len() - 1) as usize;
        FinSeq {
            items: p.items.push(f.item),
            ok: p.ok && f.ok,
            new_rules: p.new_rules + f.new_rules,
            marks: if is_marker(f.item) { p.marks.push(k) } else { p.marks },
            oks: if f.ok { p.oks.push(k) } else { p.oks },
        }
    }
}

/// The names of the rules that the identifiers in `item` are added to, in
/// order.
pub open spec fn id_names(item: SItem) -> Seq<Seq<char>>
    decreases item,
{
    match item {
        SItem::And { sep, items } => id_names_seq(items),
        SItem::Or(o) => id_names_seq(o.choices),
        SItem::Opt { inner, has_refs } => id_names(*inner),
        SItem::Mul { inner, min, max } => id_names(*inner),
        SItem::Scoped { inner } => id_names(*inner),
        SItem::Id { name, idx } => seq![name],
        SItem::PreId { name, idx, sep, items, ids } => id_names_seq(items).push(name),
        _ => Seq::empty(),
    }
}

pub open spec fn id_names_seq(items: Seq<SItem>) -> Seq<Seq<char>>
    decreases items,
{
    if items.len() == 0 {
        Seq::empty()
    } else {
        id_names_seq(items.drop_last()) + id_names(items.last())
    }
}

/// A plain item can be built whatever names there are.
pub proof fn lemma_plain_ok(item: SItem, names: Set<Seq<char>>)
    requires
        plain(item),
    ensures
        ok_with(item, names),
    decreases item,
{
    match item {
        SItem::And { sep, items } => {
            lemma_plain_all(items);
            assert forall|j: int| 0 <= j < items.len() implies ok_with(#[trigger] items[j], names) by {
                lemma_plain_ok(items[j], names);
            }
            lemma_all_ok_with(items, names, items.len());
        },
        SItem::Or(o) => {
            lemma_plain_all(o.choices);
            lemma_plain_ok(o.choices[0], names);
            lemma_any_ok_with(o.choices, names, o.choices.len());
        },
        SItem::Opt { inner, has_refs } => {
            lemma_plain_ok(*inner, names);
        },
        SItem::Mul { inner, min, max } => {
            lemma_plain_ok(*inner, names);
        },
        SItem::Scoped { inner } => {
            lemma_plain_ok(*inner, names);
        },
        SItem::PreId { name, idx, sep, items, ids } => {
            lemma_plain_all(items);
            assert forall|j: int| 0 <= j < items.len() implies ok_with(#[trigger] items[j], names) by {
                lemma_plain_ok(items[j], names);
            }
            lemma_all_ok_with(items, names, items.len());
        },
        _ => {},
    }
}

/// Resolving a plain item succeeds and leaves it plain.
pub proof fn lemma_fin_plain(item: SItem, map: Seq<(Seq<char>, usize)>)
    requires
        plain(item),
        small(item),
    ensures
        fin(item, map).ok,
        plain(fin(item, map).item),
    decreases item,
{
    match item {
        SItem::And { sep, items } => {
            lemma_fin_plain_seq(items, map);
        },
        SItem::Or(o) => {
            lemma_small_seq(o.choices, o.choices.len());
            lemma_fin_plain_seq(o.choices, map);
            let f = fin_seq(o.choices, map);
            let d = o.choices.drop_last();
            lemma_fin_seq_items(o.choices, map);
            let last = (o.choices.len() - 1) as int;
            assert(fin(o.choices[last], map).ok);
            assert(o.choices.last() == o.choices[last]);
            assert(f.oks == fin_seq(d, map).oks.push(last as usize));
            assert(f.oks.len() > 0 && f.oks[f.oks.len() - 1] == last as usize);
            let o1 = SOr { choices: f.items, shortest: o.shortest, indices: f.oks, keep: o.keep };
            lemma_plain_pick(o1, o1.indices.len(), (f.oks.len() - 1) as int);
        },
        SItem::Opt { inner, has_refs } => {
            lemma_fin_plain(*inner, map);
        },
        SItem::Mul { inner, min, max } => {
            lemma_fin_plain(*inner, map);
        },
        SItem::Scoped { inner } => {
            lemma_fin_plain(*inner, map);
        },
        SItem::PreId { name, idx, sep, items, ids } => {
            lemma_fin_plain_seq(items, map);
        },
        _ => {},
    }
}

pub proof fn lemma_fin_plain_seq(items: Seq<SItem>, map: Seq<(Seq<char>, usize)>)
    requires
        items.len() > 0 ==> plain_all(items),
        small_seq(items, items.len()),
    ensures
        fin_seq(items, map).ok,
        fin_seq(items, map).items.len() == items.len(),
        items.len() > 0 ==> plain_all(fin_seq(items, map).items),
    decreases items,
{
    lemma_small_seq(items, items.len());
    lemma_fin_seq_items(items, map);
    lemma_plain_all(items);
    let out = fin_seq(items, map).items;
    assert forall|j: int| 0 <= j < items.len() implies #[trigger] fin(items[j], map).ok && plain(out[j]) by {
        lemma_fin_plain(items[j], map);
    }
    assert forall|j: int| 0 <= j < out.len() implies plain(#[trigger] out[j]) by {
        assert(fin(items[j], map).ok && plain(out[j]));
    }
    lemma_plain_all(out);
}

/// `item` with the marker positions of its definitions left out: what
/// resolving an item decides, apart from those positions, which resolving
/// again records once more.
pub open spec fn drop_ids(item: SItem) -> SItem
    decreases item, 0nat,
{
    match item {
        SItem::And { sep, items } => SItem::And { sep, items: drop_ids_seq(items) },
        SItem::Or(o) => SItem::Or(SOr { choices: drop_ids_seq(o.choices), shortest: o.shortest, indices: o.indices, keep: o.keep }),
        SItem::Opt { inner, has_refs } => SItem::Opt { inner: Box::new(drop_ids(*inner)), has_refs },
        SItem::Mul { inner, min, max } => SItem::Mul { inner: Box::new(drop_ids(*inner)), min, max },
        SItem::Scoped { inner } => SItem::Scoped { inner: Box::new(drop_ids(*inner)) },
        SItem::PreId { name, idx, sep, items, ids } => SItem::PreId { name, idx, sep, items: drop_ids_seq(items), ids: Seq::empty() },
        _ => item,
    }
}

pub open spec fn drop_ids_seq(items: Seq<SItem>) -> Seq<SItem>
    decreases items, 0nat,
{
    if items.len() == 0 {
        Seq::empty()
    } else {
        drop_ids_seq(items.drop_last()).push(drop_ids(items.last()))
    }
}

pub proof fn lemma_drop_ids_seq_len(items: Seq<SItem>)
    ensures
        drop_ids_seq(items).len() == items.len(),
    decreases items.len(),
{
    if items.len() > 0 {
        lemma_drop_ids_seq_len(items.drop_last());
    }
}

/// Resolving an item that matches, up to marker positions, an item
/// resolved before, gives what resolving the original item gives, up to
/// marker positions: resolving again only refreshes the indices.
pub proof fn lemma_fin_again(y: SItem, x: SItem, m1: Seq<(Seq<char>, usize)>, m2: Seq<(Seq<char>, usize)>)
    requires
        drop_ids(y) == drop_ids(fin(x, m1).item),
    ensures
        drop_ids(fin(y, m2).item) == drop_ids(fin(x, m2).item),
        fin(y, m2).ok == fin(x, m2).ok,
    decreases x,
{
    match x {
        SItem::And { sep, items } => {
            match y {
                SItem::And { sep: sep2, items: items2 } => {
                    lemma_fin_again_seq(items2, items, m1, m2);
                },
                _ => {},
            }
        },
        SItem::Or(o) => {
            match y {
                SItem::Or(o2) => {
                    lemma_fin_again_seq(o2.choices, o.choices, m1, m2);
                },
                _ => {},
            }
        },
        SItem::Opt { inner, has_refs } => {
            match y {
                SItem::Opt { inner: inner2, has_refs: h2 } => {
                    lemma_fin_again(*inner2, *inner, m1, m2);
                },
                _ => {},
            }
        },
        SItem::Mul { inner, min, max } => {
            match y {
                SItem::Mul { inner: inner2, min: a, max: b } => {
                    lemma_fin_again(*inner2, *inner, m1, m2);
                },
                _ => {},
            }
        },
        SItem::Scoped { inner } => {
            match y {
                SItem::Scoped { inner: inner2 } => {
                    lemma_fin_again(*inner2, *inner, m1, m2);
                },
                _ => {},
            }
        },
        SItem::PreId { name, idx, sep, items, ids } => {
            match y {
                SItem::PreId { name: n2, idx: i2, sep: s2, items: items2, ids: d2 } => {
                    lemma_fin_again_seq(items2, items, m1, m2);
                },
                _ => {},
            }
        },
        _ => {},
    }
}

pub proof fn lemma_fin_again_seq(ys: Seq<SItem>, xs: Seq<SItem>, m1: Seq<(Seq<char>, usize)>, m2: Seq<(Seq<char>, usize)>)
    requires
        drop_ids_seq(ys) == drop_ids_seq(fin_seq(xs, m1).items),
    ensures
        drop_ids_seq(fin_seq(ys, m2).items) == drop_ids_seq(fin_seq(xs, m2).items),
        fin_seq(ys, m2).oks == fin_seq(xs, m2).oks,
        fin_seq(ys, m2).ok == fin_seq(xs, m2).ok,
        forall|k: usize| #[trigger] fin_seq(ys, m2).marks.contains(k) == fin_seq(xs, m2).marks.contains(k),
    decreases xs,
{
    lemma_drop_ids_seq_len(ys);
    lemma_drop_ids_seq_len(fin_seq(xs, m1).items);
    lemma_fin_seq_len(xs, m1);
    if xs.len() > 0 {
        let f1 = fin_seq(xs, m1);
        let p1 = fin_seq(xs.drop_last(), m1);
        assert(f1.items.drop_last() =~= p1.items);
        assert(f1.items.last() == fin(xs.last(), m1).item);
        let a = drop_ids_seq(ys);
        assert(a.drop_last() == drop_ids_seq(ys.drop_last()));
        assert(a.last() == drop_ids(ys.last()));
        let b = drop_ids_seq(f1.items);
        assert(b.drop_last() == drop_ids_seq(p1.items));
        assert(b.last() == drop_ids(fin(xs.last(), m1).item));
        lemma_fin_again_seq(ys.drop_last(), xs.drop_last(), m1, m2);
        lemma_fin_again(ys.last(), xs.last(), m1, m2);
        lemma_fin_marker_again(ys.last(), xs.last(), m1, m2);
        let gy = fin_seq(ys, m2);
        let gx = fin_seq(xs, m2);
        lemma_fin_seq_len(ys.drop_last(), m2);
        lemma_fin_seq_len(xs.drop_last(), m2);
        assert(gy.items.drop_last() =~= fin_seq(ys.drop_last(), m2).items);
        assert(gx.items.drop_last() =~= fin_seq(xs.drop_last(), m2).items);
        assert(drop_ids_seq(gy.items) == drop_ids_seq(gx.items));
        assert forall|k: usize| #[trigger] gy.marks.contains(k) == gx.marks.contains(k) by {
            let py = fin_seq(ys.drop_last(), m2).marks;
            let px = fin_seq(xs.drop_last(), m2).marks;
            let kk = (ys.len() - 1) as usize;
            lemma_push_or_not(py, kk, k, is_marker(fin(ys.last(), m2).item));
            lemma_push_or_not(px, kk, k, is_marker(fin(xs.last(), m2).item));
        }
    }
}

proof fn lemma_push_or_not(s: Seq<usize>, x: usize, k: usize, b: bool)
    ensures
        (if b { s.push(x) } else { s }).contains(k) == (s.contains(k) || (b && k == x)),
{
    if b {
        let t = s.push(x);
        if t.contains(k) {
            let i = choose|i: int| 0 <= i < t.len() && t[i] == k;
            if i < s.len() {
                assert(s[i] == k);
            }
        }
        if s.contains(k) {
            let i = choose|i: int| 0 <= i < s.len() && s[i] == k;
            assert(t[i] == k);
        }
        if k == x {
            assert(t[s.len() as int] == x);
        }
    }
}

proof fn lemma_fin_seq_len(items: Seq<SItem>, map: Seq<(Seq<char>, usize)>)
    ensures
        fin_seq(items, map).items.len() == items.len(),
    decreases items.len(),
{
    if items.len() > 0 {
        lemma_fin_seq_len(items.drop_last(), map);
    }
}

/// Whether resolving gives the marker does not depend on marker positions.
proof fn lemma_fin_marker_again(y: SItem, x: SItem, m1: Seq<(Seq<char>, usize)>, m2: Seq<(Seq<char>, usize)>)
    requires
        drop_ids(y) == drop_ids(fin(x, m1).item),
    ensures
        is_marker(fin(y, m2).item) == is_marker(fin(x, m2).item),
{
}

/// `item` up to what computing lengths and resolving record besides its
/// structure: the marker positions of definitions, the shortest options of
/// choices and whether optional items hold references.
pub open spec fn shape(item: SItem) -> SItem
    decreases item, 0nat,
{
    match item {
        SItem::And { sep, items } => SItem::And { sep, items: shape_seq(items) },
        SItem::Or(o) => SItem::Or(SOr { choices: shape_seq(o.choices), shortest: Seq::empty(), indices: o.indices, keep: o.keep }),
        SItem::Opt { inner, has_refs } => SItem::Opt { inner: Box::new(shape(*inner)), has_refs: false },
        SItem::Mul { inner, min, max } => SItem::Mul { inner: Box::new(shape(*inner)), min, max },
        SItem::Scoped { inner } => SItem::Scoped { inner: Box::new(shape(*inner)) },
        SItem::PreId { name, idx, sep, items, ids } => SItem::PreId { name, idx, sep, items: shape_seq(items), ids: Seq::empty() },
        _ => item,
    }
}

pub open spec fn shape_seq(items: Seq<SItem>) -> Seq<SItem>
    decreases items, 0nat,
{
    if items.len() == 0 {
        Seq::empty()
    } else {
        shape_seq(items.drop_last()).push(shape(items.last()))
    }
}

pub proof fn lemma_shape_seq_len(items: Seq<SItem>)
    ensures
        shape_seq(items).len() == items.len(),
    decreases items.len(),
{
    if items.len() > 0 {
        lemma_shape_seq_len(items.drop_last());
    }
}

/// Leaving out marker positions first changes no shape.
pub proof fn lemma_shape_drop(x: SItem)
    ensures
        shape(drop_ids(x)) == shape(x),
    decreases x, 1nat,
{
    match x {
        SItem::And { sep, items } => { lemma_shape_drop_seq(items); },
        SItem::Or(o) => { lemma_shape_drop_seq(o.choices); },
        SItem::Opt { inner, has_refs } => { lemma_shape_drop(*inner); },
        SItem::Mul { inner, min, max } => { lemma_shape_drop(*inner); },
        SItem::Scoped { inner } => { lemma_shape_drop(*inner); },
        SItem::PreId { name, idx, sep, items, ids } => { lemma_shape_drop_seq(items); },
        _ => {},
    }
}

pub proof fn lemma_shape_drop_seq(items: Seq<SItem>)
    ensures
        shape_seq(drop_ids_seq(items)) == shape_seq(items),
    decreases items, 0nat,
{
    if items.len() > 0 {
        lemma_shape_drop_seq(items.drop_last());
        lemma_shape_drop(items.last());
        let d = drop_ids_seq(items);
        assert(d.drop_last() =~= drop_ids_seq(items.drop_last()));
    }
}

/// The same as `lemma_fin_again`, up to shape.
pub proof fn lemma_fin_shape_again(y: SItem, x: SItem, m1: Seq<(Seq<char>, usize)>, m2: Seq<(Seq<char>, usize)>)
    requires
        shape(y) == shape(fin(x, m1).item),
    ensures
        shape(fin(y, m2).item) == shape(fin(x, m2).item),
        fin(y, m2).ok == fin(x, m2).ok,
        fin(y, m2).new_rules == fin(x, m2).new_rules,
    decreases x,
{
    match x {
        SItem::And { sep, items } => {
            match y {
                SItem::And { sep: sep2, items: items2 } => {
                    lemma_fin_shape_again_seq(items2, items, m1, m2);
                },
                _ => {},
            }
        },
        SItem::Or(o) => {
            match y {
                SItem::Or(o2) => {
                    lemma_fin_shape_again_seq(o2.choices, o.choices, m1, m2);
                },
                _ => {},
            }
        },
        SItem::Opt { inner, has_refs } => {
            match y {
                SItem::Opt { inner: inner2, has_refs: h2 } => {
                    lemma_fin_shape_again(*inner2, *inner, m1, m2);
                },
                _ => {},
            }
        },
        SItem::Mul { inner, min, max } => {
            match y {
                SItem::Mul { inner: inner2, min: a, max: b } => {
                    lemma_fin_shape_again(*inner2, *inner, m1, m2);
                },
                _ => {},
            }
        },
        SItem::Scoped { inner } => {
            match y {
                SItem::Scoped { inner: inner2 } => {
                    lemma_fin_shape_again(*inner2, *inner, m1, m2);
                },
                _ => {},
            }
        },
        SItem::PreId { name, idx, sep, items, ids } => {
            match y {
                SItem::PreId { name: n2, idx: i2, sep: s2, items: items2, ids: d2 } => {
                    lemma_fin_shape_again_seq(items2, items, m1, m2);
                },
                _ => {},
            }
        },
        _ => {},
    }
}

pub proof fn lemma_fin_shape_again_seq(ys: Seq<SItem>, xs: Seq<SItem>, m1: Seq<(Seq<char>, usize)>, m2: Seq<(Seq<char>, usize)>)
    requires
        shape_seq(ys) == shape_seq(fin_seq(xs, m1).items),
    ensures
        shape_seq(fin_seq(ys, m2).items) == shape_seq(fin_seq(xs, m2).items),
        fin_seq(ys, m2).oks == fin_seq(xs, m2).oks,
        fin_seq(ys, m2).ok == fin_seq(xs, m2).ok,
        fin_seq(ys, m2).new_rules == fin_seq(xs, m2).new_rules,
        forall|k: usize| #[trigger] fin_seq(ys, m2).marks.contains(k) == fin_seq(xs, m2).marks.contains(k),
    decreases xs,
{
    lemma_shape_seq_len(ys);
    lemma_shape_seq_len(fin_seq(xs, m1).items);
    lemma_fin_seq_len(xs, m1);
    if xs.len() > 0 {
        let f1 = fin_seq(xs, m1);
        let p1 = fin_seq(xs.drop_last(), m1);
        assert(f1.items.drop_last() =~= p1.items);
        assert(f1.items.last() == fin(xs.last(), m1).item);
        let a = shape_seq(ys);
        assert(a.drop_last() == shape_seq(ys.drop_last()));
        assert(a.last() == shape(ys.last()));
        let b = shape_seq(f1.items);
        assert(b.drop_last() == shape_seq(p1.items));
        assert(b.last() == shape(fin(xs.last(), m1).item));
        lemma_fin_shape_again_seq(ys.drop_last(), xs.drop_last(), m1, m2);
        lemma_fin_shape_again(ys.last(), xs.last(), m1, m2);
        lemma_fin_marker_shape(ys.last(), xs.last(), m1, m2);
        let gy = fin_seq(ys, m2);
        let gx = fin_seq(xs, m2);
        lemma_fin_seq_len(ys.drop_last(), m2);
        lemma_fin_seq_len(xs.drop_last(), m2);
        assert(gy.items.drop_last() =~= fin_seq(ys.drop_last(), m2).items);
        assert(gx.items.drop_last() =~= fin_seq(xs.drop_last(), m2).items);
        assert(shape_seq(gy.items) == shape_seq(gx.items));
        assert forall|k: usize| #[trigger] gy.marks.contains(k) == gx.marks.contains(k) by {
            let py = fin_seq(ys.drop_last(), m2).marks;
            let px = fin_seq(xs.drop_last(), m2).marks;
            let kk = (ys.len() - 1) as usize;
            lemma_push_or_not(py, kk, k, is_marker(fin(ys.last(), m2).item));
            lemma_push_or_not(px, kk, k, is_marker(fin(xs.last(), m2).item));
        }
    }
}

/// Whether resolving gives the marker depends on shape alone.
proof fn lemma_fin_marker_shape(y: SItem, x: SItem, m1: Seq<(Seq<char>, usize)>, m2: Seq<(Seq<char>, usize)>)
    requires
        shape(y) == shape(fin(x, m1).item),
    ensures
        is_marker(fin(y, m2).item) == is_marker(fin(x, m2).item),
{
}

/// Computing lengths changes no shape.
pub proof fn lemma_shape_calc(x: SItem, lengths: Seq<usize>)
    ensures
        shape(ref_calc(x, lengths).item) == shape(x),
    decreases x, 1nat,
{
    match x {
        SItem::And { sep, items } => {
            lemma_shape_calc_seq(items, lengths);
            assert(ref_calc(x, lengths).item == (SItem::And { sep, items: calc_seq(items, lengths).items }));
        },
        SItem::Or(o) => {
            lemma_shape_or_choices(o, o.choices.len(), lengths);
            assert(o.choices.take(o.choices.len() as int) =~= o.choices);
        },
        SItem::Opt { inner, has_refs } => { lemma_shape_calc(*inner, lengths); },
        SItem::Mul { inner, min, max } => { lemma_shape_calc(*inner, lengths); },
        SItem::PreId { name, idx, sep, items, ids } => { lemma_shape_calc_seq(items, lengths); },
        _ => {},
    }
}

pub proof fn lemma_shape_calc_seq(items: Seq<SItem>, lengths: Seq<usize>)
    ensures
        shape_seq(calc_seq(items, lengths).items) == shape_seq(items),
    decreases items, 0nat,
{
    if items.len() > 0 {
        lemma_shape_calc_seq(items.drop_last(), lengths);
        lemma_shape_calc(items.last(), lengths);
        let out = calc_seq(items, lengths).items;
        assert(out.drop_last() =~= calc_seq(items.drop_last(), lengths).items);
    }
}

pub proof fn lemma_shape_or_choices(o: SOr, j: nat, lengths: Seq<usize>)
    requires
        j <= o.choices.len(),
    ensures
        shape_seq(or_choices(o, j, lengths)) == shape_seq(o.choices.take(j as int)),
    decreases o, j,
{
    if j > 0 {
        lemma_shape_or_choices(o, (j - 1) as nat, lengths);
        let c = o.choices[j - 1];
        assert(decreases_to!(o => o.choices[j - 1]));
        lemma_shape_calc(c, lengths);
        let oc = or_choices(o, j, lengths);
        assert(oc.drop_last() =~= or_choices(o, (j - 1) as nat, lengths));
        let t = o.choices.take(j as int);
        assert(t.drop_last() =~= o.choices.take(j - 1));
        assert(t.last() == c);
    } else {
        assert(o.choices.take(0) =~= Seq::<SItem>::empty());
    }
    if j == o.choices.len() {
        assert(o.choices.take(j as int) =~= o.choices);
    }
}

/// The identifier names of an item depend on its shape alone.
pub proof fn lemma_shape_id_names(a: SItem, b: SItem)
    requires
        shape(a) == shape(b),
    ensures
        id_names(a) == id_names(b),
    decreases a,
{
    match a {
        SItem::And { sep, items } => {
            match b { SItem::And { sep: s2, items: i2 } => { lemma_shape_id_names_seq(items, i2); }, _ => {}, }
        },
        SItem::Or(o) => {
            match b { SItem::Or(o2) => { lemma_shape_id_names_seq(o.choices, o2.choices); }, _ => {}, }
        },
        SItem::Opt { inner, has_refs } => {
            match b { SItem::Opt { inner: i2, has_refs: h2 } => { lemma_shape_id_names(*inner, *i2); }, _ => {}, }
        },
        SItem::Mul { inner, min, max } => {
            match b { SItem::Mul { inner: i2, min: a2, max: b2 } => { lemma_shape_id_names(*inner, *i2); }, _ => {}, }
        },
        SItem::Scoped { inner } => {
            match b { SItem::Scoped { inner: i2 } => { lemma_shape_id_names(*inner, *i2); }, _ => {}, }
        },
        SItem::PreId { name, idx, sep, items, ids } => {
            match b { SItem::PreId { name: n2, idx: x2, sep: s2, items: i2, ids: d2 } => { lemma_shape_id_names_seq(items, i2); }, _ => {}, }
        },
        _ => {},
    }
}

pub proof fn lemma_shape_id_names_seq(a: Seq<SItem>, b: Seq<SItem>)
    requires
        shape_seq(a) == shape_seq(b),
    ensures
        id_names_seq(a) == id_names_seq(b),
    decreases a,
{
    lemma_shape_seq_len(a);
    lemma_shape_seq_len(b);
    if a.len() > 0 {
        let sa = shape_seq(a);
        let sb = shape_seq(b);
        assert(sa.drop_last() == shape_seq(a.drop_last()));
        assert(sb.drop_last() == shape_seq(b.drop_last()));
        assert(sa.last() == shape(a.last()));
        assert(sb.last() == shape(b.last()));
        lemma_shape_id_names_seq(a.drop_last(), b.drop_last());
        lemma_shape_id_names(a.last(), b.last());
    }
}

/// No sequence that an item holds, at any depth, is empty.
pub open spec fn no_empty(item: SItem) -> bool
    decreases item, 0nat,
{
    match item {
        SItem::And { sep, items } => items.len() > 0 && no_empty_all(items),
        SItem::Or(o) => no_empty_all(o.choices),
        SItem::Opt { inner, has_refs } => no_empty(*inner),
        SItem::Mul { inner, min, max } => no_empty(*inner),
        SItem::Scoped { inner } => no_empty(*inner),
        SItem::PreId { name, idx, sep, items, ids } => items.len() > 0 && no_empty_all(items),
        _ => true,
    }
}

pub open spec fn no_empty_all(items: Seq<SItem>) -> bool
    decreases items, 0nat,
{
    items.len() == 0 || (no_empty_all(items.drop_last()) && no_empty(items.last()))
}

pub proof fn lemma_no_empty_all(items: Seq<SItem>)
    ensures
        no_empty_all(items) <==> forall|i: int| 0 <= i < items.len() ==> no_empty(#[trigger] items[i]),
    decreases items.len(),
{
    if items.len() > 0 {
        let d = items.drop_last();
        lemma_no_empty_all(d);
        assert forall|i: int| 0 <= i < d.len() implies d[i] == items[i] by {}
        if forall|i: int| 0 <= i < items.len() ==> no_empty(#[trigger] items[i]) {
            assert forall|i: int| 0 <= i < d.len() implies no_empty(#[trigger] d[i]) by {
                assert(d[i] == items[i]);
            }
            assert(no_empty(items[items.len() - 1]));
        }
        if no_empty_all(items) {
            assert forall|i: int| 0 <= i < items.len() implies no_empty(#[trigger] items[i]) by {
                if i < d.len() {
                    assert(d[i] == items[i]);
                    assert(no_empty(d[i]));
                }
            }
        }
    }
}

pub proof fn lemma_shape_seq_index(items: Seq<SItem>)
    ensures
        shape_seq(items).len() == items.len(),
        forall|i: int| 0 <= i < items.len() ==> #[trigger] shape_seq(items)[i] == shape(items[i]),
    decreases items.len(),
{
    if items.len() > 0 {
        lemma_shape_seq_index(items.drop_last());
        assert forall|i: int| 0 <= i < items.len() implies #[trigger] shape_seq(items)[i] == shape(items[i]) by {
            if i < items.len() - 1 {
                assert(items.drop_last()[i] == items[i]);
            }
        }
    }
}

/// Whether an item can be built from some names depends on its shape alone.
pub proof fn lemma_shape_ok_with(x: SItem, names: Set<Seq<char>>)
    ensures
        ok_with(shape(x), names) == ok_with(x, names),
    decreases x, 1nat,
{
    match x {
        SItem::And { sep, items } => {
            lemma_shape_seq_index(items);
            assert forall|i: int| 0 <= i < items.len() implies ok_with(#[trigger] shape_seq(items)[i], names) == ok_with(items[i], names) by {
                lemma_shape_ok_with(items[i], names);
            }
            lemma_all_ok_with(items, names, items.len());
            lemma_all_ok_with(shape_seq(items), names, items.len());
            assert(shape(x) == SItem::And { sep, items: shape_seq(items) });
            assert(ok_with(shape(x), names) == all_ok_with(shape_seq(items), names, items.len()));
            assert(ok_with(x, names) == all_ok_with(items, names, items.len()));
            if all_ok_with(items, names, items.len()) {
                assert forall|j: int| 0 <= j < items.len() implies ok_with(#[trigger] shape_seq(items)[j], names) by {
                    assert(ok_with(items[j], names));
                }
            }
            if all_ok_with(shape_seq(items), names, items.len()) {
                assert forall|j: int| 0 <= j < items.len() implies ok_with(#[trigger] items[j], names) by {
                    assert(ok_with(shape_seq(items)[j], names));
                }
            }
        },
        SItem::Or(o) => {
            let items = o.choices;
            lemma_shape_seq_index(items);
            assert forall|i: int| 0 <= i < items.len() implies ok_with(#[trigger] shape_seq(items)[i], names) == ok_with(items[i], names) by {
                lemma_shape_ok_with(items[i], names);
            }
            lemma_any_ok_with(items, names, items.len());
            lemma_any_ok_with(shape_seq(items), names, items.len());
            if any_ok_with(items, names, items.len()) {
                let j = choose|j: int| 0 <= j < items.len() && ok_with(#[trigger] items[j], names);
                assert(ok_with(shape_seq(items)[j], names));
            }
            if any_ok_with(shape_seq(items), names, items.len()) {
                let j = choose|j: int| 0 <= j < items.len() && ok_with(#[trigger] shape_seq(items)[j], names);
                assert(ok_with(items[j], names));
            }
        },
        SItem::Opt { inner, has_refs } => { lemma_shape_ok_with(*inner, names); },
        SItem::Mul { inner, min, max } => { lemma_shape_ok_with(*inner, names); },
        SItem::Scoped { inner } => { lemma_shape_ok_with(*inner, names); },
        SItem::PreId { name, idx, sep, items, ids } => {
            lemma_shape_seq_index(items);
            assert forall|i: int| 0 <= i < items.len() implies ok_with(#[trigger] shape_seq(items)[i], names) == ok_with(items[i], names) by {
                lemma_shape_ok_with(items[i], names);
            }
            lemma_all_ok_with(items, names, items.len());
            lemma_all_ok_with(shape_seq(items), names, items.len());
            if all_ok_with(items, names, items.len()) {
                assert forall|j: int| 0 <= j < items.len() implies ok_with(#[trigger] shape_seq(items)[j], names) by {
                    assert(ok_with(items[j], names));
                }
            }
            if all_ok_with(shape_seq(items), names, items.len()) {
                assert forall|j: int| 0 <= j < items.len() implies ok_with(#[trigger] items[j], names) by {
                    assert(ok_with(shape_seq(items)[j], names));
                }
            }
        },
        _ => {},
    }
}

/// Whether an item is derivable depends on its shape alone.
pub proof fn lemma_shape_derivable(x: SItem, s: Set<usize>)
    ensures
        derivable(shape(x), s) == derivable(x, s),
    decreases x, 1nat,
{
    match x {
        SItem::And { sep, items } => { lemma_shape_derivable_seq(items, s); lemma_shape_seq_len(items); },
        SItem::Or(o) => {
            lemma_shape_seq_index(o.choices);
            let o2 = SOr { choices: shape_seq(o.choices), shortest: Seq::empty(), indices: o.indices, keep: o.keep };
            lemma_shape_derivable_or(o, o2, o.indices.len(), s);
        },
        SItem::Opt { inner, has_refs } => { lemma_shape_derivable(*inner, s); },
        SItem::Mul { inner, min, max } => { lemma_shape_derivable(*inner, s); },
        SItem::PreId { name, idx, sep, items, ids } => { lemma_shape_derivable_seq(items, s); lemma_shape_seq_len(items); },
        _ => {},
    }
}

pub proof fn lemma_shape_derivable_seq(items: Seq<SItem>, s: Set<usize>)
    ensures
        derivable_all(shape_seq(items), s) == derivable_all(items, s),
    decreases items, 0nat,
{
    if items.len() > 0 {
        lemma_shape_derivable_seq(items.drop_last(), s);
        lemma_shape_derivable(items.last(), s);
        let t = shape_seq(items);
        assert(t.drop_last() == shape_seq(items.drop_last()));
    }
}

pub proof fn lemma_shape_derivable_or(o: SOr, o2: SOr, k: nat, s: Set<usize>)
    requires
        o2.indices == o.indices,
        o2.choices.len() == o.choices.len(),
        forall|i: int| 0 <= i < o.choices.len() ==> #[trigger] o2.choices[i] == shape(o.choices[i]),
    ensures
        derivable_or(o2, k, s) == derivable_or(o, k, s),
    decreases o, k,
{
    if k > 0 && k <= o.indices.len() {
        lemma_shape_derivable_or(o, o2, (k - 1) as nat, s);
        let idx = o.indices[k - 1];
        if idx < o.choices.len() {
            assert(decreases_to!(o => o.choices[idx as int]));
            lemma_shape_derivable(o.choices[idx as int], s);
        }
    }
}

/// Resolving against names that all lead into `ids` makes an item that can
/// be built from them, and holds no empty sequence, derivable from `ids`.
pub proof fn lemma_ok_derivable(x: SItem, map: Seq<(Seq<char>, usize)>, names: Set<Seq<char>>, ids: Set<usize>)
    requires
        small(x),
        no_empty(x),
        ok_with(x, names),
        forall|n: Seq<char>| #[trigger] names.contains(n) ==> lookup(map, n) is Some && ids.contains(lookup(map, n)->0),
    ensures
        fin(x, map).ok,
        derivable(fin(x, map).item, ids),
    decreases x, 1nat,
{
    match x {
        SItem::And { sep, items } => { lemma_ok_derivable_seq(items, map, names, ids); },
        SItem::Or(o) => {
            let items = o.choices;
            lemma_small_seq(items, items.len());
            lemma_fin_seq_items(items, map);
            lemma_any_ok_with(items, names, items.len());
            lemma_no_empty_all(items);
            let c = choose|c: int| 0 <= c < items.len() && ok_with(#[trigger] items[c], names);
            lemma_ok_derivable(items[c], map, names, ids);
            let f = fin_seq(items, map);
            lemma_fin_oks_contain(items, map, c);
            let a = choose|a: int| 0 <= a < f.oks.len() && f.oks[a] == c as usize;
            let o1 = SOr { choices: f.items, shortest: o.shortest, indices: f.oks, keep: o.keep };
            assert(o1.indices[a] < o1.choices.len());
            assert(o1.choices[o1.indices[a] as int] == fin(items[c], map).item);
            lemma_derivable_or_intro(o1, o1.indices.len(), a, ids);
        },
        SItem::Ref { name, idx } => {},
        SItem::Opt { inner, has_refs } => { lemma_ok_derivable(*inner, map, names, ids); },
        SItem::Mul { inner, min, max } => { lemma_ok_derivable(*inner, map, names, ids); },
        SItem::Scoped { inner } => { lemma_ok_derivable(*inner, map, names, ids); },
        SItem::PreId { name, idx, sep, items, ids: d } => { lemma_ok_derivable_seq(items, map, names, ids); },
        _ => {},
    }
}

pub proof fn lemma_ok_derivable_seq(items: Seq<SItem>, map: Seq<(Seq<char>, usize)>, names: Set<Seq<char>>, ids: Set<usize>)
    requires
        small_seq(items, items.len()),
        items.len() > 0,
        no_empty_all(items),
        all_ok_with(items, names, items.len()),
        forall|n: Seq<char>| #[trigger] names.contains(n) ==> lookup(map, n) is Some && ids.contains(lookup(map, n)->0),
    ensures
        fin_seq(items, map).ok,
        fin_seq(items, map).items.len() > 0,
        derivable_all(fin_seq(items, map).items, ids),
    decreases items, 0nat,
{
    lemma_small_seq(items, items.len());
    lemma_fin_seq_items(items, map);
    lemma_all_ok_with(items, names, items.len());
    lemma_no_empty_all(items);
    let out = fin_seq(items, map).items;
    assert forall|j: int| 0 <= j < items.len() implies #[trigger] fin(items[j], map).ok by {
        lemma_ok_derivable(items[j], map, names, ids);
    }
    assert forall|j: int| 0 <= j < out.len() implies derivable(#[trigger] out[j], ids) by {
        lemma_ok_derivable(items[j], map, names, ids);
        assert(out[j] == fin(items[j], map).item);
    }
    lemma_derivable_all_intro(out, ids);
}

pub proof fn lemma_derivable_all_intro(items: Seq<SItem>, s: Set<usize>)
    requires
        forall|i: int| 0 <= i < items.len() ==> derivable(#[trigger] items[i], s),
    ensures
        derivable_all(items, s),
    decreases items.len(),
{
    if items.len() > 0 {
        let d = items.drop_last();
        assert forall|i: int| 0 <= i < d.len() implies derivable(#[trigger] d[i], s) by {
            assert(d[i] == items[i]);
        }
        lemma_derivable_all_intro(d, s);
        assert(derivable(items[items.len() - 1], s));
    }
}

/// An item that resolving finds buildable is listed among the options.
pub proof fn lemma_fin_oks_contain(items: Seq<SItem>, map: Seq<(Seq<char>, usize)>, c: int)
    requires
        0 <= c < items.len(),
        items.len() <= usize::MAX,
        fin(items[c], map).ok,
    ensures
        exists|a: int| 0 <= a < fin_seq(items, map).oks.len() && fin_seq(items, map).oks[a] == c as usize,
    decreases items.len(),
{
    let p = fin_seq(items.drop_last(), map);
    if c == items.len() - 1 {
        assert(items.last() == items[c]);
        assert(fin_seq(items, map).oks == p.oks.push(c as usize));
        assert(fin_seq(items, map).oks[p.oks.len() as int] == c as usize);
    } else {
        assert(items.drop_last()[c] == items[c]);
        lemma_fin_oks_contain(items.drop_last(), map, c);
        let a = choose|a: int| 0 <= a < p.oks.len() && p.oks[a] == c as usize;
        let q = fin_seq(items, map).oks;
        if q != p.oks {
            assert(q == p.oks.push((items.len() - 1) as usize));
            assert(q[a] == p.oks[a]);
        }
    }
}

/// Resolving keeps the identifier names, and every missing rule it reports
/// is one of them.
pub proof fn lemma_fin_names(item: SItem, map: Seq<(Seq<char>, usize)>)
    ensures
        id_names(fin(item, map).item) == id_names(item),
        forall|n: Seq<char>| #[trigger] fin(item, map).new_rules.contains(n) ==> id_names(item).contains(n)
            && lookup(map, n) is None,
    decreases item,
{
    match item {
        SItem::And { sep, items } => {
            lemma_fin_seq_names(items, map);
        },
        SItem::Or(o) => {
            lemma_fin_seq_names(o.choices, map);
        },
        SItem::Opt { inner, has_refs } => {
            lemma_fin_names(*inner, map);
        },
        SItem::Mul { inner, min, max } => {
            lemma_fin_names(*inner, map);
        },
        SItem::Scoped { inner } => {
            lemma_fin_names(*inner, map);
        },
        SItem::Id { name, idx } => {
            assert(seq![name].contains(name) || true);
            assert forall|n: Seq<char>| #[trigger] fin(item, map).new_rules.contains(n) implies id_names(item).contains(n)
                && lookup(map, n) is None by {
                assert(id_names(item)[0] == name);
                assert(fin(item, map).new_rules[0] == name);
            }
        },
        SItem::PreId { name, idx, sep, items, ids } => {
            lemma_fin_seq_names(items, map);
            let f = fin_seq(items, map);
            let nr = f.new_rules + if f.ok && lookup(map, name) is None { seq![name] } else { Seq::empty() };
            assert forall|n: Seq<char>| #[trigger] nr.contains(n) implies id_names(item).contains(n)
                && lookup(map, n) is None by {
                let t = choose|t: int| 0 <= t < nr.len() && nr[t] == n;
                if t < f.new_rules.len() {
                    assert(f.new_rules[t] == n);
                    assert(f.new_rules.contains(n));
                    let u = choose|u: int| 0 <= u < id_names_seq(items).len() && id_names_seq(items)[u] == n;
                    assert(id_names(item)[u] == n);
                } else {
                    assert(id_names(item)[id_names_seq(items).len() as int] == n);
                }
            }
        },
        _ => {},
    }
}

pub proof fn lemma_fin_seq_names(items: Seq<SItem>, map: Seq<(Seq<char>, usize)>)
    ensures
        id_names_seq(fin_seq(items, map).items) == id_names_seq(items),
        forall|n: Seq<char>| #[trigger] fin_seq(items, map).new_rules.contains(n) ==> id_names_seq(items).contains(n)
            && lookup(map, n) is None,
        fin_seq(items, map).items.len() == items.len(),
    decreases items,
{
    if items.len() > 0 {
        let p = fin_seq(items.drop_last(), map);
        let f = fin(items.last(), map);
        lemma_fin_seq_names(items.drop_last(), map);
        lemma_fin_names(items.last(), map);
        let out = fin_seq(items, map).items;
        assert(out.drop_last() =~= p.items);
        assert(out.last() == f.item);
        let a = id_names_seq(items.drop_last());
        let b = id_names(items.last());
        let nr = p.new_rules + f.new_rules;
        assert forall|n: Seq<char>| #[trigger] nr.contains(n) implies (a + b).contains(n) && lookup(map, n) is None by {
            let t = choose|t: int| 0 <= t < nr.len() && nr[t] == n;
            if t < p.new_rules.len() {
                assert(p.new_rules[t] == n);
                assert(p.new_rules.contains(n));
                let u = choose|u: int| 0 <= u < a.len() && a[u] == n;
                assert((a + b)[u] == n);
            } else {
                assert(f.new_rules[t - p.new_rules.len()] == n);
                assert(f.new_rules.contains(n));
                let u = choose|u: int| 0 <= u < b.len() && b[u] == n;
                assert((a + b)[a.len() + u] == n);
            }
        }
    }
}

/// Resolving a sequence of items resolves each of them; the items that can
/// be built are listed in increasing order, all of them.
pub proof fn lemma_fin_seq_items(items: Seq<SItem>, map: Seq<(Seq<char>, usize)>)
    requires
        items.len() <= usize::MAX,
    ensures
        fin_seq(items, map).items.len() == items.len(),
        forall|j: int| 0 <= j < items.len() ==> #[trigger] fin_seq(items, map).items[j] == fin(items[j], map).item,
        fin_seq(items, map).ok <==> forall|j: int| 0 <= j < items.len() ==> #[trigger] fin(items[j], map).ok,
        forall|a: int, b: int| 0 <= a < b < fin_seq(items, map).oks.len() ==> fin_seq(items, map).oks[a] < fin_seq(items, map).oks[b],
        forall|a: int| 0 <= a < fin_seq(items, map).oks.len() ==> #[trigger] fin_seq(items, map).oks[a] < items.len()
            && fin(items[fin_seq(items, map).oks[a] as int], map).ok,
    decreases items.len(),
{
    if items.len() > 0 {
        let d = items.drop_last();
        lemma_fin_seq_items(d, map);
        let p = fin_seq(d, map);
        let f = fin(items.last(), map);
        let all = fin_seq(items, map);
        assert forall|j: int| 0 <= j < items.len() implies #[trigger] all.items[j] == fin(items[j], map).item by {
            if j < d.len() {
                assert(d[j] == items[j]);
            }
        }
        if all.ok {
            assert forall|j: int| 0 <= j < items.len() implies #[trigger] fin(items[j], map).ok by {
                if j < d.len() {
                    assert(d[j] == items[j]);
                }
            }
        }
        if forall|j: int| 0 <= j < items.len() ==> #[trigger] fin(items[j], map).ok {
            assert forall|j: int| 0 <= j < d.len() implies #[trigger] fin(d[j], map).ok by {
                assert(d[j] == items[j]);
                assert(fin(items[j], map).ok);
            }
            assert(fin(items[items.len() - 1], map).ok);
        }
        assert forall|a: int| 0 <= a < all.oks.len() implies #[trigger] all.oks[a] < items.len()
            && fin(items[all.oks[a] as int], map).ok by {
            if a < p.oks.len() {
                assert(all.oks[a] == p.oks[a]);
                assert(p.oks[a] < d.len());
                assert(d[p.oks[a] as int] == items[p.oks[a] as int]);
            } else {
                assert(f.ok);
                assert(all.oks[a] == items.len() - 1);
                assert(items.last() == items[items.len() - 1]);
            }
        }
        assert forall|a: int, b: int| 0 <= a < b < all.oks.len() implies all.oks[a] < all.oks[b] by {
            assert(p.oks[a] < d.len());
            if b < p.oks.len() {
                assert(all.oks[a] == p.oks[a] && all.oks[b] == p.oks[b]);
            } else {
                assert(all.oks[a] == p.oks[a]);
                assert(all.oks[b] == items.len() - 1);
            }
        }
    }
}

/// A resolved item that can be built is ready for computing lengths, and
/// so is every resolved choice.
pub proof fn lemma_fin_ready(item: SItem, map: Seq<(Seq<char>, usize)>)
    requires
        small(item),
    ensures
        fin(item, map).ok ==> ready(fin(item, map).item),
        item is Or ==> ready(fin(item, map).item),
    decreases item,
{
    match item {
        SItem::And { sep, items } => {
            lemma_fin_seq_ready(items, map);
        },
        SItem::Or(o) => {
            lemma_small_seq(o.choices, o.choices.len());
            lemma_fin_seq_ready(o.choices, map);
            lemma_fin_seq_items(o.choices, map);
            let f = fin_seq(o.choices, map);
            let o1 = SOr { choices: f.items, shortest: o.shortest, indices: f.oks, keep: o.keep };

            assert forall|i: int| 0 <= i < f.oks.len() implies ready(#[trigger] o1.choices[o1.indices[i] as int]) by {
                let c = f.oks[i] as int;
                assert(fin(o.choices[c], map).ok);
                assert(decreases_to!(item => o.choices[c]));
                lemma_fin_ready(o.choices[c], map);
            }
            lemma_ready_or_intro(o1, f.oks.len());
        },
        SItem::Opt { inner, has_refs } => {
            lemma_fin_ready(*inner, map);
        },
        SItem::Mul { inner, min, max } => {
            lemma_fin_ready(*inner, map);
        },
        SItem::PreId { name, idx, sep, items, ids } => {
            lemma_fin_seq_ready(items, map);
        },
        _ => {},
    }
}

pub proof fn lemma_fin_seq_ready(items: Seq<SItem>, map: Seq<(Seq<char>, usize)>)
    requires
        small_seq(items, items.len()),
    ensures
        fin_seq(items, map).ok ==> ready_seq(fin_seq(items, map).items),
    decreases items,
{
    lemma_small_seq(items, items.len());
    lemma_fin_seq_items(items, map);
    let f = fin_seq(items, map);
    if f.ok {
        assert forall|j: int| 0 <= j < f.items.len() implies ready(#[trigger] f.items[j]) by {
            assert(fin(items[j], map).ok);
            lemma_fin_ready(items[j], map);
        }
        lemma_ready_seq_intro(f.items);
    }
}

/// Every reference, identifier and definition that building `item` can meet
/// names a rule by the index that `map` gives its name, and every reference
/// names a rule that exists.
pub open spec fn linked(item: SItem, map: Seq<(Seq<char>, usize)>) -> bool
    decreases item, 0nat,
{
    match item {
        SItem::And { sep, items } => linked_seq(items, map, items.len()),
        SItem::Or(o) => linked_or(o, map, o.indices.len()),
        SItem::Ref { name, idx } => idx == lookup(map, name) && idx is Some,
        SItem::Opt { inner, has_refs } => linked(*inner, map),
        SItem::Mul { inner, min, max } => linked(*inner, map),
        SItem::Scoped { inner } => linked(*inner, map),
        SItem::Id { name, idx } => idx == lookup(map, name),
        SItem::PreId { name, idx, sep, items, ids } => idx == lookup(map, name) && linked_seq(items, map, items.len()),
        _ => true,
    }
}

/// The first `k` items are `linked`.
pub open spec fn linked_seq(items: Seq<SItem>, map: Seq<(Seq<char>, usize)>, k: nat) -> bool
    decreases items, k,
{
    k == 0 || k > items.len() || (linked_seq(items, map, (k - 1) as nat) && linked(items[k - 1], map))
}

/// The first `k` options of `o` are `linked`.
pub open spec fn linked_or(o: SOr, map: Seq<(Seq<char>, usize)>, k: nat) -> bool
    decreases o, k,
{
    if k == 0 || k > o.indices.len() {
        true
    } else {
        let idx = o.indices[k - 1];
        linked_or(o, map, (k - 1) as nat) && (idx < o.choices.len() ==> linked(o.choices[idx as int], map))
    }
}

pub proof fn lemma_linked_seq(items: Seq<SItem>, map: Seq<(Seq<char>, usize)>, k: nat)
    requires
        k <= items.len(),
    ensures
        linked_seq(items, map, k) <==> forall|j: int| 0 <= j < k ==> linked(#[trigger] items[j], map),
    decreases k,
{
    if k > 0 {
        lemma_linked_seq(items, map, (k - 1) as nat);
    }
}

pub proof fn lemma_linked_or(o: SOr, map: Seq<(Seq<char>, usize)>, k: nat)
    requires
        k <= o.indices.len(),
    ensures
        linked_or(o, map, k) <==> forall|i: int| 0 <= i < k && #[trigger] o.indices[i] < o.choices.len()
            ==> linked(o.choices[o.indices[i] as int], map),
    decreases k,
{
    if k > 0 {
        lemma_linked_or(o, map, (k - 1) as nat);
    }
}

/// A resolved item that can be built is `linked`, and so is every resolved
/// choice.
pub proof fn lemma_fin_linked(item: SItem, map: Seq<(Seq<char>, usize)>)
    requires
        small(item),
    ensures
        fin(item, map).ok ==> linked(fin(item, map).item, map),
        item is Or ==> linked(fin(item, map).item, map),
    decreases item,
{
    match item {
        SItem::And { sep, items } => {
            lemma_fin_seq_linked(items, map);
        },
        SItem::Or(o) => {
            lemma_small_seq(o.choices, o.choices.len());
            lemma_fin_seq_items(o.choices, map);
            let f = fin_seq(o.choices, map);
            let o1 = SOr { choices: f.items, shortest: o.shortest, indices: f.oks, keep: o.keep };
            assert forall|i: int| 0 <= i < f.oks.len() && #[trigger] o1.indices[i] < o1.choices.len()
                implies linked(o1.choices[o1.indices[i] as int], map) by {
                let c = f.oks[i] as int;
                assert(fin(o.choices[c], map).ok);
                assert(decreases_to!(item => o.choices[c]));
                lemma_fin_linked(o.choices[c], map);
            }
            lemma_linked_or(o1, map, f.oks.len());
        },
        SItem::Opt { inner, has_refs } => {
            lemma_fin_linked(*inner, map);
        },
        SItem::Mul { inner, min, max } => {
            lemma_fin_linked(*inner, map);
        },
        SItem::Scoped { inner } => {
            lemma_fin_linked(*inner, map);
        },
        SItem::PreId { name, idx, sep, items, ids } => {
            lemma_fin_seq_linked(items, map);
        },
        _ => {},
    }
}

pub proof fn lemma_fin_seq_linked(items: Seq<SItem>, map: Seq<(Seq<char>, usize)>)
    requires
        small_seq(items, items.len()),
    ensures
        fin_seq(items, map).ok ==> linked_seq(fin_seq(items, map).items, map, items.len()),
        fin_seq(items, map).items.len() == items.len(),
    decreases items,
{
    lemma_small_seq(items, items.len());
    lemma_fin_seq_items(items, map);
    let f = fin_seq(items, map);
    if f.ok {
        assert forall|j: int| 0 <= j < items.len() implies linked(#[trigger] f.items[j], map) by {
            assert(fin(items[j], map).ok);
            lemma_fin_ready(items[j], map);
            lemma_fin_linked(items[j], map);
        }
        lemma_linked_seq(f.items, map, items.len());
    }
}

/// Computing lengths keeps an item `linked`.
pub proof fn lemma_calc_linked(item: SItem, map: Seq<(Seq<char>, usize)>, lengths: Seq<usize>)
    requires
        ready(item),
        linked(item, map),
    ensures
        linked(ref_calc(item, lengths).item, map),
    decreases item,
{
    match item {
        SItem::And { sep, items } => {
            lemma_calc_seq_linked(items, map, lengths);
        },
        SItem::Or(o) => {
            let m = or_min(o, o.indices.len(), lengths);
            let o1 = SOr {
                choices: or_choices(o, o.choices.len(), lengths),
                shortest: or_shortest(o, o.choices.len(), lengths, m),
                indices: o.indices,
                keep: o.keep,
            };
            lemma_or_choices(o, o.choices.len(), lengths);
            lemma_ready_or(o, o.indices.len());
            lemma_linked_or(o, map, o.indices.len());
            assert forall|i: int| 0 <= i < o1.indices.len() && #[trigger] o1.indices[i] < o1.choices.len()
                implies linked(o1.choices[o1.indices[i] as int], map) by {
                let c = o.indices[i] as int;
                assert(o.indices.contains(c as usize));
                assert(decreases_to!(item => o.choices[c]));
                lemma_calc_linked(o.choices[c], map, lengths);
            }
            lemma_linked_or(o1, map, o1.indices.len());
        },
        SItem::Opt { inner, has_refs } => {
            lemma_calc_linked(*inner, map, lengths);
        },
        SItem::Mul { inner, min, max } => {
            lemma_calc_linked(*inner, map, lengths);
        },
        SItem::PreId { name, idx, sep, items, ids } => {
            lemma_calc_seq_linked(items, map, lengths);
        },
        _ => {},
    }
}

pub proof fn lemma_calc_seq_linked(items: Seq<SItem>, map: Seq<(Seq<char>, usize)>, lengths: Seq<usize>)
    requires
        ready_seq(items),
        linked_seq(items, map, items.len()),
    ensures
        linked_seq(calc_seq(items, lengths).items, map, items.len()),
        calc_seq(items, lengths).items.len() == items.len(),
    decreases items,
{
    lemma_ready_seq(items);
    lemma_linked_seq(items, map, items.len());
    lemma_calc_seq_ready(items, lengths);
    let out = calc_seq(items, lengths).items;
    assert forall|j: int| 0 <= j < items.len() implies linked(#[trigger] out[j], map) by {
        lemma_calc_linked(items[j], map, lengths);
    }
    lemma_linked_seq(out, map, items.len());
}

/// Whether `item` can be built when the names in `names` are the rules
/// there are: every reference it needs names one of them.
pub open spec fn ok_with(item: SItem, names: Set<Seq<char>>) -> bool
    decreases item, 0nat,
{
    match item {
        SItem::And { sep, items } => all_ok_with(items, names, items.len()),
        SItem::Or(o) => any_ok_with(o.choices, names, o.choices.len()),
        SItem::Ref { name, idx } => names.contains(name),
        SItem::Opt { inner, has_refs } => ok_with(*inner, names),
        SItem::Mul { inner, min, max } => ok_with(*inner, names),
        SItem::Scoped { inner } => ok_with(*inner, names),
        SItem::PreId { name, idx, sep, items, ids } => all_ok_with(items, names, items.len()),
        _ => true,
    }
}

/// The first `k` items can all be built.
pub open spec fn all_ok_with(items: Seq<SItem>, names: Set<Seq<char>>, k: nat) -> bool
    decreases items, k,
{
    k == 0 || k > items.len() || (all_ok_with(items, names, (k - 1) as nat) && ok_with(items[k - 1], names))
}

/// One of the first `k` items can be built.
pub open spec fn any_ok_with(items: Seq<SItem>, names: Set<Seq<char>>, k: nat) -> bool
    decreases items, k,
{
    k != 0 && k <= items.len() && (any_ok_with(items, names, (k - 1) as nat) || ok_with(items[k - 1], names))
}

/// The names that `map` holds.
pub open spec fn map_names(map: Seq<(Seq<char>, usize)>) -> Set<Seq<char>> {
    Set::new(|k: Seq<char>| lookup(map, k) is Some)
}

proof fn lemma_all_ok_with(items: Seq<SItem>, names: Set<Seq<char>>, k: nat)
    requires
        k <= items.len(),
    ensures
        all_ok_with(items, names, k) <==> forall|j: int| 0 <= j < k ==> ok_with(#[trigger] items[j], names),
    decreases k,
{
    if k > 0 {
        lemma_all_ok_with(items, names, (k - 1) as nat);
    }
}

proof fn lemma_any_ok_with(items: Seq<SItem>, names: Set<Seq<char>>, k: nat)
    requires
        k <= items.len(),
    ensures
        any_ok_with(items, names, k) <==> exists|j: int| 0 <= j < k && ok_with(#[trigger] items[j], names),
    decreases k,
{
    if k > 0 {
        lemma_any_ok_with(items, names, (k - 1) as nat);
        if any_ok_with(items, names, k) && !ok_with(items[k - 1], names) {
            let j = choose|j: int| 0 <= j < k - 1 && ok_with(#[trigger] items[j], names);
            assert(0 <= j < k && ok_with(items[j], names));
        }
    }
}

/// Whether resolving says an item can be built depends only on the names
/// the map holds.
pub proof fn lemma_fin_ok(item: SItem, map: Seq<(Seq<char>, usize)>)
    requires
        small(item),
    ensures
        fin(item, map).ok == ok_with(item, map_names(map)),
    decreases item,
{
    match item {
        SItem::And { sep, items } => {
            lemma_fin_seq_ok(items, map);
        },
        SItem::Or(o) => {
            lemma_fin_seq_ok(o.choices, map);
        },
        SItem::Opt { inner, has_refs } => {
            lemma_fin_ok(*inner, map);
        },
        SItem::Mul { inner, min, max } => {
            lemma_fin_ok(*inner, map);
        },
        SItem::Scoped { inner } => {
            lemma_fin_ok(*inner, map);
        },
        SItem::PreId { name, idx, sep, items, ids } => {
            lemma_fin_seq_ok(items, map);
        },
        _ => {},
    }
}

pub proof fn lemma_fin_seq_ok(items: Seq<SItem>, map: Seq<(Seq<char>, usize)>)
    requires
        small_seq(items, items.len()),
    ensures
        fin_seq(items, map).ok == all_ok_with(items, map_names(map), items.len()),
        (fin_seq(items, map).oks.len() > 0) == any_ok_with(items, map_names(map), items.len()),
    decreases items,
{
    lemma_small_seq(items, items.len());
    lemma_fin_seq_items(items, map);
    let f = fin_seq(items, map);
    let names = map_names(map);
    assert forall|j: int| 0 <= j < items.len() implies fin(#[trigger] items[j], map).ok == ok_with(items[j], names) by {
        lemma_fin_ok(items[j], map);
    }
    lemma_all_ok_with(items, names, items.len());
    lemma_any_ok_with(items, names, items.len());
    lemma_fin_seq_oks_complete(items, map);
    if f.oks.len() > 0 {
        let c = f.oks[0] as int;
        assert(fin(items[c], map).ok);
    }
    if any_ok_with(items, names, items.len()) {
        let j = choose|j: int| 0 <= j < items.len() && ok_with(#[trigger] items[j], names);
        assert(fin(items[j], map).ok);
    }
}

/// Every item that can be built is listed among the positions of the
/// items that can be built.
proof fn lemma_fin_seq_oks_complete(items: Seq<SItem>, map: Seq<(Seq<char>, usize)>)
    requires
        items.len() <= usize::MAX,
    ensures
        forall|j: int| 0 <= j < items.len() && #[trigger] fin(items[j], map).ok ==> fin_seq(items, map).oks.len() > 0,
    decreases items.len(),
{
    if items.len() > 0 {
        let d = items.drop_last();
        lemma_fin_seq_oks_complete(d, map);
        assert forall|j: int| 0 <= j < items.len() && #[trigger] fin(items[j], map).ok implies fin_seq(items, map).oks.len() > 0 by {
            if j < d.len() {
                assert(d[j] == items[j]);
                assert(fin(d[j], map).ok);
            }
        }
    }
}

/// More names never make an item impossible to build.
pub proof fn lemma_ok_with_mono(item: SItem, n1: Set<Seq<char>>, n2: Set<Seq<char>>)
    requires
        n1.subset_of(n2),
        ok_with(item, n1),
    ensures
        ok_with(item, n2),
    decreases item, 0nat,
{
    match item {
        SItem::And { sep, items } => {
            lemma_all_ok_with_mono(items, n1, n2, items.len());
        },
        SItem::Or(o) => {
            lemma_any_ok_with_mono(o.choices, n1, n2, o.choices.len());
        },
        SItem::Opt { inner, has_refs } => {
            lemma_ok_with_mono(*inner, n1, n2);
        },
        SItem::Mul { inner, min, max } => {
            lemma_ok_with_mono(*inner, n1, n2);
        },
        SItem::Scoped { inner } => {
            lemma_ok_with_mono(*inner, n1, n2);
        },
        SItem::PreId { name, idx, sep, items, ids } => {
            lemma_all_ok_with_mono(items, n1, n2, items.len());
        },
        _ => {},
    }
}

proof fn lemma_all_ok_with_mono(items: Seq<SItem>, n1: Set<Seq<char>>, n2: Set<Seq<char>>, k: nat)
    requires
        n1.subset_of(n2),
        all_ok_with(items, n1, k),
    ensures
        all_ok_with(items, n2, k),
    decreases items, k,
{
    if k > 0 && k <= items.len() {
        lemma_all_ok_with_mono(items, n1, n2, (k - 1) as nat);
        lemma_ok_with_mono(items[k - 1], n1, n2);
    }
}

proof fn lemma_any_ok_with_mono(items: Seq<SItem>, n1: Set<Seq<char>>, n2: Set<Seq<char>>, k: nat)
    requires
        n1.subset_of(n2),
        any_ok_with(items, n1, k),
    ensures
        any_ok_with(items, n2, k),
    decreases items, k,
{
    if k > 0 && k <= items.len() {
        if any_ok_with(items, n1, (k - 1) as nat) {
            lemma_any_ok_with_mono(items, n1, n2, (k - 1) as nat);
        } else {
            lemma_ok_with_mono(items[k - 1], n1, n2);
        }
    }
}

/// Resolving keeps whether an item can be built, for any names.
pub proof fn lemma_ok_with_fin(item: SItem, map: Seq<(Seq<char>, usize)>, names: Set<Seq<char>>)
    requires
        small(item),
    ensures
        ok_with(fin(item, map).item, names) == ok_with(item, names),
    decreases item,
{
    match item {
        SItem::And { sep, items } => {
            lemma_ok_with_fin_seq(items, map, names);
        },
        SItem::Or(o) => {
            lemma_ok_with_fin_seq(o.choices, map, names);
        },
        SItem::Opt { inner, has_refs } => {
            lemma_ok_with_fin(*inner, map, names);
        },
        SItem::Mul { inner, min, max } => {
            lemma_ok_with_fin(*inner, map, names);
        },
        SItem::Scoped { inner } => {
            lemma_ok_with_fin(*inner, map, names);
        },
        SItem::PreId { name, idx, sep, items, ids } => {
            lemma_ok_with_fin_seq(items, map, names);
        },
        _ => {},
    }
}

proof fn lemma_ok_with_fin_seq(items: Seq<SItem>, map: Seq<(Seq<char>, usize)>, names: Set<Seq<char>>)
    requires
        small_seq(items, items.len()),
    ensures
        all_ok_with(fin_seq(items, map).items, names, items.len()) == all_ok_with(items, names, items.len()),
        any_ok_with(fin_seq(items, map).items, names, items.len()) == any_ok_with(items, names, items.len()),
        fin_seq(items, map).items.len() == items.len(),
    decreases items,
{
    lemma_small_seq(items, items.len());
    lemma_fin_seq_items(items, map);
    let out = fin_seq(items, map).items;
    assert forall|j: int| 0 <= j < items.len() implies ok_with(#[trigger] out[j], names) == ok_with(items[j], names) by {
        lemma_ok_with_fin(items[j], map, names);
    }
    lemma_all_ok_with(items, names, items.len());
    lemma_all_ok_with(out, names, items.len());
    lemma_any_ok_with(items, names, items.len());
    lemma_any_ok_with(out, names, items.len());
    if any_ok_with(items, names, items.len()) {
        let j = choose|j: int| 0 <= j < items.len() && ok_with(#[trigger] items[j], names);
        assert(ok_with(out[j], names));
    }
    if any_ok_with(out, names, items.len()) {
        let j = choose|j: int| 0 <= j < items.len() && ok_with(#[trigger] out[j], names);
        assert(ok_with(items[j], names));
    }
    if all_ok_with(items, names, items.len()) {
        assert forall|j: int| 0 <= j < items.len() implies ok_with(#[trigger] out[j], names) by {
            assert(ok_with(items[j], names));
        }
    }
    if all_ok_with(out, names, items.len()) {
        assert forall|j: int| 0 <= j < items.len() implies ok_with(#[trigger] items[j], names) by {
            assert(ok_with(out[j], names));
        }
    }
}

/// The model of a list of names.
pub open spec fn view_names(s: Seq<String>) -> Seq<Seq<char>> {
    Seq::new(s.len(), |i: int| s[i]@)
}

/// Resolves names against a rule map and collects the identifier rules that
/// are missing.
pub struct RefFetcher<'a> {
    pub rule_map: &'a RuleMap,
    pub new_rules: Vec<String>,
}

impl<'a> RefFetcher<'a> {
    /// A fetcher over `rule_map` that has collected no name yet.
    pub fn new(rule_map: &'a RuleMap) -> (r: RefFetcher<'a>)
        ensures
            r.rule_map == rule_map,
            r.new_rules@.len() == 0,
    {
        RefFetcher { rule_map, new_rules: Vec::new() }
    }

    /// The index of the rule named `rule_name`, if there is one.
    pub fn get_ref_idx(&self, rule_name: &str) -> (r: Option<usize>)
        requires
            self.rule_map.wf(),
        ensures
            r == lookup(self.rule_map.entries(), rule_name@),
    {
        self.rule_map.get(rule_name)
    }

    /// Resolves the names in `item`; returns whether it can be built.
    pub fn finalize(&mut self, item: &mut Item) -> (r: bool)
        requires
            old(self).rule_map.wf(),
        ensures
            final(self).rule_map == old(self).rule_map,
            final(item)@ == fin(old(item)@, old(self).rule_map.entries()).item,
            r == fin(old(item)@, old(self).rule_map.entries()).ok,
            view_names(final(self).new_rules@) == view_names(old(self).new_rules@) + fin(old(item)@, old(self).rule_map.entries()).new_rules,
        decreases *old(item),
    {
        let ghost map = self.rule_map.entries();
        let ghost nr0 = view_names(self.new_rules@);
        match item {
            Item::And(v) => v.finalize(self),
            Item::Ref(v) => {
                let r = v.finalize(self);
                proof { assert(view_names(self.new_rules@) =~= nr0 + Seq::<Seq<char>>::empty()); }
                r
            },
            Item::Or(v) => v.finalize(self),
            Item::Opt(v) => v.finalize(self),
            Item::Mul(v) => v.finalize(self),
            Item::Scoped(v) => v.finalize(self),
            Item::Id(v) => {
                let res = v.finalize(self);
                if !res {
                    let name = v.rule_name.clone();
                    self.new_rules.push(name);
                    proof { assert(view_names(self.new_rules@) =~= nr0 + seq![v.rule_name@]); }
                } else {
                    proof { assert(view_names(self.new_rules@) =~= nr0 + Seq::<Seq<char>>::empty()); }
                }
                true
            },
            Item::PreId(v) => {
                let ghost nm = v.rule_name@;
                let (items_finalized, ref_finalized) = v.finalize(self);
                let ghost nr1 = view_names(self.new_rules@);
                if !items_finalized {
                    proof { assert(view_names(self.new_rules@) =~= nr1 + Seq::<Seq<char>>::empty()); }
                    false
                } else {
                    if !ref_finalized {
                        let name = v.rule_name.clone();
                        self.new_rules.push(name);
                        proof { assert(view_names(self.new_rules@) =~= nr1 + seq![nm]); }
                    } else {
                        proof { assert(view_names(self.new_rules@) =~= nr1 + Seq::<Seq<char>>::empty()); }
                    }
                    true
                }
            },
            _ => {
                proof { assert(view_names(self.new_rules@) =~= nr0 + Seq::<Seq<char>>::empty()); }
                true
            },
        }
    }
}

impl Ref {
    /// Resolves the rule name; returns whether it names a rule.
    pub fn finalize(&mut self, fetcher: &mut RefFetcher) -> (r: bool)
        requires
            old(fetcher).rule_map.wf(),
        ensures
            *final(fetcher) == *old(fetcher),
            final(self)@ == fin(old(self)@, old(fetcher).rule_map.entries()).item,
            r == fin(old(self)@, old(fetcher).rule_map.entries()).ok,
    {
        self.ref_idx = fetcher.get_ref_idx(self.ref_rule.as_str());
        self.ref_idx.is_some()
    }
}

impl And {
    /// Resolves every item; returns whether all of them can be built.
    pub fn finalize(&mut self, fetcher: &mut RefFetcher) -> (r: bool)
        requires
            old(fetcher).rule_map.wf(),
        ensures
            final(fetcher).rule_map == old(fetcher).rule_map,
            final(self)@ == fin(old(self)@, old(fetcher).rule_map.entries()).item,
            r == fin(old(self)@, old(fetcher).rule_map.entries()).ok,
            view_names(final(fetcher).new_rules@) == view_names(old(fetcher).new_rules@) + fin(old(self)@, old(fetcher).rule_map.entries()).new_rules,
        decreases *old(self),
    {
        let ghost map = fetcher.rule_map.entries();
        let ghost items0 = view_items(self.items@);
        let ghost old_items = self.items@;
        let ghost nr0 = view_names(fetcher.new_rules@);
        let mut res = true;
        let mut i: usize = 0;
        proof {
            lemma_view_items(self.items@);
            assert(items0.take(0) =~= Seq::<SItem>::empty());
            assert(view_names(fetcher.new_rules@) =~= nr0 + fin_seq(items0.take(0), map).new_rules);
        }
        while i < self.items.len()
            invariant
                i <= self.items@.len(),
                self.items@.len() == old_items.len(),
                items0 == view_items(old_items),
                items0.len() == old_items.len(),
                forall|j: int| 0 <= j < old_items.len() ==> #[trigger] items0[j] == old_items[j]@,
                forall|j: int| i <= j < old_items.len() ==> #[trigger] self.items@[j] == old_items[j],
                forall|j: int| 0 <= j < i ==> #[trigger] self.items@[j]@ == fin_seq(items0.take(i as int), map).items[j],
                fin_seq(items0.take(i as int), map).items.len() == i,
                res == fin_seq(items0.take(i as int), map).ok,
                self.sep@ == old(self).sep@,
                old_items == old(self).items@,
                fetcher.rule_map == old(fetcher).rule_map,
                fetcher.rule_map.wf(),
                map == fetcher.rule_map.entries(),
                view_names(fetcher.new_rules@) == nr0 + fin_seq(items0.take(i as int), map).new_rules,
                nr0 == view_names(old(fetcher).new_rules@),
            decreases self.items@.len() - i,
        {
            let ghost nr1 = view_names(fetcher.new_rules@);
            proof {
                assert(decreases_to!(*old(self) => old(self).items));
                assert(decreases_to!(old(self).items@ => old(self).items@[i as int]));
            }
            let ok = fetcher.finalize(&mut self.items[i]);
            res = res && ok;
            proof {
                assert(items0.take(i + 1).drop_last() =~= items0.take(i as int));
                assert(items0.take(i + 1).last() == old_items[i as int]@);
                assert(view_names(fetcher.new_rules@) =~= nr0 + fin_seq(items0.take(i + 1), map).new_rules);
            }
            i += 1;
        }
        proof {
            assert(items0.take(i as int) =~= items0);
            lemma_view_items(self.items@);
            assert(view_items(self.items@) =~= fin_seq(items0, map).items);
        }
        res
    }
}

impl Or {
    /// Resolves every option; the options that can be built become the ones
    /// to choose from. Returns whether there is any.
    pub fn finalize(&mut self, fetcher: &mut RefFetcher) -> (r: bool)
        requires
            old(fetcher).rule_map.wf(),
        ensures
            final(fetcher).rule_map == old(fetcher).rule_map,
            SItem::Or(final(self)@) == fin(SItem::Or(old(self)@), old(fetcher).rule_map.entries()).item,
            r == fin(SItem::Or(old(self)@), old(fetcher).rule_map.entries()).ok,
            view_names(final(fetcher).new_rules@) == view_names(old(fetcher).new_rules@) + fin(SItem::Or(old(self)@), old(fetcher).rule_map.entries()).new_rules,
        decreases *old(self),
    {
        let ghost map = fetcher.rule_map.entries();
        let ghost items0 = view_items(self.choices@);
        let ghost old_items = self.choices@;
        let ghost nr0 = view_names(fetcher.new_rules@);
        self.choice_indices.clear();
        let mut i: usize = 0;
        proof {
            lemma_view_items(self.choices@);
            assert(items0.take(0) =~= Seq::<SItem>::empty());
            assert(view_names(fetcher.new_rules@) =~= nr0 + fin_seq(items0.take(0), map).new_rules);
        }
        while i < self.choices.len()
            invariant
                i <= self.choices@.len(),
                self.choices@.len() == old_items.len(),
                items0 == view_items(old_items),
                items0.len() == old_items.len(),
                forall|j: int| 0 <= j < old_items.len() ==> #[trigger] items0[j] == old_items[j]@,
                forall|j: int| i <= j < old_items.len() ==> #[trigger] self.choices@[j] == old_items[j],
                forall|j: int| 0 <= j < i ==> #[trigger] self.choices@[j]@ == fin_seq(items0.take(i as int), map).items[j],
                fin_seq(items0.take(i as int), map).items.len() == i,
                self.choice_indices@ == fin_seq(items0.take(i as int), map).oks,
                self.shortest_options@ == old(self).shortest_options@,
                self.keep == old(self).keep,
                old_items == old(self).choices@,
                fetcher.rule_map == old(fetcher).rule_map,
                fetcher.rule_map.wf(),
                map == fetcher.rule_map.entries(),
                view_names(fetcher.new_rules@) == nr0 + fin_seq(items0.take(i as int), map).new_rules,
                nr0 == view_names(old(fetcher).new_rules@),
            decreases self.choices@.len() - i,
        {
            proof {
                assert(decreases_to!(*old(self) => old(self).choices));
                assert(decreases_to!(old(self).choices@ => old(self).choices@[i as int]));
            }
            let ok = fetcher.finalize(&mut self.choices[i]);
            if ok {
                self.choice_indices.push(i);
            }
            proof {
                assert(items0.take(i + 1).drop_last() =~= items0.take(i as int));
                assert(items0.take(i + 1).last() == old_items[i as int]@);
                assert(view_names(fetcher.new_rules@) =~= nr0 + fin_seq(items0.take(i + 1), map).new_rules);
            }
            i += 1;
        }
        proof {
            assert(items0.take(i as int) =~= items0);
            lemma_view_items(self.choices@);
            assert(view_items(self.choices@) =~= fin_seq(items0, map).items);
        }
        self.choice_indices.len() > 0
    }
}

impl Opt {
    /// Resolves the optional item.
    pub fn finalize(&mut self, fetcher: &mut RefFetcher) -> (r: bool)
        requires
            old(fetcher).rule_map.wf(),
        ensures
            final(fetcher).rule_map == old(fetcher).rule_map,
            final(self)@ == fin(old(self)@, old(fetcher).rule_map.entries()).item,
            r == fin(old(self)@, old(fetcher).rule_map.entries()).ok,
            view_names(final(fetcher).new_rules@) == view_names(old(fetcher).new_rules@) + fin(old(self)@, old(fetcher).rule_map.entries()).new_rules,
        decreases *old(self),
    {
        let mut b: Box<Item> = Box::new(Item::PreFlush);
        std::mem::swap(&mut b, &mut self.item);
        let mut inner: Item = *b;
        proof { assert(decreases_to!(*old(self) => *old(self).item)); }
        let r = fetcher.finalize(&mut inner);
        self.item = Box::new(inner);
        r
    }
}

impl Mul {
    /// Resolves the repeated item.
    pub fn finalize(&mut self, fetcher: &mut RefFetcher) -> (r: bool)
        requires
            old(fetcher).rule_map.wf(),
        ensures
            final(fetcher).rule_map == old(fetcher).rule_map,
            final(self)@ == fin(old(self)@, old(fetcher).rule_map.entries()).item,
            r == fin(old(self)@, old(fetcher).rule_map.entries()).ok,
            view_names(final(fetcher).new_rules@) == view_names(old(fetcher).new_rules@) + fin(old(self)@, old(fetcher).rule_map.entries()).new_rules,
        decreases *old(self),
    {
        let mut b: Box<Item> = Box::new(Item::PreFlush);
        std::mem::swap(&mut b, &mut self.item);
        let mut inner: Item = *b;
        proof { assert(decreases_to!(*old(self) => *old(self).item)); }
        let r = fetcher.finalize(&mut inner);
        self.item = Box::new(inner);
        r
    }
}

impl Scoped {
    /// Resolves the scoped item.
    pub fn finalize(&mut self, fetcher: &mut RefFetcher) -> (r: bool)
        requires
            old(fetcher).rule_map.wf(),
        ensures
            final(fetcher).rule_map == old(fetcher).rule_map,
            final(self)@ == fin(old(self)@, old(fetcher).rule_map.entries()).item,
            r == fin(old(self)@, old(fetcher).rule_map.entries()).ok,
            view_names(final(fetcher).new_rules@) == view_names(old(fetcher).new_rules@) + fin(old(self)@, old(fetcher).rule_map.entries()).new_rules,
        decreases *old(self),
    {
        let mut b: Box<Item> = Box::new(Item::PreFlush);
        std::mem::swap(&mut b, &mut self.item);
        let mut inner: Item = *b;
        proof { assert(decreases_to!(*old(self) => *old(self).item)); }
        let r = fetcher.finalize(&mut inner);
        self.item = Box::new(inner);
        r
    }
}

impl Id {
    /// Resolves the rule name; returns whether it names a rule.
    pub fn finalize(&mut self, fetcher: &mut RefFetcher) -> (r: bool)
        requires
            old(fetcher).rule_map.wf(),
        ensures
            *final(fetcher) == *old(fetcher),
            final(self)@ == fin(old(self)@, old(fetcher).rule_map.entries()).item,
            r == (lookup(old(fetcher).rule_map.entries(), old(self).rule_name@) is Some),
    {
        self.rule_idx = fetcher.get_ref_idx(self.rule_name.as_str());
        self.rule_idx.is_some()
    }
}

impl PreId {
    /// Resolves every item, notes where the identifier markers are, and
    /// resolves the rule name. Returns whether all items can be built and
    /// whether the rule name names a rule.
    pub fn finalize(&mut self, fetcher: &mut RefFetcher) -> (r: (bool, bool))
        requires
            old(fetcher).rule_map.wf(),
        ensures
            final(fetcher).rule_map == old(fetcher).rule_map,
            ({
                let f = fin_seq(view_items(old(self).items@), old(fetcher).rule_map.entries());
                let idx = lookup(old(fetcher).rule_map.entries(), old(self).rule_name@);
                &&& final(self)@ == (SItem::PreId { name: old(self).rule_name@, idx, sep: old(self).sep@, items: f.items, ids: old(self).id_indices@ + f.marks })
                &&& r.0 == f.ok
                &&& r.1 == idx is Some
                &&& view_names(final(fetcher).new_rules@) == view_names(old(fetcher).new_rules@) + f.new_rules
            }),
        decreases *old(self),
    {
        let ghost map = fetcher.rule_map.entries();
        let ghost items0 = view_items(self.items@);
        let ghost old_items = self.items@;
        let ghost nr0 = view_names(fetcher.new_rules@);
        let marker = pre_id_bytes();
        let mut res = true;
        let mut i: usize = 0;
        proof {
            lemma_view_items(self.items@);
            assert(items0.take(0) =~= Seq::<SItem>::empty());
            assert(view_names(fetcher.new_rules@) =~= nr0 + fin_seq(items0.take(0), map).new_rules);
            assert(self.id_indices@ =~= old(self).id_indices@ + fin_seq(items0.take(0), map).marks);
        }
        while i < self.items.len()
            invariant
                i <= self.items@.len(),
                marker@ == pre_id_marker(),
                self.items@.len() == old_items.len(),
                items0 == view_items(old_items),
                items0.len() == old_items.len(),
                forall|j: int| 0 <= j < old_items.len() ==> #[trigger] items0[j] == old_items[j]@,
                forall|j: int| i <= j < old_items.len() ==> #[trigger] self.items@[j] == old_items[j],
                forall|j: int| 0 <= j < i ==> #[trigger] self.items@[j]@ == fin_seq(items0.take(i as int), map).items[j],
                fin_seq(items0.take(i as int), map).items.len() == i,
                res == fin_seq(items0.take(i as int), map).ok,
                self.id_indices@ == old(self).id_indices@ + fin_seq(items0.take(i as int), map).marks,
                self.sep@ == old(self).sep@,
                self.rule_name@ == old(self).rule_name@,
                old_items == old(self).items@,
                fetcher.rule_map == old(fetcher).rule_map,
                fetcher.rule_map.wf(),
                map == fetcher.rule_map.entries(),
                view_names(fetcher.new_rules@) == nr0 + fin_seq(items0.take(i as int), map).new_rules,
                nr0 == view_names(old(fetcher).new_rules@),
            decreases self.items@.len() - i,
        {
            proof {
                assert(decreases_to!(*old(self) => old(self).items));
                assert(decreases_to!(old(self).items@ => old(self).items@[i as int]));
            }
            let ok = fetcher.finalize(&mut self.items[i]);
            res = res && ok;
            let is_mark = match &self.items[i] {
                Item::Direct(v) => slice_equal(v.as_slice(), marker.as_slice()),
                _ => false,
            };
            if is_mark {
                self.id_indices.push(i);
            }
            proof {
                assert(items0.take(i + 1).drop_last() =~= items0.take(i as int));
                assert(items0.take(i + 1).last() == old_items[i as int]@);
                assert(is_mark == is_marker(self.items@[i as int]@));
                assert(view_names(fetcher.new_rules@) =~= nr0 + fin_seq(items0.take(i + 1), map).new_rules);
                assert(self.id_indices@ =~= old(self).id_indices@ + fin_seq(items0.take(i + 1), map).marks);
            }
            i += 1;
        }
        proof {
            assert(items0.take(i as int) =~= items0);
            lemma_view_items(self.items@);
            assert(view_items(self.items@) =~= fin_seq(items0, map).items);
        }
        self.rule_idx = fetcher.get_ref_idx(self.rule_name.as_str());
        (res, self.rule_idx.is_some())
    }
}

} // verus!
