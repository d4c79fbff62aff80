//! Building output from items: what each item writes, as a function of the
//! random values it draws, and the builder that does it.
use vstd::prelude::*;
use crate::fields::{
    SItem, SOr, or_add, Item, And, Or, Ref, Str, Int, Opt, Mul, Id, PreId, Scoped, clone_item,
    view_items, lemma_view_items,
};
use crate::random::Rand;
use crate::rules::{fresh_scope, RuleList, view_ors};
use crate::text::{signed_decimal, i64_decimal};
use crate::describe::{bytes_to_string, lemma_ascii_valid};
use vstd::utf8::encode_utf8;

verus! {

/// Why a build stopped.
#[derive(Debug, Clone, Copy, PartialEq, Eq, Structural)]
pub enum BuildError {
    /// A reference or an identifier whose rule was never resolved.
    Unresolved,
    /// No scope offers an option for the rule with this index.
    NoOptions(usize),
    /// An index or a range in an item is out of bounds.
    Malformed,
    /// The builder has expanded as many references as it may.
    Exhausted,
}

/// The state of a build: the scopes of rules (innermost first), the front
/// part of the output, the output, the random values still to be drawn, and
/// how many more references may be expanded.
pub struct Gen {
    pub scopes: Seq<Seq<SOr>>,
    pub pre: Seq<u8>,
    pub out: Seq<u8>,
    pub draws: Seq<int>,
    pub budget: nat,
}

/// The outcome of building: the final state and whether it succeeded.
pub struct Outcome {
    pub state: Gen,
    pub ok: Result<(), BuildError>,
}

pub open spec fn done(g: Gen) -> Outcome {
    Outcome { state: g, ok: Ok(()) }
}

pub open spec fn fail(g: Gen, e: BuildError) -> Outcome {
    Outcome { state: g, ok: Err(e) }
}

/// The `j`-th random value still to be drawn (zero past the end).
pub open spec fn draw_at(g: Gen, j: int) -> int {
    if 0 <= j < g.draws.len() {
        g.draws[j]
    } else {
        0
    }
}

/// The state after `n` values were drawn.
pub open spec fn skip_draws(g: Gen, n: nat) -> Gen {
    Gen {
        draws: if n <= g.draws.len() { g.draws.skip(n as int) } else { Seq::empty() },
        ..g
    }
}

/// The state with `bytes` appended to the output.
pub open spec fn write(g: Gen, bytes: Seq<u8>) -> Gen {
    Gen { out: g.out + bytes, ..g }
}

/// A raw 64-bit random value used as an index below `n`.
pub open spec fn draw_index(d: int, n: usize) -> usize {
    ((d as u64) as usize) % n
}

/// How far beyond its minimum a random string of length range `[min, min +
/// diff]` goes, picked by the random value `d`: a value in `[0, diff]`.
pub open spec fn extra_len(d: int, diff: usize) -> usize {
    if diff == usize::MAX {
        (d as u64) as usize
    } else {
        draw_index(d, (diff + 1) as usize)
    }
}

/// `n` bytes of `charset`, each picked by one of the next `n` random values.
pub open spec fn pick_bytes(g: Gen, n: nat, charset: Seq<u8>) -> Seq<u8> {
    Seq::new(n, |j: int| charset[draw_index(draw_at(g, j), charset.len() as usize) as int])
}

/// The lowercase ASCII letters.
pub open spec fn letters() -> Seq<u8> {
    Seq::new(26, |i: int| (97 + i) as u8)
}

/// The length of a new identifier, picked by a random value: 10 to 19.
pub open spec fn id_len(d: int) -> nat {
    (draw_index(d, 10) + 10) as nat
}

/// A new identifier: a length, then that many lowercase letters.
pub open spec fn gen_id(g: Gen) -> (Gen, Seq<u8>) {
    let n = id_len(draw_at(g, 0));
    let g1 = skip_draws(g, 1);
    (skip_draws(g1, n), pick_bytes(g1, n, letters()))
}

/// The scopes with `id` added as an option of rule `i` of the innermost one.
pub open spec fn add_id(scopes: Seq<Seq<SOr>>, i: usize, id: Seq<u8>) -> Seq<Seq<SOr>> {
    scopes.update(0, scopes[0].update(i as int, or_add(scopes[0][i as int], SItem::Direct(id))))
}

/// Which option of an `Or` is built: one of the shortest options when asked
/// and there are any, else one of the options that can be built.
pub open spec fn pick_choice(o: SOr, g: Gen, shortest: bool) -> (Gen, Result<usize, BuildError>) {
    if shortest && o.shortest.len() > 0 {
        let c = o.shortest[draw_index(draw_at(g, 0), o.shortest.len() as usize) as int];
        (skip_draws(g, 1), if c < o.choices.len() { Ok(c) } else { Err(BuildError::Malformed) })
    } else if o.indices.len() == 0 {
        (g, Err(BuildError::Malformed))
    } else {
        let c = o.indices[draw_index(draw_at(g, 0), o.indices.len() as usize) as int];
        (skip_draws(g, 1), if c < o.choices.len() { Ok(c) } else { Err(BuildError::Malformed) })
    }
}

/// Every scope has a rule with index `i`.
pub open spec fn has_rule(scopes: Seq<Seq<SOr>>, i: usize) -> bool {
    forall|j: int| 0 <= j < scopes.len() ==> i < #[trigger] scopes[j].len()
}

/// The rules with index `i` that have an option, innermost scope first.
pub open spec fn rule_options(scopes: Seq<Seq<SOr>>, i: usize) -> Seq<SOr>
    decreases scopes.len(),
{
    if scopes.len() == 0 {
        Seq::empty()
    } else {
        let o = scopes[0][i as int];
        (if o.indices.len() > 0 { seq![o] } else { Seq::empty() }) + rule_options(scopes.drop_first(), i)
    }
}

/// What building `item` does from state `g` at reference depth `depth`,
/// where the shortest options are taken from `max_depth` on.
pub open spec fn build_spec(item: SItem, g: Gen, depth: nat, max_depth: nat) -> Outcome
    decreases g.budget, 1int, item, 0int,
{
    let shortest = depth >= max_depth;
    match item {
        SItem::Direct(v) => done(write(g, v)),
        SItem::And { sep, items } => and_spec(sep, items, 0, g, depth, max_depth),
        SItem::Or(o) => choice_spec(o, g, depth, max_depth, shortest),
        SItem::Ref { name, idx } => match idx {
            None => fail(g, BuildError::Unresolved),
            Some(i) => if g.budget == 0 {
                fail(g, BuildError::Exhausted)
            } else {
                rule_spec(i, Gen { budget: (g.budget - 1) as nat, ..g }, depth + 1, max_depth, shortest)
            },
        },
        SItem::Str { min, max, diff, charset } => {
            let rem = extra_len(draw_at(g, 0), diff);
            let g1 = skip_draws(g, 1);
            if rem + min > usize::MAX {
                fail(g1, BuildError::Malformed)
            } else {
                let n = (rem + min) as nat;
                if n > 0 && charset.len() == 0 {
                    fail(g1, BuildError::Malformed)
                } else {
                    done(write(skip_draws(g1, n), pick_bytes(g1, n, charset)))
                }
            }
        },
        SItem::Int { min, max } => {
            if min >= max {
                fail(g, BuildError::Malformed)
            } else {
                done(write(skip_draws(g, 1), signed_decimal(draw_at(g, 0))))
            }
        },
        SItem::Opt { inner, has_refs } => opt_spec(*inner, has_refs, g, depth, max_depth, shortest),
        SItem::Mul { inner, min, max } => {
            if max > min {
                repeat_spec(*inner, draw_at(g, 0) as nat, skip_draws(g, 1), depth, max_depth)
            } else {
                repeat_spec(*inner, min as nat, g, depth, max_depth)
            }
        },
        SItem::Id { name, idx } => match idx {
            None => fail(g, BuildError::Unresolved),
            Some(i) => if g.scopes.len() == 0 || i >= g.scopes[0].len() {
                fail(g, BuildError::Malformed)
            } else {
                let (g1, id) = gen_id(g);
                done(Gen { scopes: add_id(g1.scopes, i, id), ..write(g1, id) })
            },
        },
        SItem::PreId { name, idx, sep, items, ids } => match idx {
            None => fail(g, BuildError::Unresolved),
            Some(i) => if g.scopes.len() == 0 || i >= g.scopes[0].len() {
                fail(g, BuildError::Malformed)
            } else {
                let (o, id) = preid_spec(sep, items, ids, g, depth, max_depth);
                match o.ok {
                    Err(e) => o,
                    Ok(_) => if o.state.scopes.len() == 0 || i >= o.state.scopes[0].len() {
                        fail(o.state, BuildError::Malformed)
                    } else {
                        done(Gen { scopes: add_id(o.state.scopes, i, id), ..o.state })
                    },
                }
            },
        },
        SItem::PreFlush => done(Gen { pre: g.pre + g.out, out: Seq::empty(), ..g }),
        SItem::Scoped { inner } => {
            if g.scopes.len() == 0 {
                fail(g, BuildError::Malformed)
            } else {
                let o = build_spec(*inner, Gen { scopes: seq![fresh_scope(g.scopes[0].len())] + g.scopes, ..g }, depth, max_depth);
                Outcome { state: Gen { scopes: o.state.scopes.drop_first(), ..o.state }, ok: o.ok }
            }
        },
    }
}

/// Building the items of an `And` from the `i`-th on.
pub open spec fn and_spec(sep: Seq<u8>, items: Seq<SItem>, i: nat, g: Gen, depth: nat, max_depth: nat) -> Outcome
    decreases g.budget, 1int, items, items.len() - i,
{
    if i >= items.len() {
        done(g)
    } else {
        let g0 = if sep.len() > 0 && i > 0 { write(g, sep) } else { g };
        let o = build_spec(items[i as int], g0, depth, max_depth);
        match o.ok {
            Err(e) => o,
            Ok(_) => if o.state.budget <= g.budget {
                and_spec(sep, items, i + 1, o.state, depth, max_depth)
            } else {
                o
            },
        }
    }
}

/// Building `inner` `n` times.
pub open spec fn repeat_spec(inner: SItem, n: nat, g: Gen, depth: nat, max_depth: nat) -> Outcome
    decreases g.budget, 1int, inner, n,
{
    if n == 0 {
        done(g)
    } else {
        let o = build_spec(inner, g, depth, max_depth);
        match o.ok {
            Err(e) => o,
            Ok(_) => if o.state.budget <= g.budget {
                repeat_spec(inner, (n - 1) as nat, o.state, depth, max_depth)
            } else {
                o
            },
        }
    }
}

/// What a `PreId` writes: a new identifier `id`; its definition, built
/// from `items` into a buffer of its own, goes to the front part; the
/// identifier goes to the output.
pub open spec fn preid_spec(
    sep: Seq<u8>,
    items: Seq<SItem>,
    ids: Seq<usize>,
    g: Gen,
    depth: nat,
    max_depth: nat,
) -> (Outcome, Seq<u8>)
    decreases g.budget, 1int, items, items.len() + 1,
{
    let (g1, id) = gen_id(g);
    let (o, real_out) = pre_spec(sep, items, ids, id, 0, Gen { out: Seq::empty(), ..g1 }, g1.out, depth, max_depth);
    let g2 = o.state;
    match o.ok {
        Err(e) => (fail(Gen { out: real_out, ..g2 }, e), id),
        Ok(_) => (done(Gen { pre: g2.pre + g2.out, out: real_out + id, ..g2 }), id),
    }
}

/// Building the items of a `PreId` from the `k`-th on into `g.out`, with
/// the identifier `id` at the marked positions and the separators written
/// to `real_out`.
pub open spec fn pre_spec(
    sep: Seq<u8>,
    items: Seq<SItem>,
    ids: Seq<usize>,
    id: Seq<u8>,
    k: nat,
    g: Gen,
    real_out: Seq<u8>,
    depth: nat,
    max_depth: nat,
) -> (Outcome, Seq<u8>)
    decreases g.budget, 1int, items, items.len() - k,
{
    if k >= items.len() {
        (done(g), real_out)
    } else {
        let ro = if sep.len() > 0 && k > 0 { real_out + sep } else { real_out };
        if ids.contains(k as usize) {
            pre_spec(sep, items, ids, id, k + 1, write(g, id), ro, depth, max_depth)
        } else {
            let o = build_spec(items[k as int], g, depth, max_depth);
            match o.ok {
                Err(e) => (o, ro),
                Ok(_) => if o.state.budget <= g.budget {
                    pre_spec(sep, items, ids, id, k + 1, o.state, ro, depth, max_depth)
                } else {
                    (o, ro)
                },
            }
        }
    }
}

/// Expanding a reference to rule `i`: one of the scopes that offer an
/// option for it is picked, then one of that rule's options is built.
pub open spec fn rule_spec(i: usize, g: Gen, depth: nat, max_depth: nat, shortest: bool) -> Outcome
    decreases g.budget, 2int, SItem::PreFlush, 0int,
{
    if !has_rule(g.scopes, i) {
        fail(g, BuildError::Malformed)
    } else {
        let opts = rule_options(g.scopes, i);
        if opts.len() == 0 {
            fail(g, BuildError::NoOptions(i))
        } else {
            let o = opts[draw_index(draw_at(g, 0), opts.len() as usize) as int];
            choice_spec(o, skip_draws(g, 1), depth, max_depth, shortest)
        }
    }
}

/// Building an option of `o`, picked as `pick_choice` says.
pub open spec fn choice_spec(o: SOr, g: Gen, depth: nat, max_depth: nat, shortest: bool) -> Outcome
    decreases g.budget, 1int, o, 0int,
{
    let (g1, c) = pick_choice(o, g, shortest);
    match c {
        Err(e) => fail(g1, e),
        Ok(c) => if c < o.choices.len() && g1.budget <= g.budget {
            build_spec(o.choices[c as int], g1, depth, max_depth)
        } else {
            done(g1)
        },
    }
}

/// Building an optional item: left out when the shortest options are asked
/// for and it holds references, else built when a coin drawn from `{0, 1}`
/// is not `0`.
pub open spec fn opt_spec(inner: SItem, has_refs: bool, g: Gen, depth: nat, max_depth: nat, shortest: bool) -> Outcome
    decreases g.budget, 1int, inner, 1int,
{
    if shortest && has_refs {
        done(g)
    } else if draw_at(g, 0) == 0 {
        done(skip_draws(g, 1))
    } else {
        build_spec(inner, skip_draws(g, 1), depth, max_depth)
    }
}

// ----------------------------------------------------------------------------
// Random values handed out during a build
// ----------------------------------------------------------------------------

/// `h1` is `h0` followed by zero or more further values.
pub open spec fn extends(h0: Seq<int>, h1: Seq<int>) -> bool {
    h0.len() <= h1.len() && h1.subrange(0, h0.len() as int) == h0
}

/// The values of `h1` after its prefix `h0`.
pub open spec fn drawn(h0: Seq<int>, h1: Seq<int>) -> Seq<int> {
    h1.skip(h0.len() as int)
}

pub proof fn lemma_extends_refl(h: Seq<int>)
    ensures
        extends(h, h),
        drawn(h, h) == Seq::<int>::empty(),
{
    assert(h.subrange(0, h.len() as int) =~= h);
    assert(drawn(h, h) =~= Seq::<int>::empty());
}

pub proof fn lemma_extends_push(h: Seq<int>, v: int)
    ensures
        extends(h, h.push(v)),
        drawn(h, h.push(v)) == seq![v],
{
    assert(h.push(v).subrange(0, h.len() as int) =~= h);
    assert(drawn(h, h.push(v)) =~= seq![v]);
}

pub proof fn lemma_extends_trans(h0: Seq<int>, h1: Seq<int>, h2: Seq<int>)
    requires
        extends(h0, h1),
        extends(h1, h2),
    ensures
        extends(h0, h2),
        drawn(h0, h2) == drawn(h0, h1) + drawn(h1, h2),
{
    assert(h2.subrange(0, h0.len() as int) =~= h1.subrange(0, h0.len() as int));
    assert(drawn(h0, h2) =~= drawn(h0, h1) + drawn(h1, h2));
}

/// Same number of scopes, and the same number of rules in each.
pub open spec fn same_shape(a: Seq<Seq<SOr>>, b: Seq<Seq<SOr>>) -> bool {
    a.len() == b.len() && forall|j: int| 0 <= j < a.len() ==> #[trigger] a[j].len() == b[j].len()
}

// ----------------------------------------------------------------------------
// The builder
// ----------------------------------------------------------------------------

/// Builds items against a scope of rules, expanding references at most
/// `budget` more times and taking the shortest options once `curr_depth`
/// nested references reach `max_depth`.
pub struct ItemBuilder {
    pub rules: RuleList,
    pub curr_depth: usize,
    pub max_depth: usize,
    pub budget: usize,
}

impl ItemBuilder {
    /// The state of a build with this builder, these outputs and these
    /// random values to come.
    pub open spec fn state(&self, pre: Seq<u8>, out: Seq<u8>, draws: Seq<int>) -> Gen {
        Gen { scopes: self.rules@, pre, out, draws, budget: self.budget as nat }
    }

    /// The depth can still grow by the remaining budget.
    pub open spec fn wf(&self) -> bool {
        self.curr_depth + self.budget <= usize::MAX
    }
}

/// What is kept or only shrinks while building.
pub open spec fn frame(b0: ItemBuilder, b1: ItemBuilder, h0: Seq<int>, h1: Seq<int>) -> bool {
    &&& extends(h0, h1)
    &&& b1.curr_depth == b0.curr_depth
    &&& b1.max_depth == b0.max_depth
    &&& b1.budget <= b0.budget
    &&& same_shape(b1.rules@, b0.rules@)
}

/// Building `item` took the builder from `b0` to `b1`, the outputs from
/// `pre0`, `out0` to `pre1`, `out1`, drew the values by which `h0` grew to
/// `h1`, and ended with `r`, as `build_spec` says.
pub open spec fn builds(
    item: SItem,
    b0: ItemBuilder,
    b1: ItemBuilder,
    pre0: Seq<u8>,
    pre1: Seq<u8>,
    out0: Seq<u8>,
    out1: Seq<u8>,
    h0: Seq<int>,
    h1: Seq<int>,
    r: Result<(), BuildError>,
) -> bool {
    &&& frame(b0, b1, h0, h1)
    &&& forall|rest: Seq<int>|
        #[trigger] build_spec(item, b0.state(pre0, out0, drawn(h0, h1) + rest), b0.curr_depth as nat, b0.max_depth as nat)
            == (Outcome { state: b1.state(pre1, out1, rest), ok: r })
}

/// Expanding a reference to rule `i` did what `rule_spec` says.
pub open spec fn expands(
    i: usize,
    shortest: bool,
    b0: ItemBuilder,
    b1: ItemBuilder,
    pre0: Seq<u8>,
    pre1: Seq<u8>,
    out0: Seq<u8>,
    out1: Seq<u8>,
    h0: Seq<int>,
    h1: Seq<int>,
    r: Result<(), BuildError>,
) -> bool {
    &&& frame(b0, b1, h0, h1)
    &&& forall|rest: Seq<int>|
        #[trigger] rule_spec(i, b0.state(pre0, out0, drawn(h0, h1) + rest), b0.curr_depth as nat, b0.max_depth as nat, shortest)
            == (Outcome { state: b1.state(pre1, out1, rest), ok: r })
}

/// Appends the bytes of `item` to `output`.
fn safe_build(item: &Vec<u8>, output: &mut Vec<u8>)
    ensures
        final(output)@ == old(output)@ + item@,
{
    let mut i: usize = 0;
    while i < item.len()
        invariant
            i <= item@.len(),
            output@ == old(output)@ + item@.subrange(0, i as int),
        decreases item.len() - i,
    {
        output.push(item[i]);
        assert(item@.subrange(0, i + 1) =~= item@.subrange(0, i as int).push(item@[i as int]));
        i += 1;
    }
    assert(item@.subrange(0, item@.len() as int) =~= item@);
}

/// `x` occurs in `v`.
fn contains_index(v: &Vec<usize>, x: usize) -> (r: bool)
    ensures
        r == v@.contains(x),
{
    let mut i: usize = 0;
    while i < v.len()
        invariant
            i <= v@.len(),
            forall|j: int| 0 <= j < i ==> v@[j] != x,
        decreases v.len() - i,
    {
        if v[i] == x {
            return true;
        }
        i += 1;
    }
    false
}

/// A new identifier: 10 to 19 random lowercase letters.
fn new_id(rand: &mut Rand) -> (r: Vec<u8>)
    ensures
        extends(old(rand).history(), final(rand).history()),
        forall|j: int| 0 <= j < r@.len() ==> 97 <= #[trigger] r@[j] < 123,
        forall|g: Gen| #[trigger] gen_id(with_draws(g, drawn(old(rand).history(), final(rand).history()) + g.draws)) == (g, r@),
{
    let ghost h0 = rand.history();
    let n = ((rand.next() as usize) % 10) + 10;
    let ghost h1 = rand.history();
    let ghost d0 = h1.last();
    proof { lemma_extends_push(h0, d0); lemma_extends_refl(h1); }
    let mut res: Vec<u8> = Vec::new();
    let mut i: usize = 0;
    while i < n
        invariant
            i <= n,
            n as nat == id_len(d0),
            extends(h1, rand.history()),
            drawn(h1, rand.history()).len() == i,
            res@.len() == i,
            forall|j: int| 0 <= j < i ==> 97 <= #[trigger] res@[j] < 123,
            forall|j: int| 0 <= j < i ==> #[trigger] res@[j] == letters()[draw_index(drawn(h1, rand.history())[j], 26) as int],
        decreases n - i,
    {
        let ghost hb = rand.history();
        let k = (rand.next() as usize) % 26;
        proof {
            lemma_extends_push(hb, rand.history().last());
            lemma_extends_trans(h1, hb, rand.history());
            assert(drawn(h1, rand.history())[i as int] == rand.history().last());
        }
        res.push((97 + k) as u8);
        i += 1;
    }
    proof {
        lemma_extends_trans(h0, h1, rand.history());
        let dd = drawn(h1, rand.history());
        assert forall|g: Gen| #[trigger] gen_id(with_draws(g, drawn(h0, rand.history()) + g.draws)) == (g, res@) by {
            let g0 = with_draws(g, drawn(h0, rand.history()) + g.draws);
            assert(drawn(h0, h1) == seq![d0]);
            assert(draw_at(g0, 0) == d0);
            let g1 = skip_draws(g0, 1);
            assert(g1.draws =~= dd + g.draws);
            assert(skip_draws(g1, n as nat).draws =~= g.draws);
            assert(skip_draws(g1, n as nat) == g);
            assert(pick_bytes(g1, n as nat, letters()) =~= res@);
        }
    }
    res
}

/// Expanding a reference to rule `i`: `choice_spec` after the scope was
/// picked.
pub open spec fn chooses(
    o: SOr,
    shortest: bool,
    b0: ItemBuilder,
    b1: ItemBuilder,
    pre0: Seq<u8>,
    pre1: Seq<u8>,
    out0: Seq<u8>,
    out1: Seq<u8>,
    h0: Seq<int>,
    h1: Seq<int>,
    r: Result<(), BuildError>,
) -> bool {
    &&& frame(b0, b1, h0, h1)
    &&& forall|rest: Seq<int>|
        #[trigger] choice_spec(o, b0.state(pre0, out0, drawn(h0, h1) + rest), b0.curr_depth as nat, b0.max_depth as nat, shortest)
            == (Outcome { state: b1.state(pre1, out1, rest), ok: r })
}

/// Building an optional item did what `opt_spec` says.
pub open spec fn opt_builds(
    inner: SItem,
    has_refs: bool,
    shortest: bool,
    b0: ItemBuilder,
    b1: ItemBuilder,
    pre0: Seq<u8>,
    pre1: Seq<u8>,
    out0: Seq<u8>,
    out1: Seq<u8>,
    h0: Seq<int>,
    h1: Seq<int>,
    r: Result<(), BuildError>,
) -> bool {
    &&& frame(b0, b1, h0, h1)
    &&& forall|rest: Seq<int>|
        #[trigger] opt_spec(inner, has_refs, b0.state(pre0, out0, drawn(h0, h1) + rest), b0.curr_depth as nat, b0.max_depth as nat, shortest)
            == (Outcome { state: b1.state(pre1, out1, rest), ok: r })
}

/// `g` with `d` as the values still to be drawn.
pub open spec fn with_draws(g: Gen, d: Seq<int>) -> Gen {
    Gen { draws: d, ..g }
}

/// A state that only has random values to draw.
pub open spec fn draws_only(d: Seq<int>) -> Gen {
    Gen { scopes: Seq::empty(), pre: Seq::empty(), out: Seq::empty(), draws: d, budget: 0 }
}

/// Two steps in a row keep the frame.
pub proof fn lemma_frame_trans(b0: ItemBuilder, b1: ItemBuilder, b2: ItemBuilder, h0: Seq<int>, h1: Seq<int>, h2: Seq<int>)
    requires
        frame(b0, b1, h0, h1),
        frame(b1, b2, h1, h2),
    ensures
        frame(b0, b2, h0, h2),
        drawn(h0, h2) == drawn(h0, h1) + drawn(h1, h2),
{
    lemma_extends_trans(h0, h1, h2);
    assert forall|j: int| 0 <= j < b2.rules@.len() implies #[trigger] b2.rules@[j].len() == b0.rules@[j].len() by {
        assert(b2.rules@[j].len() == b1.rules@[j].len());
    }
}

pub proof fn lemma_one_draw(g: Gen, d: int)
    ensures
        draw_at(with_draws(g, seq![d] + g.draws), 0) == d,
        skip_draws(with_draws(g, seq![d] + g.draws), 1) == g,
{
    let g0 = with_draws(g, seq![d] + g.draws);
    assert(g0.draws.skip(1) =~= g.draws);
}

pub proof fn lemma_no_draw(g: Gen)
    ensures
        with_draws(g, Seq::<int>::empty() + g.draws) == g,
{
    assert(Seq::<int>::empty() + g.draws =~= g.draws);
}

/// Splitting the values drawn over two steps.
pub proof fn lemma_split(d1: Seq<int>, d2: Seq<int>, rest: Seq<int>)
    ensures
        (d1 + d2) + rest == d1 + (d2 + rest),
{
    assert((d1 + d2) + rest =~= d1 + (d2 + rest));
}

impl Or {
    /// Picks the index of the option to build: one of the shortest options
    /// when `shortest` holds and there are any, else one of the options that
    /// can be built.
    pub fn pick_index(&self, rand: &mut Rand, shortest: bool) -> (r: Result<usize, BuildError>)
        ensures
            extends(old(rand).history(), final(rand).history()),
            r matches Ok(c) ==> c < self.choices@.len(),
            forall|g: Gen|
                #[trigger] pick_choice(self@, with_draws(g, drawn(old(rand).history(), final(rand).history()) + g.draws), shortest)
                    == (g, r),
    {
        let ghost h0 = rand.history();
        proof { lemma_view_items(self.choices@); }
        if shortest && self.shortest_options.len() > 0 {
            let k = (rand.next() as usize) % self.shortest_options.len();
            let c = self.shortest_options[k];
            let r = if c < self.choices.len() { Ok(c) } else { Err(BuildError::Malformed) };
            proof {
                let d = rand.history().last();
                lemma_extends_push(h0, d);
                assert forall|g: Gen|
                    #[trigger] pick_choice(self@, with_draws(g, drawn(h0, rand.history()) + g.draws), shortest) == (g, r) by {
                    lemma_one_draw(g, d);
                }
            }
            r
        } else if self.choice_indices.len() == 0 {
            proof {
                lemma_extends_refl(h0);
                assert forall|g: Gen|
                    #[trigger] pick_choice(self@, with_draws(g, drawn(h0, h0) + g.draws), shortest)
                        == (g, Err::<usize, BuildError>(BuildError::Malformed)) by {
                    lemma_no_draw(g);
                }
            }
            Err(BuildError::Malformed)
        } else {
            let k = (rand.next() as usize) % self.choice_indices.len();
            let c = self.choice_indices[k];
            let r = if c < self.choices.len() { Ok(c) } else { Err(BuildError::Malformed) };
            proof {
                let d = rand.history().last();
                lemma_extends_push(h0, d);
                assert forall|g: Gen|
                    #[trigger] pick_choice(self@, with_draws(g, drawn(h0, rand.history()) + g.draws), shortest) == (g, r) by {
                    lemma_one_draw(g, d);
                }
            }
            r
        }
    }

    /// The option to build, picked as `pick_index` says.
    pub fn get_item(&self, rand: &mut Rand, shortest: bool) -> (r: Result<&Item, BuildError>)
        ensures
            extends(old(rand).history(), final(rand).history()),
            pick_choice(self@, draws_only(drawn(old(rand).history(), final(rand).history())), shortest).0 == draws_only(Seq::empty()),
            match pick_choice(self@, draws_only(drawn(old(rand).history(), final(rand).history())), shortest).1 {
                Ok(c) => r matches Ok(it) && it@ == self@.choices[c as int],
                Err(e) => r matches Err(e2) && e2 == e,
            },
    {
        let ghost h0 = rand.history();
        let c = self.pick_index(rand, shortest);
        proof {
            let g = draws_only(Seq::empty());
            assert(with_draws(g, drawn(h0, rand.history()) + g.draws) == draws_only(drawn(h0, rand.history()))) by {
                assert(drawn(h0, rand.history()) + g.draws =~= drawn(h0, rand.history()));
            }
            assert(pick_choice(self@, with_draws(g, drawn(h0, rand.history()) + g.draws), shortest) == (g, c));
            lemma_view_items(self.choices@);
        }
        match c {
            Ok(c) => Ok(&self.choices[c]),
            Err(e) => Err(e),
        }
    }

    /// Builds one of the options, picked as `pick_index` says.
    pub fn build(
        &self,
        builder: &mut ItemBuilder,
        pre_output: &mut Vec<u8>,
        output: &mut Vec<u8>,
        rand: &mut Rand,
        shortest: bool,
    ) -> (r: Result<(), BuildError>)
        requires
            old(builder).wf(),
        ensures
            chooses(self@, shortest, *old(builder), *final(builder), old(pre_output)@, final(pre_output)@, old(output)@, final(output)@, old(rand).history(), final(rand).history(), r),
        decreases old(builder).budget, 1int, self, 0int,
    {
        let ghost b0 = *builder;
        let ghost h0 = rand.history();
        let ghost pre0 = pre_output@;
        let ghost out0 = output@;
        let c = self.pick_index(rand, shortest);
        let ghost h1 = rand.history();
        proof { lemma_view_items(self.choices@); }
        match c {
            Err(e) => {
                proof {
                    assert forall|rest: Seq<int>|
                        #[trigger] choice_spec(self@, b0.state(pre0, out0, drawn(h0, h1) + rest), b0.curr_depth as nat, b0.max_depth as nat, shortest)
                            == (Outcome { state: b0.state(pre0, out0, rest), ok: Err::<(), BuildError>(e) }) by {
                        let g = b0.state(pre0, out0, rest);
                        assert(pick_choice(self@, with_draws(g, drawn(h0, h1) + g.draws), shortest) == (g, Err::<usize, BuildError>(e)));
                    }
                }
                return Err(e);
            },
            Ok(c) => {
                proof {
                    assert(decreases_to!(*self => self.choices));
                    assert(decreases_to!(self.choices@ => self.choices@[c as int]));
                }
                let r = builder.build(&self.choices[c], pre_output, output, rand);
                proof {
                    let h2 = rand.history();
                    lemma_extends_trans(h0, h1, h2);
                    assert forall|rest: Seq<int>|
                        #[trigger] choice_spec(self@, b0.state(pre0, out0, drawn(h0, h2) + rest), b0.curr_depth as nat, b0.max_depth as nat, shortest)
                            == (Outcome { state: builder.state(pre_output@, output@, rest), ok: r }) by {
                        lemma_split(drawn(h0, h1), drawn(h1, h2), rest);
                        let g = b0.state(pre0, out0, drawn(h1, h2) + rest);
                        assert(pick_choice(self@, with_draws(g, drawn(h0, h1) + g.draws), shortest) == (g, Ok::<usize, BuildError>(c)));
                        assert(build_spec(self.choices@[c as int]@, b0.state(pre0, out0, drawn(h1, h2) + rest), b0.curr_depth as nat, b0.max_depth as nat)
                            == (Outcome { state: builder.state(pre_output@, output@, rest), ok: r }));
                    }
                }
                r
            },
        }
    }
}

impl ItemBuilder {
    /// A builder over `rules` that takes the shortest options from
    /// `max_depth` nested references on.
    pub fn new(rules: RuleList, max_depth: usize) -> (r: ItemBuilder)
        ensures
            r.rules == rules,
            r.curr_depth == 0,
            r.max_depth == max_depth,
            r.budget == usize::MAX,
            r.wf(),
    {
        ItemBuilder { rules, curr_depth: 0, max_depth, budget: usize::MAX }
    }

    /// Appends `v` to `output`.
    pub fn direct_build(&self, v: &Vec<u8>, output: &mut Vec<u8>)
        ensures
            final(output)@ == old(output)@ + v@,
    {
        safe_build(v, output);
    }

    /// Builds `item`, writing to `output` and to the front part
    /// `pre_output`, drawing from `rand`.
    pub fn build(&mut self, item: &Item, pre_output: &mut Vec<u8>, output: &mut Vec<u8>, rand: &mut Rand) -> (r: Result<(), BuildError>)
        requires
            old(self).wf(),
        ensures
            builds(item@, *old(self), *final(self), old(pre_output)@, final(pre_output)@, old(output)@, final(output)@, old(rand).history(), final(rand).history(), r),
        decreases old(self).budget, 1int, item, 1int,
    {
        let ghost b0 = *self;
        let ghost pre0 = pre_output@;
        let ghost out0 = output@;
        let ghost h0 = rand.history();
        proof { lemma_extends_refl(h0); }
        match item {
            Item::Direct(v) => {
                self.direct_build(v, output);
                proof {
                    assert forall|rest: Seq<int>|
                        #[trigger] build_spec(item@, b0.state(pre0, out0, drawn(h0, h0) + rest), b0.curr_depth as nat, b0.max_depth as nat)
                            == (Outcome { state: self.state(pre_output@, output@, rest), ok: Ok::<(), BuildError>(()) }) by {
                        assert(drawn(h0, h0) + rest =~= rest);
                    }
                }
                Ok(())
            },
            Item::And(a) => {
                proof { assert(decreases_to!(*item => (*item)->And_0)); }
                a.build(self, pre_output, output, rand)
            },
            Item::Or(o) => {
                let shortest = self.curr_depth >= self.max_depth;
                proof { assert(decreases_to!(*item => (*item)->Or_0)); }
                let r = o.build(self, pre_output, output, rand, shortest);
                proof {
                    let h1 = rand.history();
                    assert forall|rest: Seq<int>|
                        #[trigger] build_spec(item@, b0.state(pre0, out0, drawn(h0, h1) + rest), b0.curr_depth as nat, b0.max_depth as nat)
                            == (Outcome { state: self.state(pre_output@, output@, rest), ok: r }) by {
                        assert(choice_spec(o@, b0.state(pre0, out0, drawn(h0, h1) + rest), b0.curr_depth as nat, b0.max_depth as nat, shortest)
                            == (Outcome { state: self.state(pre_output@, output@, rest), ok: r }));
                    }
                }
                r
            },
            Item::Ref(rf) => self.build_ref(item, rf, pre_output, output, rand),
            Item::Str(st) => st.build(self, pre_output, output, rand),
            Item::Int(it) => it.build(self, pre_output, output, rand),
            Item::Opt(o) => {
                let shortest = self.curr_depth >= self.max_depth;
                proof { assert(decreases_to!(*item => (*item)->Opt_0)); }
                let r = o.build(self, pre_output, output, rand, shortest);
                proof {
                    let h1 = rand.history();
                    assert forall|rest: Seq<int>|
                        #[trigger] build_spec(item@, b0.state(pre0, out0, drawn(h0, h1) + rest), b0.curr_depth as nat, b0.max_depth as nat)
                            == (Outcome { state: self.state(pre_output@, output@, rest), ok: r }) by {
                        assert(opt_spec((*o.item)@, o.has_refs, b0.state(pre0, out0, drawn(h0, h1) + rest), b0.curr_depth as nat, b0.max_depth as nat, shortest)
                            == (Outcome { state: self.state(pre_output@, output@, rest), ok: r }));
                    }
                }
                r
            },
            Item::Mul(m) => {
                proof { assert(decreases_to!(*item => (*item)->Mul_0)); }
                m.build(self, pre_output, output, rand)
            },
            Item::Id(id_item) => self.build_id(id_item, pre_output, output, rand),
            Item::PreId(p) => self.build_pre_id(item, p, pre_output, output, rand),
            Item::PreFlush => {
                pre_output.append(output);
                proof {
                    assert forall|rest: Seq<int>|
                        #[trigger] build_spec(item@, b0.state(pre0, out0, drawn(h0, h0) + rest), b0.curr_depth as nat, b0.max_depth as nat)
                            == (Outcome { state: self.state(pre_output@, output@, rest), ok: Ok::<(), BuildError>(()) }) by {
                        assert(drawn(h0, h0) + rest =~= rest);
                        assert(output@ =~= Seq::<u8>::empty());
                    }
                }
                Ok(())
            },
            Item::Scoped(sc) => self.build_scoped(item, sc, pre_output, output, rand),
        }
    }

    /// Expands a reference one level deeper, counting it against the budget.
    fn build_ref(&mut self, item: &Item, rf: &Ref, pre_output: &mut Vec<u8>, output: &mut Vec<u8>, rand: &mut Rand) -> (r: Result<(), BuildError>)
        requires
            old(self).wf(),
            *item == Item::Ref(*rf),
        ensures
            builds(rf@, *old(self), *final(self), old(pre_output)@, final(pre_output)@, old(output)@, final(output)@, old(rand).history(), final(rand).history(), r),
        decreases old(self).budget, 1int, item, 0int,
    {
        let ghost b0 = *self;
        let ghost pre0 = pre_output@;
        let ghost out0 = output@;
        let ghost h0 = rand.history();
        let shortest = self.curr_depth >= self.max_depth;
        proof { self.lemma_unchanged(rf@, pre0, out0, h0); }
        match rf.ref_idx {
            None => Err(BuildError::Unresolved),
            Some(i) => {
                if self.budget == 0 {
                    return Err(BuildError::Exhausted);
                }
                self.budget = self.budget - 1;
                self.curr_depth = self.curr_depth + 1;
                let ghost bm = *self;
                let r = rf.build(self, pre_output, output, rand, shortest);
                self.curr_depth = self.curr_depth - 1;
                proof {
                    let h1 = rand.history();
                    assert forall|rest: Seq<int>|
                        #[trigger] build_spec(rf@, b0.state(pre0, out0, drawn(h0, h1) + rest), b0.curr_depth as nat, b0.max_depth as nat)
                            == (Outcome { state: self.state(pre_output@, output@, rest), ok: r }) by {
                        let g = b0.state(pre0, out0, drawn(h0, h1) + rest);
                        assert(Gen { budget: (g.budget - 1) as nat, ..g } == bm.state(pre0, out0, drawn(h0, h1) + rest));
                        assert(rule_spec(i, bm.state(pre0, out0, drawn(h0, h1) + rest), bm.curr_depth as nat, bm.max_depth as nat, shortest)
                            == (Outcome { state: self.state(pre_output@, output@, rest), ok: r }));
                    }
                }
                r
            },
        }
    }

    /// Writes a new identifier and adds it as an option of its rule in the
    /// innermost scope.
    fn build_id(&mut self, id_item: &Id, pre_output: &mut Vec<u8>, output: &mut Vec<u8>, rand: &mut Rand) -> (r: Result<(), BuildError>)
        requires
            old(self).wf(),
        ensures
            final(pre_output)@ == old(pre_output)@,
            builds(id_item@, *old(self), *final(self), old(pre_output)@, final(pre_output)@, old(output)@, final(output)@, old(rand).history(), final(rand).history(), r),
    {
        let ghost b0 = *self;
        let ghost pre0 = pre_output@;
        let ghost out0 = output@;
        let ghost h0 = rand.history();
        proof {
            self.rules.lemma_view_len();
            self.lemma_unchanged(id_item@, pre0, out0, h0);
        }
        match id_item.rule_idx {
            None => Err(BuildError::Unresolved),
            Some(i) => {
                if i >= self.rules.rules.len() {
                    return Err(BuildError::Malformed);
                }
                let id = id_item.build(self, output, rand);
                let ghost h1 = rand.history();
                self.add_id(i, id);
                proof {
                    assert forall|rest: Seq<int>|
                        #[trigger] build_spec(id_item@, b0.state(pre0, out0, drawn(h0, h1) + rest), b0.curr_depth as nat, b0.max_depth as nat)
                            == (Outcome { state: self.state(pre0, output@, rest), ok: Ok::<(), BuildError>(()) }) by {
                        let g = b0.state(pre0, out0, rest);
                        assert(with_draws(g, drawn(h0, h1) + g.draws) == b0.state(pre0, out0, drawn(h0, h1) + rest));
                        assert(gen_id(with_draws(g, drawn(h0, h1) + g.draws)) == (g, encode_utf8(id@)));
                    }
                }
                Ok(())
            },
        }
    }

    /// Builds a `PreId` and adds its identifier as an option of its rule in
    /// the innermost scope.
    fn build_pre_id(&mut self, item: &Item, p: &PreId, pre_output: &mut Vec<u8>, output: &mut Vec<u8>, rand: &mut Rand) -> (r: Result<(), BuildError>)
        requires
            old(self).wf(),
            *item == Item::PreId(*p),
        ensures
            builds(p@, *old(self), *final(self), old(pre_output)@, final(pre_output)@, old(output)@, final(output)@, old(rand).history(), final(rand).history(), r),
        decreases old(self).budget, 1int, item, 0int,
    {
        let ghost b0 = *self;
        let ghost pre0 = pre_output@;
        let ghost out0 = output@;
        let ghost h0 = rand.history();
        proof { self.lemma_unchanged(p@, pre0, out0, h0); self.rules.lemma_view_len(); }
        match p.rule_idx {
            None => Err(BuildError::Unresolved),
            Some(i) => {
                if i >= self.rules.rules.len() {
                    return Err(BuildError::Malformed);
                }
                proof { assert(decreases_to!(*item => (*item)->PreId_0)); }
                let res = p.build(self, pre_output, output, rand);
                let ghost h1 = rand.history();
                let ghost b1 = *self;
                proof { self.rules.lemma_view_len(); b0.rules.lemma_view_len(); }
                match res {
                    Err(e) => {
                        proof {
                            assert forall|rest: Seq<int>|
                                #[trigger] build_spec(p@, b0.state(pre0, out0, drawn(h0, h1) + rest), b0.curr_depth as nat, b0.max_depth as nat)
                                    == (Outcome { state: self.state(pre_output@, output@, rest), ok: Err::<(), BuildError>(e) }) by {
                                let g = b0.state(pre0, out0, drawn(h0, h1) + rest);
                                assert(preid_matches(preid_spec(p.sep@, view_items(p.items@), p.id_indices@, g, b0.curr_depth as nat, b0.max_depth as nat),
                                    self.state(pre_output@, output@, rest), Err::<String, BuildError>(e)));
                            }
                        }
                        Err(e)
                    },
                    Ok(id) => {
                        let ghost pre1 = pre_output@;
                        let ghost out1 = output@;
                        proof {
                            assert(self.rules.rules@.len() == self.rules@[0].len());
                            assert(self.rules@[0].len() == b0.rules@[0].len());
                        }
                        self.add_id(i, id);
                        proof {
                            assert forall|rest: Seq<int>|
                                #[trigger] build_spec(p@, b0.state(pre0, out0, drawn(h0, h1) + rest), b0.curr_depth as nat, b0.max_depth as nat)
                                    == (Outcome { state: self.state(pre_output@, output@, rest), ok: Ok::<(), BuildError>(()) }) by {
                                let g = b0.state(pre0, out0, drawn(h0, h1) + rest);
                                assert(preid_matches(preid_spec(p.sep@, view_items(p.items@), p.id_indices@, g, b0.curr_depth as nat, b0.max_depth as nat),
                                    b1.state(pre1, out1, rest), Ok::<String, BuildError>(id)));
                            }
                        }
                        Ok(())
                    },
                }
            },
        }
    }

    /// Builds a `Scoped` item in a new scope, which is dropped afterwards.
    fn build_scoped(&mut self, item: &Item, sc: &Scoped, pre_output: &mut Vec<u8>, output: &mut Vec<u8>, rand: &mut Rand) -> (r: Result<(), BuildError>)
        requires
            old(self).wf(),
            *item == Item::Scoped(*sc),
        ensures
            builds(sc@, *old(self), *final(self), old(pre_output)@, final(pre_output)@, old(output)@, final(output)@, old(rand).history(), final(rand).history(), r),
        decreases old(self).budget, 1int, item, 0int,
    {
        let ghost b0 = *self;
        let ghost pre0 = pre_output@;
        let ghost out0 = output@;
        let ghost h0 = rand.history();
        proof { self.rules.lemma_view_len(); }
        let mut parent = RuleList::new();
        std::mem::swap(&mut parent, &mut self.rules);
        self.rules = RuleList::new_from_parent(Some(parent));
        let ghost bm = *self;
        proof { assert(decreases_to!(*item => (*item)->Scoped_0)); }
        let r = sc.build(self, pre_output, output, rand);
        let ghost h1 = rand.history();
        let ghost bend = *self;
        let mut child = RuleList::new();
        std::mem::swap(&mut child, &mut self.rules);
        proof { child.lemma_view_len(); }
        match child.parent {
            Some(p) => {
                self.rules = *p;
            },
            None => {
                proof { assert(false); }
            },
        }
        proof {
            assert forall|rest: Seq<int>|
                #[trigger] build_spec(sc@, b0.state(pre0, out0, drawn(h0, h1) + rest), b0.curr_depth as nat, b0.max_depth as nat)
                    == (Outcome { state: self.state(pre_output@, output@, rest), ok: r }) by {
                let g = b0.state(pre0, out0, drawn(h0, h1) + rest);
                assert(Gen { scopes: seq![fresh_scope(g.scopes[0].len())] + g.scopes, ..g } == bm.state(pre0, out0, drawn(h0, h1) + rest));
                assert(build_spec((*sc.item)@, bm.state(pre0, out0, drawn(h0, h1) + rest), bm.curr_depth as nat, bm.max_depth as nat)
                    == (Outcome { state: bend.state(pre_output@, output@, rest), ok: r }));
            }
            assert(same_shape(self.rules@, b0.rules@)) by {
                assert(self.rules@ == bend.rules@.drop_first());
                assert forall|j: int| 0 <= j < self.rules@.len() implies #[trigger] self.rules@[j].len() == b0.rules@[j].len() by {
                    assert(self.rules@[j] == bend.rules@[j + 1]);
                    assert(bm.rules@[j + 1] == b0.rules@[j]);
                }
            }
        }
        r
    }

    /// The builder unchanged and nothing drawn meet the contract of `build`
    /// for an item that fails at once.
    proof fn lemma_unchanged(&self, item: SItem, pre: Seq<u8>, out: Seq<u8>, h: Seq<int>)
        ensures
            frame(*self, *self, h, h),
            forall|rest: Seq<int>| #[trigger] self.state(pre, out, drawn(h, h) + rest) == self.state(pre, out, rest),
    {
        lemma_extends_refl(h);
        assert forall|rest: Seq<int>| #[trigger] self.state(pre, out, drawn(h, h) + rest) == self.state(pre, out, rest) by {
            assert(drawn(h, h) + rest =~= rest);
        }
    }

    /// Adds `id` as an option of rule `i` of the innermost scope.
    fn add_id(&mut self, i: usize, id: String)
        requires
            i < old(self).rules.rules@.len(),
        ensures
            final(self).rules@ == add_id(old(self).rules@, i, encode_utf8(id@)),
            final(self).curr_depth == old(self).curr_depth,
            final(self).max_depth == old(self).max_depth,
            final(self).budget == old(self).budget,
            same_shape(final(self).rules@, old(self).rules@),
    {
        proof { self.rules.lemma_view_len(); }
        let ghost old_rules = self.rules.rules@;
        let ghost bytes = encode_utf8(id@);
        self.rules.rules[i].add_item(id);
        proof {
            self.rules.lemma_view_len();
            assert(view_ors(self.rules.rules@) =~= view_ors(old_rules).update(i as int, or_add(view_ors(old_rules)[i as int], SItem::Direct(bytes))));
            assert(self.rules@ =~= add_id(old(self).rules@, i, bytes));
        }
    }

    /// Builds rule `rule_idx`, which some scope offers an option for: picks
    /// one of the scopes that do, then builds one of that rule's options.
    pub fn build_rule(
        &mut self,
        rule_idx: usize,
        pre_output: &mut Vec<u8>,
        output: &mut Vec<u8>,
        rand: &mut Rand,
        shortest: bool,
    ) -> (r: Result<(), BuildError>)
        requires
            old(self).wf(),
            has_rule(old(self).rules@, rule_idx),
            rule_options(old(self).rules@, rule_idx).len() > 0,
        ensures
            expands(rule_idx, shortest, *old(self), *final(self), old(pre_output)@, final(pre_output)@, old(output)@, final(output)@, old(rand).history(), final(rand).history(), r),
    {
        self.expand_rule(rule_idx, pre_output, output, rand, shortest)
    }

    /// Expands a reference to rule `rule_idx`: picks one of the scopes that
    /// offer an option for it, then builds one of that rule's options.
    fn expand_rule(
        &mut self,
        rule_idx: usize,
        pre_output: &mut Vec<u8>,
        output: &mut Vec<u8>,
        rand: &mut Rand,
        shortest: bool,
    ) -> (r: Result<(), BuildError>)
        requires
            old(self).wf(),
        ensures
            expands(rule_idx, shortest, *old(self), *final(self), old(pre_output)@, final(pre_output)@, old(output)@, final(output)@, old(rand).history(), final(rand).history(), r),
        decreases old(self).budget, 2int, Item::PreFlush, 0int,
    {
        let ghost b0 = *self;
        let ghost pre0 = pre_output@;
        let ghost out0 = output@;
        let ghost h0 = rand.history();
        proof { self.lemma_unchanged(SItem::PreFlush, pre0, out0, h0); }
        let opts = match self.rules.options_for(rule_idx) {
            None => {
                return Err(BuildError::Malformed);
            },
            Some(v) => v,
        };
        if opts.len() == 0 {
            return Err(BuildError::NoOptions(rule_idx));
        }
        let k = (rand.next() as usize) % opts.len();
        let ghost h1 = rand.history();
        let o: &Or = opts[k];
        let c = o.pick_index(rand, shortest);
        let ghost h2 = rand.history();
        proof {
            lemma_extends_push(h0, h1.last());
            lemma_extends_trans(h0, h1, h2);
        }
        match c {
            Err(e) => {
                proof {
                    assert forall|rest: Seq<int>|
                        #[trigger] rule_spec(rule_idx, b0.state(pre0, out0, drawn(h0, h2) + rest), b0.curr_depth as nat, b0.max_depth as nat, shortest)
                            == (Outcome { state: self.state(pre_output@, output@, rest), ok: Err::<(), BuildError>(e) }) by {
                        let g = b0.state(pre0, out0, rest);
                        lemma_split(drawn(h0, h1), drawn(h1, h2), rest);
                        let g0 = b0.state(pre0, out0, drawn(h0, h2) + rest);
                        lemma_one_draw(b0.state(pre0, out0, drawn(h1, h2) + rest), h1.last());
                        assert(skip_draws(g0, 1) == with_draws(g, drawn(h1, h2) + g.draws));
                        assert(pick_choice(o@, with_draws(g, drawn(h1, h2) + g.draws), shortest) == (g, Err::<usize, BuildError>(e)));
                    }
                }
                return Err(e);
            },
            Ok(c) => {
                let item = clone_item(&o.choices[c]);
                let r = self.build(&item, pre_output, output, rand);
                proof {
                    let h3 = rand.history();
                    lemma_extends_trans(h0, h2, h3);
                    assert forall|rest: Seq<int>|
                        #[trigger] rule_spec(rule_idx, b0.state(pre0, out0, drawn(h0, h3) + rest), b0.curr_depth as nat, b0.max_depth as nat, shortest)
                            == (Outcome { state: self.state(pre_output@, output@, rest), ok: r }) by {
                        let g = b0.state(pre0, out0, drawn(h2, h3) + rest);
                        lemma_split(drawn(h0, h1), drawn(h1, h2), drawn(h2, h3) + rest);
                        lemma_split(drawn(h0, h2), drawn(h2, h3), rest);
                        let g0 = b0.state(pre0, out0, drawn(h0, h3) + rest);
                        lemma_one_draw(b0.state(pre0, out0, drawn(h1, h2) + (drawn(h2, h3) + rest)), h1.last());
                        assert(skip_draws(g0, 1) == with_draws(g, drawn(h1, h2) + g.draws));
                        assert(pick_choice(o@, with_draws(g, drawn(h1, h2) + g.draws), shortest) == (g, Ok::<usize, BuildError>(c)));
                        lemma_view_items(o.choices@);
                        assert(build_spec(item@, g, b0.curr_depth as nat, b0.max_depth as nat) == (Outcome { state: self.state(pre_output@, output@, rest), ok: r }));
                    }
                }
                r
            },
        }
    }
}

impl And {
    /// Builds the items in order, with the separator between each two.
    pub fn build(&self, builder: &mut ItemBuilder, pre_output: &mut Vec<u8>, output: &mut Vec<u8>, rand: &mut Rand) -> (r: Result<(), BuildError>)
        requires
            old(builder).wf(),
        ensures
            builds(self@, *old(builder), *final(builder), old(pre_output)@, final(pre_output)@, old(output)@, final(output)@, old(rand).history(), final(rand).history(), r),
        decreases old(builder).budget, 1int, self, 0int,
    {
        let ghost b0 = *builder;
        let ghost pre0 = pre_output@;
        let ghost out0 = output@;
        let ghost h0 = rand.history();
        let ghost d = b0.curr_depth as nat;
        let ghost m = b0.max_depth as nat;
        let ghost items = view_items(self.items@);
        proof {
            lemma_view_items(self.items@);
            builder.lemma_unchanged(self@, pre0, out0, h0);
            assert forall|rest: Seq<int>|
                #[trigger] build_spec(self@, b0.state(pre0, out0, drawn(h0, h0) + rest), d, m)
                    == and_spec(self.sep@, items, 0, builder.state(pre_output@, output@, rest), d, m) by {
            }
        }
        let mut idx: usize = 0;
        while idx < self.items.len()
            invariant
                idx <= self.items@.len(),
                items == view_items(self.items@),
                items.len() == self.items@.len(),
                forall|j: int| 0 <= j < self.items@.len() ==> #[trigger] items[j] == self.items@[j]@,
                builder.wf(),
                builder.budget <= old(builder).budget,
                b0 == *old(builder),
                pre0 == old(pre_output)@,
                out0 == old(output)@,
                h0 == old(rand).history(),
                d == b0.curr_depth as nat,
                m == b0.max_depth as nat,
                frame(b0, *builder, h0, rand.history()),
                forall|rest: Seq<int>|
                    #[trigger] build_spec(self@, b0.state(pre0, out0, drawn(h0, rand.history()) + rest), d, m)
                        == and_spec(self.sep@, items, idx as nat, builder.state(pre_output@, output@, rest), d, m),
            decreases self.items@.len() - idx,
        {
            let ghost h1 = rand.history();
            let ghost b1 = *builder;
            let ghost pre1 = pre_output@;
            let ghost out1 = output@;
            if self.sep.len() > 0 && idx > 0 {
                builder.direct_build(&self.sep, output);
            }
            let ghost out1s = output@;
            proof {
                assert(decreases_to!(*self => self.items));
                assert(decreases_to!(self.items => self.items@));
                assert(decreases_to!(self.items@ => self.items@[idx as int]));
            }
            let r = builder.build(&self.items[idx], pre_output, output, rand);
            let ghost h2 = rand.history();
            proof {
                lemma_frame_trans(b0, b1, *builder, h0, h1, h2);
                assert forall|rest: Seq<int>|
                    #[trigger] build_spec(self@, b0.state(pre0, out0, drawn(h0, h2) + rest), d, m)
                        == match r {
                            Ok(_) => and_spec(self.sep@, items, (idx + 1) as nat, builder.state(pre_output@, output@, rest), d, m),
                            Err(e) => Outcome { state: builder.state(pre_output@, output@, rest), ok: r },
                        } by {
                    lemma_split(drawn(h0, h1), drawn(h1, h2), rest);
                    let g = b1.state(pre1, out1, drawn(h1, h2) + rest);
                    assert(build_spec(self@, b0.state(pre0, out0, drawn(h0, h1) + (drawn(h1, h2) + rest)), d, m)
                        == and_spec(self.sep@, items, idx as nat, g, d, m));
                    let g0 = if self.sep@.len() > 0 && idx > 0 { write(g, self.sep@) } else { g };
                    assert(g0 == b1.state(pre1, out1s, drawn(h1, h2) + rest));
                    assert(build_spec(items[idx as int], g0, d, m)
                        == (Outcome { state: builder.state(pre_output@, output@, rest), ok: r }));
                }
            }
            match r {
                Err(e) => {
                    proof {
                        assert forall|rest: Seq<int>|
                            #[trigger] build_spec(self@, b0.state(pre0, out0, drawn(h0, h2) + rest), b0.curr_depth as nat, b0.max_depth as nat)
                                == (Outcome { state: builder.state(pre_output@, output@, rest), ok: Err::<(), BuildError>(e) }) by {
                            assert(build_spec(self@, b0.state(pre0, out0, drawn(h0, h2) + rest), d, m)
                                == (Outcome { state: builder.state(pre_output@, output@, rest), ok: r }));
                        }
                        assert(frame(b0, *builder, h0, h2));
                    }
                    return Err(e);
                },
                Ok(()) => {},
            }
            idx += 1;
        }
        proof {
            assert forall|rest: Seq<int>|
                #[trigger] build_spec(self@, b0.state(pre0, out0, drawn(h0, rand.history()) + rest), d, m)
                    == (Outcome { state: builder.state(pre_output@, output@, rest), ok: Ok::<(), BuildError>(()) }) by {
                assert(and_spec(self.sep@, items, idx as nat, builder.state(pre_output@, output@, rest), d, m)
                    == done(builder.state(pre_output@, output@, rest)));
            }
        }
        Ok(())
    }
}

impl Ref {
    /// Expands the reference through the builder, whose depth and budget
    /// its caller has already adjusted.
    pub fn build(
        &self,
        builder: &mut ItemBuilder,
        pre_output: &mut Vec<u8>,
        output: &mut Vec<u8>,
        rand: &mut Rand,
        shortest: bool,
    ) -> (r: Result<(), BuildError>)
        requires
            old(builder).wf(),
        ensures
            match self.ref_idx {
                None => r == Err::<(), BuildError>(BuildError::Unresolved) && *final(builder) == *old(builder)
                    && final(pre_output)@ == old(pre_output)@ && final(output)@ == old(output)@
                    && final(rand).history() == old(rand).history(),
                Some(i) => expands(i, shortest, *old(builder), *final(builder), old(pre_output)@, final(pre_output)@, old(output)@, final(output)@, old(rand).history(), final(rand).history(), r),
            },
        decreases old(builder).budget, 3int, self, 0int,
    {
        match self.ref_idx {
            None => Err(BuildError::Unresolved),
            Some(i) => builder.expand_rule(i, pre_output, output, rand, shortest),
        }
    }
}

impl Str {
    /// Writes a random string of this item's length range over its charset.
    pub fn build(&self, builder: &ItemBuilder, _pre_output: &mut Vec<u8>, output: &mut Vec<u8>, rand: &mut Rand) -> (r: Result<(), BuildError>)
        ensures
            final(_pre_output)@ == old(_pre_output)@,
            builds(self@, *builder, *builder, old(_pre_output)@, final(_pre_output)@, old(output)@, final(output)@, old(rand).history(), final(rand).history(), r),
    {
        let ghost h0 = rand.history();
        let ghost pre0 = _pre_output@;
        let ghost out0 = output@;
        proof { builder.lemma_unchanged(self@, pre0, out0, h0); }
        let d = rand.next();
        let rem = if self.diff == usize::MAX { d as usize } else { (d as usize) % (self.diff + 1) };
        let ghost h1 = rand.history();
        proof { lemma_extends_push(h0, h1.last()); lemma_extends_refl(h1); }
        if rem > usize::MAX - self.min {
            proof {
                assert forall|rest: Seq<int>|
                    #[trigger] build_spec(self@, builder.state(pre0, out0, drawn(h0, h1) + rest), builder.curr_depth as nat, builder.max_depth as nat)
                        == (Outcome { state: builder.state(pre0, out0, rest), ok: Err::<(), BuildError>(BuildError::Malformed) }) by {
                    lemma_one_draw(builder.state(pre0, out0, rest), h1.last());
                }
            }
            return Err(BuildError::Malformed);
        }
        let len = rem + self.min;
        if len > 0 && self.charset.len() == 0 {
            proof {
                assert forall|rest: Seq<int>|
                    #[trigger] build_spec(self@, builder.state(pre0, out0, drawn(h0, h1) + rest), builder.curr_depth as nat, builder.max_depth as nat)
                        == (Outcome { state: builder.state(pre0, out0, rest), ok: Err::<(), BuildError>(BuildError::Malformed) }) by {
                    lemma_one_draw(builder.state(pre0, out0, rest), h1.last());
                }
            }
            return Err(BuildError::Malformed);
        }
        let mut res: Vec<u8> = Vec::new();
        let mut idx: usize = 0;
        while idx < len
            invariant
                idx <= len,
                len > 0 ==> self.charset@.len() > 0,
                extends(h1, rand.history()),
                drawn(h1, rand.history()).len() == idx,
                res@.len() == idx,
                forall|j: int| 0 <= j < idx ==> #[trigger] res@[j] == self.charset@[draw_index(drawn(h1, rand.history())[j], self.charset@.len() as usize) as int],
            decreases len - idx,
        {
            let ghost hb = rand.history();
            let k = (rand.next() as usize) % self.charset.len();
            proof {
                lemma_extends_push(hb, rand.history().last());
                lemma_extends_trans(h1, hb, rand.history());
                assert(drawn(h1, rand.history())[idx as int] == rand.history().last());
                assert forall|j: int| 0 <= j < idx implies drawn(h1, rand.history())[j] == drawn(h1, hb)[j] by {}
            }
            res.push(self.charset[k]);
            idx += 1;
        }
        builder.direct_build(&res, output);
        proof {
            let h2 = rand.history();
            lemma_extends_trans(h0, h1, h2);
            assert forall|rest: Seq<int>|
                #[trigger] build_spec(self@, builder.state(pre0, out0, drawn(h0, h2) + rest), builder.curr_depth as nat, builder.max_depth as nat)
                    == (Outcome { state: builder.state(pre0, output@, rest), ok: Ok::<(), BuildError>(()) }) by {
                let g1 = builder.state(pre0, out0, drawn(h1, h2) + rest);
                lemma_split(drawn(h0, h1), drawn(h1, h2), rest);
                lemma_one_draw(g1, h1.last());
                assert(skip_draws(g1, len as nat).draws =~= rest);
                assert(pick_bytes(g1, len as nat, self.charset@) =~= res@);
            }
        }
        Ok(())
    }
}

impl Int {
    /// Writes a random integer of this item's range in decimal.
    pub fn build(&self, builder: &ItemBuilder, _pre_output: &mut Vec<u8>, output: &mut Vec<u8>, rand: &mut Rand) -> (r: Result<(), BuildError>)
        ensures
            final(_pre_output)@ == old(_pre_output)@,
            builds(self@, *builder, *builder, old(_pre_output)@, final(_pre_output)@, old(output)@, final(output)@, old(rand).history(), final(rand).history(), r),
            r is Ok <==> self.min < self.max,
            r is Ok ==> exists|v: i64| #![auto] self.min <= v < self.max
                && drawn(old(rand).history(), final(rand).history()) == seq![v as int]
                && final(output)@ == old(output)@ + signed_decimal(v as int),
    {
        let ghost h0 = rand.history();
        let ghost pre0 = _pre_output@;
        let ghost out0 = output@;
        proof { builder.lemma_unchanged(self@, pre0, out0, h0); }
        if self.min >= self.max {
            return Err(BuildError::Malformed);
        }
        let val = rand.rand_i64(self.min, self.max);
        let text = i64_decimal(val);
        builder.direct_build(&text, output);
        proof {
            let h1 = rand.history();
            lemma_extends_push(h0, val as int);
            assert(drawn(h0, h1) == seq![val as int]);
            assert forall|rest: Seq<int>|
                #[trigger] build_spec(self@, builder.state(pre0, out0, drawn(h0, h1) + rest), builder.curr_depth as nat, builder.max_depth as nat)
                    == (Outcome { state: builder.state(pre0, output@, rest), ok: Ok::<(), BuildError>(()) }) by {
                lemma_one_draw(builder.state(pre0, out0, rest), val as int);
            }
        }
        Ok(())
    }
}

impl Opt {
    /// Builds the item or leaves it out.
    pub fn build(
        &self,
        builder: &mut ItemBuilder,
        pre_output: &mut Vec<u8>,
        output: &mut Vec<u8>,
        rand: &mut Rand,
        shortest: bool,
    ) -> (r: Result<(), BuildError>)
        requires
            old(builder).wf(),
        ensures
            opt_builds((*self.item)@, self.has_refs, shortest, *old(builder), *final(builder), old(pre_output)@, final(pre_output)@, old(output)@, final(output)@, old(rand).history(), final(rand).history(), r),
        decreases old(builder).budget, 1int, self, 0int,
    {
        let ghost b0 = *builder;
        let ghost pre0 = pre_output@;
        let ghost out0 = output@;
        let ghost h0 = rand.history();
        proof { builder.lemma_unchanged(SItem::PreFlush, pre0, out0, h0); }
        if shortest && self.has_refs {
            return Ok(());
        }
        let v = rand.rand_u64(0, 2);
        let ghost h1 = rand.history();
        proof { lemma_extends_push(h0, v as int); lemma_extends_refl(h1); }
        if v == 0 {
            proof {
                assert forall|rest: Seq<int>|
                    #[trigger] opt_spec((*self.item)@, self.has_refs, b0.state(pre0, out0, drawn(h0, h1) + rest), b0.curr_depth as nat, b0.max_depth as nat, shortest)
                        == (Outcome { state: b0.state(pre0, out0, rest), ok: Ok::<(), BuildError>(()) }) by {
                    lemma_one_draw(b0.state(pre0, out0, rest), v as int);
                }
            }
            return Ok(());
        }
        proof { assert(decreases_to!(*self => *self.item)); }
        let r = builder.build(&self.item, pre_output, output, rand);
        proof {
            let h2 = rand.history();
            lemma_extends_trans(h0, h1, h2);
            assert forall|rest: Seq<int>|
                #[trigger] opt_spec((*self.item)@, self.has_refs, b0.state(pre0, out0, drawn(h0, h2) + rest), b0.curr_depth as nat, b0.max_depth as nat, shortest)
                    == (Outcome { state: builder.state(pre_output@, output@, rest), ok: r }) by {
                lemma_split(drawn(h0, h1), drawn(h1, h2), rest);
                let g = b0.state(pre0, out0, drawn(h1, h2) + rest);
                lemma_one_draw(g, v as int);
                assert(b0.state(pre0, out0, drawn(h0, h2) + rest) == with_draws(g, seq![v as int] + g.draws));
                assert(skip_draws(b0.state(pre0, out0, drawn(h0, h2) + rest), 1) == g);
                assert(draw_at(b0.state(pre0, out0, drawn(h0, h2) + rest), 0) == v as int);
                assert(build_spec((*self.item)@, g, b0.curr_depth as nat, b0.max_depth as nat)
                    == (Outcome { state: builder.state(pre_output@, output@, rest), ok: r }));
            }
        }
        r
    }
}

impl Mul {
    /// Builds the item a random number of times.
    pub fn build(&self, builder: &mut ItemBuilder, pre_output: &mut Vec<u8>, output: &mut Vec<u8>, rand: &mut Rand) -> (r: Result<(), BuildError>)
        requires
            old(builder).wf(),
        ensures
            builds(self@, *old(builder), *final(builder), old(pre_output)@, final(pre_output)@, old(output)@, final(output)@, old(rand).history(), final(rand).history(), r),
            self.max > self.min ==> drawn(old(rand).history(), final(rand).history()).len() > 0
                && self.min <= drawn(old(rand).history(), final(rand).history())[0] < self.max,
        decreases old(builder).budget, 1int, self, 0int,
    {
        let ghost b0 = *builder;
        let ghost pre0 = pre_output@;
        let ghost out0 = output@;
        let ghost h0 = rand.history();
        let ghost inner = (*self.item)@;
        let num_times = if self.max > self.min {
            rand.rand_usize(self.min, self.max)
        } else {
            self.min
        };
        proof {
            builder.lemma_unchanged(self@, pre0, out0, h0);
            let h1 = rand.history();
            if self.max > self.min {
                lemma_extends_push(h0, num_times as int);
            }
            assert forall|rest: Seq<int>|
                #[trigger] build_spec(self@, b0.state(pre0, out0, drawn(h0, h1) + rest), b0.curr_depth as nat, b0.max_depth as nat)
                    == repeat_spec(inner, num_times as nat, b0.state(pre0, out0, rest), b0.curr_depth as nat, b0.max_depth as nat) by {
                if self.max > self.min {
                    lemma_one_draw(b0.state(pre0, out0, rest), num_times as int);
                }
            }
        }
        let mut i: usize = 0;
        while i < num_times
            invariant
                i <= num_times,
                inner == (*self.item)@,
                self.max > self.min ==> drawn(h0, rand.history()).len() > 0
                    && drawn(h0, rand.history())[0] == num_times as int
                    && self.min <= num_times < self.max,
                builder.wf(),
                builder.budget <= old(builder).budget,
                b0 == *old(builder),
                pre0 == old(pre_output)@,
                out0 == old(output)@,
                h0 == old(rand).history(),
                frame(b0, *builder, h0, rand.history()),
                forall|rest: Seq<int>|
                    #[trigger] build_spec(self@, b0.state(pre0, out0, drawn(h0, rand.history()) + rest), b0.curr_depth as nat, b0.max_depth as nat)
                        == repeat_spec(inner, (num_times - i) as nat, builder.state(pre_output@, output@, rest), b0.curr_depth as nat, b0.max_depth as nat),
            decreases num_times - i,
        {
            let ghost h1 = rand.history();
            let ghost b1 = *builder;
            let ghost pre1 = pre_output@;
            let ghost out1 = output@;
            proof { assert(decreases_to!(*self => *self.item)); }
            let r = builder.build(&self.item, pre_output, output, rand);
            proof {
                let h2 = rand.history();
                lemma_extends_trans(h0, h1, h2);
                if self.max > self.min {
                    assert(drawn(h0, h2)[0] == drawn(h0, h1)[0]);
                }
                assert forall|rest: Seq<int>|
                    #[trigger] build_spec(self@, b0.state(pre0, out0, drawn(h0, h2) + rest), b0.curr_depth as nat, b0.max_depth as nat)
                        == match r {
                            Ok(_) => repeat_spec(inner, (num_times - i - 1) as nat, builder.state(pre_output@, output@, rest), b0.curr_depth as nat, b0.max_depth as nat),
                            Err(e) => Outcome { state: builder.state(pre_output@, output@, rest), ok: r },
                        } by {
                    lemma_split(drawn(h0, h1), drawn(h1, h2), rest);
                    assert(build_spec(self@, b0.state(pre0, out0, drawn(h0, h1) + (drawn(h1, h2) + rest)), b0.curr_depth as nat, b0.max_depth as nat)
                        == repeat_spec(inner, (num_times - i) as nat, b1.state(pre1, out1, drawn(h1, h2) + rest), b0.curr_depth as nat, b0.max_depth as nat));
                    assert(build_spec(inner, b1.state(pre1, out1, drawn(h1, h2) + rest), b0.curr_depth as nat, b0.max_depth as nat)
                        == (Outcome { state: builder.state(pre_output@, output@, rest), ok: r }));
                }
            }
            match r {
                Err(e) => {
                    return Err(e);
                },
                Ok(()) => {},
            }
            i += 1;
        }
        Ok(())
    }
}

impl Id {
    /// Writes a new identifier and returns it.
    pub fn build(&self, builder: &ItemBuilder, output: &mut Vec<u8>, rand: &mut Rand) -> (r: String)
        ensures
            final(output)@ == old(output)@ + encode_utf8(r@),
            extends(old(rand).history(), final(rand).history()),
            forall|g: Gen| #[trigger] gen_id(with_draws(g, drawn(old(rand).history(), final(rand).history()) + g.draws)) == (g, encode_utf8(r@)),
    {
        let res = new_id(rand);
        builder.direct_build(&res, output);
        proof { lemma_ascii_valid(res@); }
        bytes_to_string(res)
    }
}

/// The outcome `pr` of a `PreId` matches the final `state` and the result
/// `r`, which holds the identifier on success.
pub open spec fn preid_matches(pr: (Outcome, Seq<u8>), state: Gen, r: Result<String, BuildError>) -> bool {
    &&& pr.0.state == state
    &&& match r {
        Ok(id) => pr.0.ok == Ok::<(), BuildError>(()) && pr.1 == encode_utf8(id@),
        Err(e) => pr.0.ok == Err::<(), BuildError>(e),
    }
}

/// What `preid_spec` gives once the identifier is known.
proof fn lemma_preid_unfold(
    sep: Seq<u8>,
    items: Seq<SItem>,
    ids: Seq<usize>,
    g: Gen,
    id: Seq<u8>,
    did: Seq<int>,
    d: nat,
    m: nat,
)
    requires
        gen_id(with_draws(g, did + g.draws)) == (g, id),
    ensures
        ({
            let (o, ro) = pre_spec(sep, items, ids, id, 0, Gen { out: Seq::empty(), ..g }, g.out, d, m);
            preid_spec(sep, items, ids, with_draws(g, did + g.draws), d, m) == match o.ok {
                Err(e) => (fail(Gen { out: ro, ..o.state }, e), id),
                Ok(_) => (done(Gen { pre: o.state.pre + o.state.out, out: ro + id, ..o.state }), id),
            }
        }),
{
}

impl PreId {
    /// Writes a new identifier, and its definition to the front part.
    pub fn build(&self, builder: &mut ItemBuilder, pre_output: &mut Vec<u8>, output: &mut Vec<u8>, rand: &mut Rand) -> (r: Result<String, BuildError>)
        requires
            old(builder).wf(),
        ensures
            frame(*old(builder), *final(builder), old(rand).history(), final(rand).history()),
            forall|rest: Seq<int>|
                preid_matches(
                    #[trigger] preid_spec(self.sep@, view_items(self.items@), self.id_indices@,
                        old(builder).state(old(pre_output)@, old(output)@, drawn(old(rand).history(), final(rand).history()) + rest),
                        old(builder).curr_depth as nat, old(builder).max_depth as nat),
                    final(builder).state(final(pre_output)@, final(output)@, rest),
                    r,
                ),
        decreases old(builder).budget, 1int, self, 0int,
    {
        let ghost b0 = *builder;
        let ghost pre0 = pre_output@;
        let ghost out0 = output@;
        let ghost h0 = rand.history();
        let ghost d = b0.curr_depth as nat;
        let ghost m = b0.max_depth as nat;
        let res = new_id(rand);
        let ghost ha = rand.history();
        let mut tmp: Vec<u8> = Vec::new();
        let ghost items = view_items(self.items@);
        proof {
            lemma_view_items(self.items@);
            builder.lemma_unchanged(SItem::PreFlush, pre0, Seq::empty(), ha);
            assert forall|rest: Seq<int>|
                #[trigger] pre_spec(self.sep@, items, self.id_indices@, res@, 0, b0.state(pre0, Seq::empty(), drawn(ha, ha) + rest), out0, d, m)
                    == pre_spec(self.sep@, items, self.id_indices@, res@, 0, builder.state(pre_output@, tmp@, rest), output@, d, m) by {
                assert(tmp@ =~= Seq::<u8>::empty());
            }
        }
        let mut idx: usize = 0;
        while idx < self.items.len()
            invariant
                idx <= self.items@.len(),
                items == view_items(self.items@),
                items.len() == self.items@.len(),
                forall|j: int| 0 <= j < self.items@.len() ==> #[trigger] items[j] == self.items@[j]@,
                builder.wf(),
                builder.budget <= old(builder).budget,
                b0 == *old(builder),
                pre0 == old(pre_output)@,
                out0 == old(output)@,
                h0 == old(rand).history(),
                extends(h0, ha),
                forall|g: Gen| #[trigger] gen_id(with_draws(g, drawn(h0, ha) + g.draws)) == (g, res@),
                frame(b0, *builder, ha, rand.history()),
                d == b0.curr_depth as nat,
                m == b0.max_depth as nat,
                forall|rest: Seq<int>|
                    #[trigger] pre_spec(self.sep@, items, self.id_indices@, res@, 0, b0.state(pre0, Seq::empty(), drawn(ha, rand.history()) + rest), out0, d, m)
                        == pre_spec(self.sep@, items, self.id_indices@, res@, idx as nat, builder.state(pre_output@, tmp@, rest), output@, d, m),
            decreases self.items@.len() - idx,
        {
            let ghost h1 = rand.history();
            let ghost b1 = *builder;
            let ghost pre1 = pre_output@;
            let ghost tmp1 = tmp@;
            let ghost out1 = output@;
            if self.sep.len() > 0 && idx > 0 {
                builder.direct_build(&self.sep, output);
            }
            if contains_index(&self.id_indices, idx) {
                builder.direct_build(&res, &mut tmp);
                proof {
                    lemma_extends_refl(h1);
                    assert forall|rest: Seq<int>|
                        #[trigger] pre_spec(self.sep@, items, self.id_indices@, res@, 0, b0.state(pre0, Seq::empty(), drawn(ha, h1) + rest), out0, d, m)
                            == pre_spec(self.sep@, items, self.id_indices@, res@, (idx + 1) as nat, builder.state(pre_output@, tmp@, rest), output@, d, m) by {
                        assert(pre_spec(self.sep@, items, self.id_indices@, res@, idx as nat, b1.state(pre1, tmp1, rest), out1, d, m)
                            == pre_spec(self.sep@, items, self.id_indices@, res@, (idx + 1) as nat, builder.state(pre_output@, tmp@, rest), output@, d, m));
                    }
                }
            } else {
                proof {
                    assert(decreases_to!(*self => self.items));
                    assert(decreases_to!(self.items@ => self.items@[idx as int]));
                }
                let r = builder.build(&self.items[idx], pre_output, &mut tmp, rand);
                let ghost h2 = rand.history();
                proof {
                    lemma_extends_trans(ha, h1, h2);
                    assert forall|rest: Seq<int>|
                        #[trigger] pre_spec(self.sep@, items, self.id_indices@, res@, 0, b0.state(pre0, Seq::empty(), drawn(ha, h2) + rest), out0, d, m)
                            == match r {
                                Ok(_) => pre_spec(self.sep@, items, self.id_indices@, res@, (idx + 1) as nat, builder.state(pre_output@, tmp@, rest), output@, d, m),
                                Err(e) => (Outcome { state: builder.state(pre_output@, tmp@, rest), ok: r }, output@),
                            } by {
                        lemma_split(drawn(ha, h1), drawn(h1, h2), rest);
                        assert(pre_spec(self.sep@, items, self.id_indices@, res@, 0, b0.state(pre0, Seq::empty(), drawn(ha, h1) + (drawn(h1, h2) + rest)), out0, d, m)
                            == pre_spec(self.sep@, items, self.id_indices@, res@, idx as nat, b1.state(pre1, tmp1, drawn(h1, h2) + rest), out1, d, m));
                        assert(build_spec(items[idx as int], b1.state(pre1, tmp1, drawn(h1, h2) + rest), d, m)
                            == (Outcome { state: builder.state(pre_output@, tmp@, rest), ok: r }));
                    }
                }
                match r {
                    Err(e) => {
                        proof {
                            lemma_extends_trans(h0, ha, h2);
                            assert forall|rest: Seq<int>|
                                preid_matches(
                                    #[trigger] preid_spec(self.sep@, items, self.id_indices@, b0.state(pre0, out0, drawn(h0, h2) + rest), d, m),
                                    builder.state(pre_output@, output@, rest),
                                    Err::<String, BuildError>(e),
                                ) by {
                                lemma_split(drawn(h0, ha), drawn(ha, h2), rest);
                                let g = b0.state(pre0, out0, drawn(ha, h2) + rest);
                                assert(with_draws(g, drawn(h0, ha) + g.draws) == b0.state(pre0, out0, drawn(h0, h2) + rest));
                                assert(gen_id(with_draws(g, drawn(h0, ha) + g.draws)) == (g, res@));
                                lemma_preid_unfold(self.sep@, items, self.id_indices@, g, res@, drawn(h0, ha), d, m);
                                assert(Gen { out: Seq::empty(), ..g } == b0.state(pre0, Seq::empty(), drawn(ha, h2) + rest));
                                assert(pre_spec(self.sep@, items, self.id_indices@, res@, 0, b0.state(pre0, Seq::empty(), drawn(ha, h2) + rest), out0, d, m)
                                    == (Outcome { state: builder.state(pre_output@, tmp@, rest), ok: Err::<(), BuildError>(e) }, output@));
                            }
                        }
                        return Err(e);
                    },
                    Ok(()) => {},
                }
            }
            idx += 1;
        }
        let ghost pre2 = pre_output@;
        let ghost tmp2 = tmp@;
        let ghost out2 = output@;
        pre_output.append(&mut tmp);
        builder.direct_build(&res, output);
        proof { lemma_ascii_valid(res@); }
        let ghost res_bytes = res@;
        let id = bytes_to_string(res);
        proof {
            let h2 = rand.history();
            lemma_extends_trans(h0, ha, h2);
            assert(encode_utf8(id@) == res_bytes);
            assert forall|rest: Seq<int>|
                preid_matches(
                    #[trigger] preid_spec(self.sep@, items, self.id_indices@, b0.state(pre0, out0, drawn(h0, h2) + rest), d, m),
                    builder.state(pre_output@, output@, rest),
                    Ok::<String, BuildError>(id),
                ) by {
                lemma_split(drawn(h0, ha), drawn(ha, h2), rest);
                let g = b0.state(pre0, out0, drawn(ha, h2) + rest);
                assert(with_draws(g, drawn(h0, ha) + g.draws) == b0.state(pre0, out0, drawn(h0, h2) + rest));
                assert(gen_id(with_draws(g, drawn(h0, ha) + g.draws)) == (g, res@));
                lemma_preid_unfold(self.sep@, items, self.id_indices@, g, res@, drawn(h0, ha), d, m);
                assert(Gen { out: Seq::empty(), ..g } == b0.state(pre0, Seq::empty(), drawn(ha, h2) + rest));
                assert(pre_spec(self.sep@, items, self.id_indices@, res@, 0, b0.state(pre0, Seq::empty(), drawn(ha, h2) + rest), out0, d, m)
                    == (done(builder.state(pre2, tmp2, rest)), out2)) by {
                    assert(pre_spec(self.sep@, items, self.id_indices@, res@, idx as nat, builder.state(pre2, tmp2, rest), out2, d, m)
                        == (done(builder.state(pre2, tmp2, rest)), out2));
                }
                assert(builder.state(pre_output@, output@, rest) == Gen { pre: pre2 + tmp2, out: out2 + res_bytes, ..builder.state(pre2, tmp2, rest) });
            }
        }
        Ok(id)
    }
}

impl Scoped {
    /// Builds the item (in the scope that the builder has opened for it).
    pub fn build(&self, builder: &mut ItemBuilder, pre_output: &mut Vec<u8>, output: &mut Vec<u8>, rand: &mut Rand) -> (r: Result<(), BuildError>)
        requires
            old(builder).wf(),
        ensures
            builds((*self.item)@, *old(builder), *final(builder), old(pre_output)@, final(pre_output)@, old(output)@, final(output)@, old(rand).history(), final(rand).history(), r),
        decreases old(builder).budget, 1int, self, 0int,
    {
        proof { assert(decreases_to!(*self => *self.item)); }
        builder.build(&self.item, pre_output, output, rand)
    }
}

} // verus!
