//! The items a grammar is made of, their mathematical model, and how each
//! item is put together.
use vstd::prelude::*;
use crate::text::{decimal, signed_decimal, u64_decimal, i64_decimal};
use vstd::utf8::encode_utf8;

verus! {

/// The marker that a `PreId` item places where its generated identifier
/// goes.
pub const PRE_ID: &'static str = "%PREID";

/// The bytes of [`PRE_ID`]: `%PREID`.
pub open spec fn pre_id_marker() -> Seq<u8> {
    seq![37u8, 80u8, 82u8, 69u8, 73u8, 68u8]
}

/// The bytes of the identifier marker.
pub fn pre_id_bytes() -> (r: Vec<u8>)
    ensures
        r@ == pre_id_marker(),
{
    let r: Vec<u8> = vec![37u8, 80u8, 82u8, 69u8, 73u8, 68u8];
    assert(r@ =~= pre_id_marker());
    r
}

// ----------------------------------------------------------------------------
// The model
// ----------------------------------------------------------------------------

/// The mathematical value of an [`Item`].
#[allow(inconsistent_fields)]
pub enum SItem {
    Direct(Seq<u8>),
    And { sep: Seq<u8>, items: Seq<SItem> },
    Or(SOr),
    Ref { name: Seq<char>, idx: Option<usize> },
    Str { min: usize, max: usize, diff: usize, charset: Seq<u8> },
    Int { min: i64, max: i64 },
    Opt { inner: Box<SItem>, has_refs: bool },
    Mul { inner: Box<SItem>, min: usize, max: usize },
    Id { name: Seq<char>, idx: Option<usize> },
    PreId { name: Seq<char>, idx: Option<usize>, sep: Seq<u8>, items: Seq<SItem>, ids: Seq<usize> },
    PreFlush,
    Scoped { inner: Box<SItem> },
}

/// The mathematical value of an [`Or`]: its choices, the indices of the
/// choices that take the fewest references, the indices of the choices that
/// can be built, and whether the rule it stands for is kept when it has no
/// choice left.
pub struct SOr {
    pub choices: Seq<SItem>,
    pub shortest: Seq<usize>,
    pub indices: Seq<usize>,
    pub keep: bool,
}

/// An `Or` with no choice at all.
pub open spec fn empty_or(keep: bool) -> SOr {
    SOr { choices: Seq::empty(), shortest: Seq::empty(), indices: Seq::empty(), keep }
}

/// `o` with `item` added as a further choice that can be built.
pub open spec fn or_add(o: SOr, item: SItem) -> SOr {
    SOr {
        choices: o.choices.push(item),
        shortest: o.shortest,
        indices: o.indices.push(o.choices.len() as usize),
        keep: o.keep,
    }
}

// ----------------------------------------------------------------------------
// The items
// ----------------------------------------------------------------------------

/// Holds the values that the resulting data is built from.
pub enum Item {
    Direct(Vec<u8>),
    And(And),
    Or(Or),
    Ref(Ref),
    Str(Str),
    Int(Int),
    Opt(Opt),
    Mul(Mul),
    Id(Id),
    PreId(PreId),
    PreFlush,
    Scoped(Scoped),
}

/// A sequence of items, with `sep` between each two of them.
pub struct And {
    pub sep: Vec<u8>,
    pub items: Vec<Item>,
}

/// A choice between items.
pub struct Or {
    pub choices: Vec<Item>,
    pub shortest_options: Vec<usize>,
    pub choice_indices: Vec<usize>,
    pub keep: bool,
}

/// A reference to the rule named `ref_rule`; `ref_idx` is its index once
/// resolved.
pub struct Ref {
    pub ref_rule: String,
    pub ref_idx: Option<usize>,
}

/// A random string of length in `[min, max]` over `charset`.
pub struct Str {
    pub min: usize,
    pub max: usize,
    pub diff: usize,
    pub charset: Vec<u8>,
}

/// A random integer in `[min, max)`, written in decimal.
pub struct Int {
    pub min: i64,
    pub max: i64,
}

/// An item that is built or left out.
pub struct Opt {
    pub item: Box<Item>,
    pub has_refs: bool,
}

/// An item repeated a number of times in `[min, max)` (exactly `min` times
/// when `min == max`).
pub struct Mul {
    pub item: Box<Item>,
    pub min: usize,
    pub max: usize,
}

/// A new random identifier, written out and added as a choice of the rule
/// named `rule_name`.
pub struct Id {
    pub rule_name: String,
    pub rule_idx: Option<usize>,
}

/// A new random identifier whose definition, built from `items` with the
/// identifier in place of each marker, goes to the front part of the output.
pub struct PreId {
    pub rule_name: String,
    pub rule_idx: Option<usize>,
    pub sep: Vec<u8>,
    pub items: Vec<Item>,
    pub id_indices: Vec<usize>,
}

/// An item built in a scope of its own: the identifiers it creates are
/// dropped when it is done.
pub struct Scoped {
    pub item: Box<Item>,
}

/// The model of each item of a sequence.
pub open spec fn view_items(s: Seq<Item>) -> Seq<SItem>
    decreases s,
{
    if s.len() == 0 {
        Seq::empty()
    } else {
        view_items(s.drop_last()).push(s.last().view())
    }
}

pub proof fn lemma_view_items(s: Seq<Item>)
    ensures
        view_items(s).len() == s.len(),
        forall|i: int| 0 <= i < s.len() ==> #[trigger] view_items(s)[i] == s[i]@,
    decreases s.len(),
{
    if s.len() > 0 {
        lemma_view_items(s.drop_last());
        assert(view_items(s) == view_items(s.drop_last()).push(s.last()@));
        assert forall|i: int| 0 <= i < s.len() implies #[trigger] view_items(s)[i] == s[i]@ by {
            if i < s.len() - 1 {
                assert(s.drop_last()[i] == s[i]);
            }
        }
    }
}

/// Two sequences of items with the same models, element by element, have the
/// same model.
pub proof fn lemma_view_items_eq(a: Seq<Item>, b: Seq<Item>)
    requires
        a.len() == b.len(),
        forall|i: int| 0 <= i < a.len() ==> #[trigger] a[i]@ == b[i]@,
    ensures
        view_items(a) == view_items(b),
{
    lemma_view_items(a);
    lemma_view_items(b);
    assert(view_items(a) =~= view_items(b));
}

/// Pushing an item pushes its model.
pub proof fn lemma_view_items_push(s: Seq<Item>, x: Item)
    ensures
        view_items(s.push(x)) == view_items(s).push(x@),
{
    assert(s.push(x).drop_last() =~= s);
}

/// Every sequence of items within `item` has a length that fits in a
/// `usize`, as it does for any item held in memory.
pub open spec fn small(item: SItem) -> bool
    decreases item, 0nat,
{
    match item {
        SItem::And { sep, items } => small_seq(items, items.len()),
        SItem::Or(o) => small_seq(o.choices, o.choices.len()),
        SItem::Opt { inner, has_refs } => small(*inner),
        SItem::Mul { inner, min, max } => small(*inner),
        SItem::Scoped { inner } => small(*inner),
        SItem::PreId { name, idx, sep, items, ids } => small_seq(items, items.len()),
        _ => true,
    }
}

/// The first `k` items of `items` are `small`, and `items` fits.
pub open spec fn small_seq(items: Seq<SItem>, k: nat) -> bool
    decreases items, k,
{
    &&& items.len() <= usize::MAX
    &&& (k == 0 || k > items.len() || (small_seq(items, (k - 1) as nat) && small(items[k - 1])))
}

pub proof fn lemma_small_seq(items: Seq<SItem>, k: nat)
    requires
        small_seq(items, k),
        k <= items.len(),
    ensures
        items.len() <= usize::MAX,
        forall|j: int| 0 <= j < k ==> small(#[trigger] items[j]),
    decreases k,
{
    if k > 0 {
        lemma_small_seq(items, (k - 1) as nat);
        assert(small(items[k - 1]));
    }
}

/// Every item held in memory is `small`.
pub proof fn lemma_item_small(x: Item)
    ensures
        small(x@),
    decreases x, 0nat,
{
    match x {
        Item::And(a) => {
            assert(decreases_to!(x => a.items));
            lemma_items_small(a.items, a.items@.len());
        },
        Item::Or(o) => {
            assert(decreases_to!(x => o.choices));
            lemma_items_small(o.choices, o.choices@.len());
        },
        Item::Opt(o) => {
            lemma_item_small(*o.item);
        },
        Item::Mul(m) => {
            lemma_item_small(*m.item);
        },
        Item::Scoped(sc) => {
            lemma_item_small(*sc.item);
        },
        Item::PreId(p) => {
            assert(decreases_to!(x => p.items));
            lemma_items_small(p.items, p.items@.len());
        },
        _ => {},
    }
}

pub proof fn lemma_items_small(v: Vec<Item>, k: nat)
    requires
        k <= v@.len(),
    ensures
        small_seq(view_items(v@), k),
        view_items(v@).len() == v@.len(),
    decreases v, k,
{
    lemma_view_items(v@);
    assert(v.len() == v@.len());
    if k > 0 {
        lemma_items_small(v, (k - 1) as nat);
        assert(decreases_to!(v => v@));
        assert(decreases_to!(v@ => v@[k - 1]));
        lemma_item_small(v@[k - 1]);
    }
}

impl View for Item {
    type V = SItem;

    open spec fn view(&self) -> SItem
        decreases self,
    {
        match self {
            Item::Direct(v) => SItem::Direct(v@),
            Item::And(a) => a.view(),
            Item::Or(o) => SItem::Or(o.view()),
            Item::Ref(r) => r.view(),
            Item::Str(s) => s.view(),
            Item::Int(i) => i.view(),
            Item::Opt(o) => o.view(),
            Item::Mul(m) => m.view(),
            Item::Id(i) => i.view(),
            Item::PreId(p) => p.view(),
            Item::PreFlush => SItem::PreFlush,
            Item::Scoped(s) => s.view(),
        }
    }
}

impl View for And {
    type V = SItem;

    open spec fn view(&self) -> SItem
        decreases self,
    {
        SItem::And { sep: self.sep@, items: view_items(self.items@) }
    }
}

impl View for Or {
    type V = SOr;

    open spec fn view(&self) -> SOr
        decreases self,
    {
        SOr {
            choices: view_items(self.choices@),
            shortest: self.shortest_options@,
            indices: self.choice_indices@,
            keep: self.keep,
        }
    }
}

impl View for Ref {
    type V = SItem;

    open spec fn view(&self) -> SItem {
        SItem::Ref { name: self.ref_rule@, idx: self.ref_idx }
    }
}

impl View for Str {
    type V = SItem;

    open spec fn view(&self) -> SItem {
        SItem::Str { min: self.min, max: self.max, diff: self.diff, charset: self.charset@ }
    }
}

impl View for Int {
    type V = SItem;

    open spec fn view(&self) -> SItem {
        SItem::Int { min: self.min, max: self.max }
    }
}

impl View for Opt {
    type V = SItem;

    open spec fn view(&self) -> SItem
        decreases self,
    {
        SItem::Opt { inner: Box::new((*self.item).view()), has_refs: self.has_refs }
    }
}

impl View for Mul {
    type V = SItem;

    open spec fn view(&self) -> SItem
        decreases self,
    {
        SItem::Mul { inner: Box::new((*self.item).view()), min: self.min, max: self.max }
    }
}

impl View for Id {
    type V = SItem;

    open spec fn view(&self) -> SItem {
        SItem::Id { name: self.rule_name@, idx: self.rule_idx }
    }
}

impl View for PreId {
    type V = SItem;

    open spec fn view(&self) -> SItem
        decreases self,
    {
        SItem::PreId {
            name: self.rule_name@,
            idx: self.rule_idx,
            sep: self.sep@,
            items: view_items(self.items@),
            ids: self.id_indices@,
        }
    }
}

impl View for Scoped {
    type V = SItem;

    open spec fn view(&self) -> SItem
        decreases self,
    {
        SItem::Scoped { inner: Box::new((*self.item).view()) }
    }
}

// ----------------------------------------------------------------------------
// Copies
// ----------------------------------------------------------------------------

/// A copy of a byte vector.
pub fn copy_bytes(v: &Vec<u8>) -> (r: Vec<u8>)
    ensures
        r@ == v@,
{
    vstd::slice::slice_to_vec(v.as_slice())
}

/// A copy of an index vector.
pub fn copy_indices(v: &Vec<usize>) -> (r: Vec<usize>)
    ensures
        r@ == v@,
{
    vstd::slice::slice_to_vec(v.as_slice())
}

/// A deep copy of an item.
pub fn clone_item(item: &Item) -> (r: Item)
    ensures
        r@ == item@,
    decreases item,
{
    match item {
        Item::Direct(v) => Item::Direct(copy_bytes(v)),
        Item::And(a) => {
            proof { assert(decreases_to!(*item => (*item)->And_0)); }
            Item::And(And { sep: copy_bytes(&a.sep), items: clone_items(&a.items) })
        },
        Item::Or(o) => {
            proof { assert(decreases_to!(*item => (*item)->Or_0)); }
            Item::Or(clone_or(o))
        },
        Item::Ref(r) => Item::Ref(Ref { ref_rule: r.ref_rule.clone(), ref_idx: r.ref_idx }),
        Item::Str(s) => Item::Str(
            Str { min: s.min, max: s.max, diff: s.diff, charset: copy_bytes(&s.charset) },
        ),
        Item::Int(i) => Item::Int(Int { min: i.min, max: i.max }),
        Item::Opt(o) => {
            proof { assert(decreases_to!(*item => (*item)->Opt_0)); }
            Item::Opt(Opt { item: Box::new(clone_item(&o.item)), has_refs: o.has_refs })
        },
        Item::Mul(m) => {
            proof { assert(decreases_to!(*item => (*item)->Mul_0)); }
            Item::Mul(Mul { item: Box::new(clone_item(&m.item)), min: m.min, max: m.max })
        },
        Item::Id(i) => Item::Id(Id { rule_name: i.rule_name.clone(), rule_idx: i.rule_idx }),
        Item::PreId(p) => {
            proof { assert(decreases_to!(*item => (*item)->PreId_0)); }
            Item::PreId(
                PreId {
                    rule_name: p.rule_name.clone(),
                    rule_idx: p.rule_idx,
                    sep: copy_bytes(&p.sep),
                    items: clone_items(&p.items),
                    id_indices: copy_indices(&p.id_indices),
                },
            )
        },
        Item::PreFlush => Item::PreFlush,
        Item::Scoped(s) => {
            proof { assert(decreases_to!(*item => (*item)->Scoped_0)); }
            Item::Scoped(Scoped { item: Box::new(clone_item(&s.item)) })
        },
    }
}

/// A deep copy of a vector of items.
pub fn clone_items(v: &Vec<Item>) -> (r: Vec<Item>)
    ensures
        r@.len() == v@.len(),
        view_items(r@) == view_items(v@),
    decreases v,
{
    let mut items: Vec<Item> = Vec::new();
    let mut i: usize = 0;
    while i < v.len()
        invariant
            i <= v.len(),
            items@.len() == i,
            forall|j: int| 0 <= j < i ==> #[trigger] items@[j]@ == v@[j]@,
        decreases v.len() - i,
    {
        proof {
            assert(decreases_to!(v@ => v@[i as int]));
        }
        let c = clone_item(&v[i]);
        items.push(c);
        i += 1;
    }
    proof {
        lemma_view_items_eq(items@, v@);
    }
    items
}

/// A deep copy of an `Or`.
pub fn clone_or(o: &Or) -> (r: Or)
    ensures
        r@ == o@,
    decreases o,
{
    Or {
        choices: clone_items(&o.choices),
        shortest_options: copy_indices(&o.shortest_options),
        choice_indices: copy_indices(&o.choice_indices),
        keep: o.keep,
    }
}

// ----------------------------------------------------------------------------
// Conversion
// ----------------------------------------------------------------------------

/// Turns the values a grammar is written with into items.
pub trait Convertible: Sized {
    /// The model of the item that this value turns into.
    spec fn converted(&self) -> SItem;

    fn convert(self) -> (r: Item)
        ensures
            r@ == self.converted(),
    ;
}

/// A string becomes the item that writes its UTF-8 bytes.
impl Convertible for String {
    open spec fn converted(&self) -> SItem {
        SItem::Direct(encode_utf8(self@))
    }

    fn convert(self) -> (r: Item) {
        Item::Direct(vstd::slice::slice_to_vec(self.as_str().as_bytes()))
    }
}

/// A string slice becomes the item that writes its UTF-8 bytes.
impl<'a> Convertible for &'a str {
    open spec fn converted(&self) -> SItem {
        SItem::Direct(encode_utf8(self@))
    }

    fn convert(self) -> (r: Item) {
        Item::Direct(vstd::slice::slice_to_vec(self.as_bytes()))
    }
}

/// A byte slice becomes the item that writes those bytes.
impl<'a> Convertible for &'a [u8] {
    open spec fn converted(&self) -> SItem {
        SItem::Direct(self@)
    }

    fn convert(self) -> (r: Item) {
        Item::Direct(vstd::slice::slice_to_vec(self))
    }
}

/// A number becomes the item that writes it in decimal.
impl Convertible for usize {
    open spec fn converted(&self) -> SItem {
        SItem::Direct(decimal(*self as nat))
    }

    fn convert(self) -> (r: Item) {
        Item::Direct(u64_decimal(self as u64))
    }
}

/// A number becomes the item that writes it in decimal.
impl Convertible for i32 {
    open spec fn converted(&self) -> SItem {
        SItem::Direct(signed_decimal(*self as int))
    }

    fn convert(self) -> (r: Item) {
        Item::Direct(i64_decimal(self as i64))
    }
}

impl Convertible for Item {
    open spec fn converted(&self) -> SItem {
        self@
    }

    fn convert(self) -> (r: Item) {
        self
    }
}

impl Convertible for And {
    open spec fn converted(&self) -> SItem {
        self@
    }

    fn convert(self) -> (r: Item) {
        Item::And(self)
    }
}

impl Convertible for Or {
    open spec fn converted(&self) -> SItem {
        SItem::Or(self@)
    }

    fn convert(self) -> (r: Item) {
        Item::Or(self)
    }
}

impl Convertible for Ref {
    open spec fn converted(&self) -> SItem {
        self@
    }

    fn convert(self) -> (r: Item) {
        Item::Ref(self)
    }
}

impl Convertible for Str {
    open spec fn converted(&self) -> SItem {
        self@
    }

    fn convert(self) -> (r: Item) {
        Item::Str(self)
    }
}

impl Convertible for Int {
    open spec fn converted(&self) -> SItem {
        self@
    }

    fn convert(self) -> (r: Item) {
        Item::Int(self)
    }
}

impl Convertible for Opt {
    open spec fn converted(&self) -> SItem {
        self@
    }

    fn convert(self) -> (r: Item) {
        Item::Opt(self)
    }
}

impl Convertible for Mul {
    open spec fn converted(&self) -> SItem {
        self@
    }

    fn convert(self) -> (r: Item) {
        Item::Mul(self)
    }
}

impl Convertible for Id {
    open spec fn converted(&self) -> SItem {
        self@
    }

    fn convert(self) -> (r: Item) {
        Item::Id(self)
    }
}

impl Convertible for PreId {
    open spec fn converted(&self) -> SItem {
        self@
    }

    fn convert(self) -> (r: Item) {
        Item::PreId(self)
    }
}

impl Convertible for Scoped {
    open spec fn converted(&self) -> SItem {
        self@
    }

    fn convert(self) -> (r: Item) {
        Item::Scoped(self)
    }
}

/// The bytes of a `Direct` item.
pub open spec fn direct_bytes(i: SItem) -> Seq<u8> {
    match i {
        SItem::Direct(v) => v,
        _ => Seq::empty(),
    }
}

// ----------------------------------------------------------------------------
// Construction
// ----------------------------------------------------------------------------

impl And {
    /// An empty sequence whose items are separated by `sep`, which must
    /// convert to a `Direct` item.
    pub fn new<T: Convertible>(sep: T) -> (r: And)
        requires
            sep.converted() is Direct,
        ensures
            r@ == (SItem::And { sep: direct_bytes(sep.converted()), items: Seq::empty() }),
    {
        match sep.convert() {
            Item::Direct(v) => {
                let r = And { sep: v, items: Vec::new() };
                assert(view_items(r.items@) =~= Seq::<SItem>::empty());
                r
            },
            _ => {
                assert(false);
                And { sep: Vec::new(), items: Vec::new() }
            },
        }
    }

    /// The same sequence with `item` appended.
    pub fn add_item<T: Convertible>(self, item: T) -> (r: Self)
        ensures
            r@ == (SItem::And {
                sep: self.sep@,
                items: view_items(self.items@).push(item.converted()),
            }),
    {
        let mut r = self;
        let c = item.convert();
        proof { lemma_view_items_push(r.items@, c); }
        r.items.push(c);
        r
    }
}

impl Or {
    /// A choice with no option yet.
    pub fn new() -> (r: Or)
        ensures
            r@ == empty_or(false),
    {
        let r = Or { choices: Vec::new(), choice_indices: Vec::new(), shortest_options: Vec::new(), keep: false };
        assert(view_items(r.choices@) =~= Seq::<SItem>::empty());
        r
    }

    /// A choice with no option yet, whose rule is kept even while it has
    /// none.
    pub fn new_keep() -> (r: Or)
        ensures
            r@ == empty_or(true),
    {
        let r = Or { choices: Vec::new(), choice_indices: Vec::new(), shortest_options: Vec::new(), keep: true };
        assert(view_items(r.choices@) =~= Seq::<SItem>::empty());
        r
    }

    /// Adds `choice` as a further option that can be built.
    pub fn add_item<T: Convertible>(&mut self, choice: T) -> (r: &Self)
        ensures
            final(self)@ == or_add(old(self)@, choice.converted()),
            *r == *final(self),
    {
        let n = self.choices.len();
        self.choice_indices.push(n);
        let c = choice.convert();
        proof { lemma_view_items_push(self.choices@, c); lemma_view_items(self.choices@); }
        self.choices.push(c);
        self
    }
}

impl Ref {
    /// A reference to the rule named `ref_rule`, not yet resolved.
    pub fn new(ref_rule: &str) -> (r: Ref)
        ensures
            r@ == (SItem::Ref { name: ref_rule@, idx: None }),
    {
        Ref { ref_rule: ref_rule.to_owned(), ref_idx: None }
    }

    /// A reference to the rule named `ref_rule`, already resolved to `idx`.
    pub fn new_with_idx(ref_rule: &str, idx: usize) -> (r: Ref)
        ensures
            r@ == (SItem::Ref { name: ref_rule@, idx: Some(idx) }),
    {
        Ref { ref_rule: ref_rule.to_owned(), ref_idx: Some(idx) }
    }
}

impl Str {
    /// A random string of length in `[min, max]` over the bytes of
    /// `charset`.
    pub fn new(min: usize, max: usize, charset: &str) -> (r: Self)
        requires
            min <= max,
        ensures
            r@ == (SItem::Str { min, max, diff: (max - min) as usize, charset: encode_utf8(charset@) }),
    {
        Str { min, max, diff: max - min, charset: vstd::slice::slice_to_vec(charset.as_bytes()) }
    }
}

impl Int {
    /// A random integer in `[min, max)`.
    pub fn new(min: i64, max: i64) -> (r: Self)
        ensures
            r@ == (SItem::Int { min, max }),
    {
        Int { min, max }
    }
}

impl Opt {
    /// `item`, built or left out.
    pub fn new<T: Convertible>(item: T) -> (r: Self)
        ensures
            r@ == (SItem::Opt { inner: Box::new(item.converted()), has_refs: false }),
    {
        Opt { item: Box::new(item.convert()), has_refs: false }
    }
}

impl Mul {
    /// `item` repeated between `min` and `max` times.
    pub fn new<T: Convertible>(item: T, min: usize, max: usize) -> (r: Self)
        requires
            min <= max,
        ensures
            r@ == (SItem::Mul { inner: Box::new(item.converted()), min, max }),
    {
        Mul { item: Box::new(item.convert()), min, max }
    }
}

impl Id {
    /// A new identifier for the rule named `rule_name`.
    pub fn new(rule_name: &str) -> (r: Self)
        ensures
            r@ == (SItem::Id { name: rule_name@, idx: None }),
    {
        Id { rule_name: rule_name.to_owned(), rule_idx: None }
    }
}

impl PreId {
    /// A new identifier for the rule named `rule_name` whose definition has
    /// its items separated by `sep`, which must convert to a `Direct` item.
    pub fn new<S: Convertible>(rule_name: &str, sep: S) -> (r: Self)
        requires
            sep.converted() is Direct,
        ensures
            r@ == (SItem::PreId {
                name: rule_name@,
                idx: None,
                sep: direct_bytes(sep.converted()),
                items: Seq::empty(),
                ids: Seq::empty(),
            }),
    {
        match sep.convert() {
            Item::Direct(v) => {
                let r = PreId {
                    rule_name: rule_name.to_owned(),
                    rule_idx: None,
                    sep: v,
                    items: Vec::new(),
                    id_indices: Vec::new(),
                };
                assert(view_items(r.items@) =~= Seq::<SItem>::empty());
                r
            },
            _ => {
                assert(false);
                PreId {
                    rule_name: rule_name.to_owned(),
                    rule_idx: None,
                    sep: Vec::new(),
                    items: Vec::new(),
                    id_indices: Vec::new(),
                }
            },
        }
    }

    /// The same definition with `item` appended.
    pub fn add_item<T: Convertible>(self, item: T) -> (r: Self)
        ensures
            r@ == (SItem::PreId {
                name: self.rule_name@,
                idx: self.rule_idx,
                sep: self.sep@,
                items: view_items(self.items@).push(item.converted()),
                ids: self.id_indices@,
            }),
    {
        let mut r = self;
        let c = item.convert();
        proof { lemma_view_items_push(r.items@, c); }
        r.items.push(c);
        r
    }
}

impl Scoped {
    /// `item`, built in a scope of its own.
    pub fn new<T: Convertible>(item: T) -> (r: Self)
        ensures
            r@ == (SItem::Scoped { inner: Box::new(item.converted()) }),
    {
        Scoped { item: Box::new(item.convert()) }
    }
}

} // verus!
