//! Descriptions of items: a readable rendering of what each item holds.
use vstd::prelude::*;
use vstd::utf8::{encode_utf8, decode_utf8, valid_utf8, valid_utf8_concat, encode_utf8_valid_utf8, decode_utf8_encode_utf8,
    leading_bits_width_1, valid_first_scalar, pop_first_scalar};
use crate::fields::{SItem, SOr, Item, And, Or, Ref, Str, Int, Opt, Mul, Id, PreId, Scoped, view_items, lemma_view_items};
use crate::text::{decimal, signed_decimal, lemma_decimal_digits, u64_decimal, i64_decimal};

verus! {

// ----------------------------------------------------------------------------
// The standard library calls
// ----------------------------------------------------------------------------

/// What `{:?}` renders a string as: quoted, with escapes.
pub uninterp spec fn str_debug(s: Seq<char>) -> Seq<char>;

/// Calls `std::str::from_utf8`. Its documentation promises the text of the
/// bytes when they are valid UTF-8, and an error when they are not.
#[verifier::external_body]
fn str_from_utf8(bytes: &[u8]) -> (r: Option<&str>)
    ensures
        r is Some <==> valid_utf8(bytes@),
        r matches Some(s) ==> s@ == decode_utf8(bytes@),
{
    std::str::from_utf8(bytes).ok()
}

/// Calls `String::from_utf8`. Its documentation promises the string of the
/// bytes when they are valid UTF-8, and an error when they are not.
#[verifier::external_body]
fn string_from_utf8(bytes: Vec<u8>) -> (r: Option<String>)
    ensures
        r is Some <==> valid_utf8(bytes@),
        r matches Some(s) ==> s@ == decode_utf8(bytes@),
{
    String::from_utf8(bytes).ok()
}

/// Renders `s` with the standard `Debug` formatting of strings (`{:?}`).
/// The rendering depends on `s` alone; what it is, character by character,
/// is named, not stated.
#[verifier::external_body]
fn debug_str(s: &str) -> (r: String)
    ensures
        r@ == str_debug(s@),
{
    format!("{:?}", s)
}

// ----------------------------------------------------------------------------
// The text of an item
// ----------------------------------------------------------------------------

/// The UTF-8 bytes of a string.
pub open spec fn lit(s: &str) -> Seq<u8> {
    encode_utf8(s@)
}

/// A lowercase hexadecimal digit.
pub open spec fn hex_digit(d: u8) -> u8 {
    if d < 10 {
        (48 + d) as u8
    } else {
        (87 + d) as u8
    }
}

/// A byte as `std::ascii::escape_default` writes it: tab, carriage return,
/// line feed, quotes and backslash as a backslash escape, the printable
/// ASCII bytes as they are, and every other byte as `\xNN`.
pub open spec fn escape_byte(b: u8) -> Seq<u8> {
    if b == 9 {
        seq![92u8, 116u8]
    } else if b == 13 {
        seq![92u8, 114u8]
    } else if b == 10 {
        seq![92u8, 110u8]
    } else if b == 92 {
        seq![92u8, 92u8]
    } else if b == 39 {
        seq![92u8, 39u8]
    } else if b == 34 {
        seq![92u8, 34u8]
    } else if 32 <= b <= 126 {
        seq![b]
    } else {
        seq![92u8, 120u8, hex_digit(b / 16), hex_digit(b % 16)]
    }
}

/// Each byte escaped.
pub open spec fn escape_bytes(v: Seq<u8>) -> Seq<u8>
    decreases v.len(),
{
    if v.len() == 0 {
        Seq::empty()
    } else {
        escape_bytes(v.drop_last()) + escape_byte(v.last())
    }
}

/// How `{:?}` writes a `bool`.
pub open spec fn bool_text(b: bool) -> Seq<u8> {
    if b {
        lit("true")
    } else {
        lit("false")
    }
}

/// The description of an item.
pub open spec fn item_text(item: SItem) -> Seq<u8>
    decreases item, 0nat,
{
    match item {
        SItem::Direct(v) => lit("u8[") + escape_bytes(v) + lit("]"),
        SItem::And { sep, items } => lit("And<sep=") + sep + lit(" ") + texts_joined(items, items.len()) + lit(">"),
        SItem::Or(o) => lit("Or<keep=") + bool_text(o.keep) + lit(" ") + texts_joined(o.choices, o.choices.len()) + lit(">"),
        SItem::Ref { name, idx } => lit("Ref<") + encode_utf8(name) + lit(">"),
        SItem::Str { min, max, diff, charset } => lit("Str<min=") + decimal(min as nat) + lit(" max=") + decimal(max as nat)
            + lit(" charset=") + encode_utf8(str_debug(decode_utf8(charset))) + lit(">"),
        SItem::Int { min, max } => lit("Int<min=") + signed_decimal(min as int) + lit(" max=") + signed_decimal(max as int) + lit(">"),
        SItem::Opt { inner, has_refs } => lit("Opt<") + item_text(*inner) + lit(">"),
        SItem::Mul { inner, min, max } => lit("<Mul {[") + decimal(min as nat) + lit(",") + decimal(max as nat) + lit(")} ")
            + item_text(*inner) + lit(">"),
        SItem::Id { name, idx } => lit("Id<") + encode_utf8(name) + lit(">"),
        SItem::PreId { name, idx, sep, items, ids } => lit("PreId<rule=") + encode_utf8(name) + lit(">"),
        SItem::PreFlush => lit("PreFlush"),
        SItem::Scoped { inner } => lit("Scoped<") + item_text(*inner) + lit(">"),
    }
}

/// The descriptions of the first `k` items, separated by `", "`.
pub open spec fn texts_joined(items: Seq<SItem>, k: nat) -> Seq<u8>
    decreases items, k,
{
    if k == 0 || k > items.len() {
        Seq::empty()
    } else if k == 1 {
        item_text(items[0])
    } else {
        texts_joined(items, (k - 1) as nat) + lit(", ") + item_text(items[k - 1])
    }
}

/// Every separator and charset that a description shows is valid UTF-8.
pub open spec fn text_ok(item: SItem) -> bool
    decreases item, 0nat,
{
    match item {
        SItem::And { sep, items } => valid_utf8(sep) && texts_ok(items, items.len()),
        SItem::Or(o) => texts_ok(o.choices, o.choices.len()),
        SItem::Str { min, max, diff, charset } => valid_utf8(charset),
        SItem::Opt { inner, has_refs } => text_ok(*inner),
        SItem::Mul { inner, min, max } => text_ok(*inner),
        SItem::Scoped { inner } => text_ok(*inner),
        _ => true,
    }
}

/// The first `k` items are `text_ok`.
pub open spec fn texts_ok(items: Seq<SItem>, k: nat) -> bool
    decreases items, k,
{
    k == 0 || k > items.len() || (texts_ok(items, (k - 1) as nat) && text_ok(items[k - 1]))
}

pub proof fn lemma_texts_ok(items: Seq<SItem>, k: nat)
    requires
        k <= items.len(),
    ensures
        texts_ok(items, k) <==> forall|j: int| 0 <= j < k ==> text_ok(#[trigger] items[j]),
    decreases k,
{
    if k > 0 {
        lemma_texts_ok(items, (k - 1) as nat);
    }
}

// ----------------------------------------------------------------------------
// Validity of descriptions
// ----------------------------------------------------------------------------

/// Bytes below 128 are valid UTF-8.
pub proof fn lemma_ascii_valid(b: Seq<u8>)
    requires
        forall|i: int| 0 <= i < b.len() ==> #[trigger] b[i] < 128,
    ensures
        valid_utf8(b),
    decreases b.len(),
{
    if b.len() > 0 {
        let b0 = b[0];
        assert(leading_bits_width_1(b0) == b0 as u32) by (bit_vector)
            requires
                b0 < 128,
        ;
        assert(valid_first_scalar(b));
        let rest = pop_first_scalar(b);
        assert(rest =~= b.subrange(1, b.len() as int));
        lemma_ascii_valid(rest);
    }
}

proof fn lemma_escape_ascii(v: Seq<u8>)
    ensures
        forall|i: int| 0 <= i < escape_bytes(v).len() ==> #[trigger] escape_bytes(v)[i] < 128,
    decreases v.len(),
{
    if v.len() > 0 {
        lemma_escape_ascii(v.drop_last());
        let a = escape_bytes(v.drop_last());
        let e = escape_byte(v.last());
        assert forall|i: int| 0 <= i < e.len() implies #[trigger] e[i] < 128 by {}
        assert forall|i: int| 0 <= i < (a + e).len() implies #[trigger] (a + e)[i] < 128 by {
            if i < a.len() {
                assert((a + e)[i] == a[i]);
            } else {
                assert((a + e)[i] == e[i - a.len()]);
            }
        }
    }
}

proof fn lemma_decimal_valid(n: nat)
    ensures
        valid_utf8(decimal(n)),
{
    lemma_decimal_digits(n);
    lemma_ascii_valid(decimal(n));
}

proof fn lemma_signed_decimal_valid(v: int)
    ensures
        valid_utf8(signed_decimal(v)),
{
    if v < 0 {
        lemma_decimal_digits((-v) as nat);
        let d = seq![45u8] + decimal((-v) as nat);
        assert forall|i: int| 0 <= i < d.len() implies #[trigger] d[i] < 128 by {
            if i > 0 {
                assert(d[i] == decimal((-v) as nat)[i - 1]);
            }
        }
        lemma_ascii_valid(d);
    } else {
        lemma_decimal_valid(v as nat);
    }
}

proof fn lemma_lit_valid(s: &str)
    ensures
        valid_utf8(lit(s)),
{
    encode_utf8_valid_utf8(s@);
}

/// Joining valid pieces gives valid text.
proof fn lemma_cat(a: Seq<u8>, b: Seq<u8>)
    requires
        valid_utf8(a),
        valid_utf8(b),
    ensures
        valid_utf8(a + b),
{
    valid_utf8_concat(a, b);
}

/// The description of an item whose separators and charsets are valid
/// UTF-8 is valid UTF-8.
pub proof fn lemma_text_valid(item: SItem)
    requires
        text_ok(item),
    ensures
        valid_utf8(item_text(item)),
    decreases item, 0nat,
{
    match item {
        SItem::Direct(v) => {
            lemma_escape_ascii(v);
            lemma_ascii_valid(escape_bytes(v));
            lemma_lit_valid("u8[");
            lemma_lit_valid("]");
            lemma_cat(lit("u8["), escape_bytes(v));
            lemma_cat(lit("u8[") + escape_bytes(v), lit("]"));
        },
        SItem::And { sep, items } => {
            lemma_texts_valid(items, items.len());
            lemma_lit_valid("And<sep=");
            lemma_lit_valid(" ");
            lemma_lit_valid(">");
            let p1 = lit("And<sep=") + sep;
            lemma_cat(lit("And<sep="), sep);
            lemma_cat(p1, lit(" "));
            lemma_cat(p1 + lit(" "), texts_joined(items, items.len()));
            lemma_cat(p1 + lit(" ") + texts_joined(items, items.len()), lit(">"));
        },
        SItem::Or(o) => {
            lemma_texts_valid(o.choices, o.choices.len());
            lemma_lit_valid("Or<keep=");
            lemma_lit_valid("true");
            lemma_lit_valid("false");
            lemma_lit_valid(" ");
            lemma_lit_valid(">");
            let p1 = lit("Or<keep=") + bool_text(o.keep);
            lemma_cat(lit("Or<keep="), bool_text(o.keep));
            lemma_cat(p1, lit(" "));
            lemma_cat(p1 + lit(" "), texts_joined(o.choices, o.choices.len()));
            lemma_cat(p1 + lit(" ") + texts_joined(o.choices, o.choices.len()), lit(">"));
        },
        SItem::Ref { name, idx } => {
            lemma_lit_valid("Ref<");
            lemma_lit_valid(">");
            encode_utf8_valid_utf8(name);
            lemma_cat(lit("Ref<"), encode_utf8(name));
            lemma_cat(lit("Ref<") + encode_utf8(name), lit(">"));
        },
        SItem::Str { min, max, diff, charset } => {
            lemma_decimal_valid(min as nat);
            lemma_decimal_valid(max as nat);
            lemma_lit_valid("Str<min=");
            lemma_lit_valid(" max=");
            lemma_lit_valid(" charset=");
            lemma_lit_valid(">");
            let d = encode_utf8(str_debug(decode_utf8(charset)));
            encode_utf8_valid_utf8(str_debug(decode_utf8(charset)));
            let p1 = lit("Str<min=") + decimal(min as nat);
            lemma_cat(lit("Str<min="), decimal(min as nat));
            lemma_cat(p1, lit(" max="));
            lemma_cat(p1 + lit(" max="), decimal(max as nat));
            let p2 = p1 + lit(" max=") + decimal(max as nat);
            lemma_cat(p2, lit(" charset="));
            lemma_cat(p2 + lit(" charset="), d);
            lemma_cat(p2 + lit(" charset=") + d, lit(">"));
        },
        SItem::Int { min, max } => {
            lemma_signed_decimal_valid(min as int);
            lemma_signed_decimal_valid(max as int);
            lemma_lit_valid("Int<min=");
            lemma_lit_valid(" max=");
            lemma_lit_valid(">");
            let p1 = lit("Int<min=") + signed_decimal(min as int);
            lemma_cat(lit("Int<min="), signed_decimal(min as int));
            lemma_cat(p1, lit(" max="));
            lemma_cat(p1 + lit(" max="), signed_decimal(max as int));
            lemma_cat(p1 + lit(" max=") + signed_decimal(max as int), lit(">"));
        },
        SItem::Opt { inner, has_refs } => {
            lemma_text_valid(*inner);
            lemma_lit_valid("Opt<");
            lemma_lit_valid(">");
            lemma_cat(lit("Opt<"), item_text(*inner));
            lemma_cat(lit("Opt<") + item_text(*inner), lit(">"));
        },
        SItem::Mul { inner, min, max } => {
            lemma_decimal_valid(min as nat);
            lemma_decimal_valid(max as nat);
            lemma_text_valid(*inner);
            lemma_lit_valid("<Mul {[");
            lemma_lit_valid(",");
            lemma_lit_valid(")} ");
            lemma_lit_valid(">");
            let p1 = lit("<Mul {[") + decimal(min as nat);
            lemma_cat(lit("<Mul {["), decimal(min as nat));
            lemma_cat(p1, lit(","));
            lemma_cat(p1 + lit(","), decimal(max as nat));
            let p2 = p1 + lit(",") + decimal(max as nat);
            lemma_cat(p2, lit(")} "));
            lemma_cat(p2 + lit(")} "), item_text(*inner));
            lemma_cat(p2 + lit(")} ") + item_text(*inner), lit(">"));
        },
        SItem::Id { name, idx } => {
            lemma_lit_valid("Id<");
            lemma_lit_valid(">");
            encode_utf8_valid_utf8(name);
            lemma_cat(lit("Id<"), encode_utf8(name));
            lemma_cat(lit("Id<") + encode_utf8(name), lit(">"));
        },
        SItem::PreId { name, idx, sep, items, ids } => {
            lemma_lit_valid("PreId<rule=");
            lemma_lit_valid(">");
            encode_utf8_valid_utf8(name);
            lemma_cat(lit("PreId<rule="), encode_utf8(name));
            lemma_cat(lit("PreId<rule=") + encode_utf8(name), lit(">"));
        },
        SItem::PreFlush => {
            lemma_lit_valid("PreFlush");
        },
        SItem::Scoped { inner } => {
            lemma_text_valid(*inner);
            lemma_lit_valid("Scoped<");
            lemma_lit_valid(">");
            lemma_cat(lit("Scoped<"), item_text(*inner));
            lemma_cat(lit("Scoped<") + item_text(*inner), lit(">"));
        },
    }
}

pub proof fn lemma_texts_valid(items: Seq<SItem>, k: nat)
    requires
        texts_ok(items, k),
    ensures
        valid_utf8(texts_joined(items, k)),
    decreases items, k,
{
    if k == 0 || k > items.len() {
        lemma_ascii_valid(Seq::<u8>::empty());
    } else if k == 1 {
        lemma_text_valid(items[0]);
    } else {
        lemma_texts_valid(items, (k - 1) as nat);
        lemma_text_valid(items[k - 1]);
        lemma_lit_valid(", ");
        lemma_cat(texts_joined(items, (k - 1) as nat), lit(", "));
        lemma_cat(texts_joined(items, (k - 1) as nat) + lit(", "), item_text(items[k - 1]));
    }
}

// ----------------------------------------------------------------------------
// Writing descriptions
// ----------------------------------------------------------------------------

/// Appends `b` to `out`.
fn push_bytes(out: &mut Vec<u8>, b: &[u8])
    ensures
        final(out)@ == old(out)@ + b@,
{
    let mut i: usize = 0;
    while i < b.len()
        invariant
            i <= b@.len(),
            out@ == old(out)@ + b@.take(i as int),
        decreases b.len() - i,
    {
        out.push(b[i]);
        assert(b@.take(i + 1) =~= b@.take(i as int).push(b@[i as int]));
        i += 1;
    }
    assert(b@.take(b@.len() as int) =~= b@);
}

/// Appends the UTF-8 bytes of `s` to `out`.
fn push_str(out: &mut Vec<u8>, s: &str)
    ensures
        final(out)@ == old(out)@ + lit(s),
{
    push_bytes(out, s.as_bytes());
}

/// Appends `v` with each byte escaped.
fn push_escaped(out: &mut Vec<u8>, v: &Vec<u8>)
    ensures
        final(out)@ == old(out)@ + escape_bytes(v@),
{
    let mut i: usize = 0;
    assert(v@.take(0) =~= Seq::<u8>::empty());
    assert(old(out)@ + escape_bytes(Seq::<u8>::empty()) =~= old(out)@);
    while i < v.len()
        invariant
            i <= v@.len(),
            out@ == old(out)@ + escape_bytes(v@.take(i as int)),
        decreases v.len() - i,
    {
        let b = v[i];
        let ghost before = out@;
        if b == 9 {
            out.push(92u8);
            out.push(116u8);
        } else if b == 13 {
            out.push(92u8);
            out.push(114u8);
        } else if b == 10 {
            out.push(92u8);
            out.push(110u8);
        } else if b == 92 {
            out.push(92u8);
            out.push(92u8);
        } else if b == 39 {
            out.push(92u8);
            out.push(39u8);
        } else if b == 34 {
            out.push(92u8);
            out.push(34u8);
        } else if 32 <= b && b <= 126 {
            out.push(b);
        } else {
            let hi = b / 16;
            let lo = b % 16;
            out.push(92u8);
            out.push(120u8);
            out.push(if hi < 10 { 48 + hi } else { 87 + hi });
            out.push(if lo < 10 { 48 + lo } else { 87 + lo });
        }
        proof {
            assert(out@ =~= before + escape_byte(b));
            assert(v@.take(i + 1).drop_last() =~= v@.take(i as int));
            assert(v@.take(i + 1).last() == b);
            assert(escape_bytes(v@.take(i + 1)) == escape_bytes(v@.take(i as int)) + escape_byte(b));
            assert(old(out)@ + escape_bytes(v@.take(i as int)) + escape_byte(b) =~= old(out)@ + escape_bytes(v@.take(i + 1)));
        }
        i += 1;
    }
    assert(v@.take(v@.len() as int) =~= v@);
}

/// Whether the first `items` can all be described: `texts_ok`.
fn items_have_text(items: &Vec<Item>) -> (r: bool)
    ensures
        r == texts_ok(view_items(items@), items@.len()),
    decreases items,
{
    let ghost s = view_items(items@);
    proof {
        lemma_view_items(items@);
    }
    let mut ok = true;
    let mut i: usize = 0;
    while i < items.len()
        invariant
            i <= items@.len(),
            s == view_items(items@),
            s.len() == items@.len(),
            forall|j: int| 0 <= j < items@.len() ==> #[trigger] s[j] == items@[j]@,
            ok == texts_ok(s, i as nat),
        decreases items@.len() - i,
    {
        proof {
            assert(decreases_to!(items => items@));
            assert(decreases_to!(items@ => items@[i as int]));
        }
        let one = items[i].has_text();
        ok = ok && one;
        i += 1;
    }
    ok
}

/// Whether `bytes` are valid UTF-8.
fn bytes_valid(bytes: &Vec<u8>) -> (r: bool)
    ensures
        r == valid_utf8(bytes@),
{
    match str_from_utf8(bytes.as_slice()) {
        Some(_) => true,
        None => false,
    }
}

impl Item {
    /// Whether this item can be described: every separator and charset it
    /// holds, at any depth that the description reaches, is valid UTF-8.
    pub fn has_text(&self) -> (r: bool)
        ensures
            r == text_ok(self@),
        decreases self,
    {
        match self {
            Item::And(a) => {
                let v = bytes_valid(&a.sep);
                let w = items_have_text(&a.items);
                assert(self@ == a@);
                assert(a@ == (SItem::And { sep: a.sep@, items: view_items(a.items@) }));
                proof { lemma_view_items(a.items@); }
                v && w
            },
            Item::Or(o) => {
                proof { lemma_view_items(o.choices@); }
                items_have_text(&o.choices)
            },
            Item::Str(v) => bytes_valid(&v.charset),
            Item::Opt(o) => o.item.has_text(),
            Item::Mul(m) => m.item.has_text(),
            Item::Scoped(v) => v.item.has_text(),
            _ => true,
        }
    }
}

/// Appends the descriptions of `items`, separated by `", "`.
fn push_texts(items: &Vec<Item>, out: &mut Vec<u8>)
    requires
        texts_ok(view_items(items@), items@.len()),
    ensures
        final(out)@ == old(out)@ + texts_joined(view_items(items@), items@.len()),
    decreases items,
{
    let ghost s = view_items(items@);
    proof {
        lemma_view_items(items@);
        lemma_texts_ok(s, s.len());
    }
    let mut i: usize = 0;
    assert(old(out)@ + texts_joined(s, 0) =~= old(out)@);
    while i < items.len()
        invariant
            i <= items@.len(),
            s == view_items(items@),
            s.len() == items@.len(),
            forall|j: int| 0 <= j < items@.len() ==> #[trigger] s[j] == items@[j]@,
            forall|j: int| 0 <= j < items@.len() ==> text_ok(#[trigger] s[j]),
            out@ == old(out)@ + texts_joined(s, i as nat),
        decreases items@.len() - i,
    {
        let ghost before = out@;
        if i > 0 {
            push_str(out, ", ");
        }
        proof {
            assert(decreases_to!(items => items@));
            assert(decreases_to!(items@ => items@[i as int]));
            assert(s[i as int] == items@[i as int]@);
            assert(text_ok(s[i as int]));
        }
        items[i].write_text(out);
        proof {
            if i == 0 {
                assert(out@ =~= old(out)@ + texts_joined(s, 1));
            } else {
                assert(out@ =~= old(out)@ + texts_joined(s, (i + 1) as nat));
            }
        }
        i += 1;
    }
}

impl Item {
    /// Appends the description of this item to `out`.
    pub fn write_text(&self, out: &mut Vec<u8>)
        requires
            text_ok(self@),
        ensures
            final(out)@ == old(out)@ + item_text(self@),
        decreases self,
    {
        match self {
            Item::Direct(v) => {
                push_str(out, "u8[");
                push_escaped(out, v);
                push_str(out, "]");
            },
            Item::And(v) => v.write_text(out),
            Item::Or(v) => v.write_text(out),
            Item::Ref(v) => v.write_text(out),
            Item::Str(v) => v.write_text(out),
            Item::Int(v) => v.write_text(out),
            Item::Opt(v) => v.write_text(out),
            Item::Mul(v) => v.write_text(out),
            Item::Id(v) => v.write_text(out),
            Item::PreId(v) => v.write_text(out),
            Item::PreFlush => push_str(out, "PreFlush"),
            Item::Scoped(v) => v.write_text(out),
        }
    }

    /// The description of this item.
    pub fn to_string(&self) -> (r: String)
        requires
            text_ok(self@),
        ensures
            r@ == decode_utf8(item_text(self@)),
    {
        let mut out: Vec<u8> = Vec::new();
        self.write_text(&mut out);
        proof {
            assert(out@ =~= item_text(self@));
            lemma_text_valid(self@);
        }
        match string_from_utf8(out) {
            Some(s) => s,
            None => {
                proof { assert(false); }
                String::new()
            },
        }
    }
}

impl And {
    /// Appends the description of this sequence to `out`.
    pub fn write_text(&self, out: &mut Vec<u8>)
        requires
            text_ok(self@),
        ensures
            final(out)@ == old(out)@ + item_text(self@),
        decreases self,
    {
        push_str(out, "And<sep=");
        push_bytes(out, self.sep.as_slice());
        push_str(out, " ");
        proof { lemma_view_items(self.items@); }
        push_texts(&self.items, out);
        push_str(out, ">");
    }

    /// The description of this sequence.
    pub fn to_string(&self) -> (r: String)
        requires
            text_ok(self@),
        ensures
            r@ == decode_utf8(item_text(self@)),
    {
        let mut out: Vec<u8> = Vec::new();
        self.write_text(&mut out);
        proof {
            assert(out@ =~= item_text(self@));
            lemma_text_valid(self@);
        }
        match string_from_utf8(out) {
            Some(s) => s,
            None => {
                proof { assert(false); }
                String::new()
            },
        }
    }
}

impl Or {
    /// Appends the description of this choice to `out`.
    pub fn write_text(&self, out: &mut Vec<u8>)
        requires
            text_ok(SItem::Or(self@)),
        ensures
            final(out)@ == old(out)@ + item_text(SItem::Or(self@)),
        decreases self,
    {
        push_str(out, "Or<keep=");
        if self.keep {
            push_str(out, "true");
        } else {
            push_str(out, "false");
        }
        push_str(out, " ");
        proof { lemma_view_items(self.choices@); }
        push_texts(&self.choices, out);
        push_str(out, ">");
    }

    /// The description of this choice.
    pub fn to_string(&self) -> (r: String)
        requires
            text_ok(SItem::Or(self@)),
        ensures
            r@ == decode_utf8(item_text(SItem::Or(self@))),
    {
        let mut out: Vec<u8> = Vec::new();
        self.write_text(&mut out);
        proof {
            assert(out@ =~= item_text(SItem::Or(self@)));
            lemma_text_valid(SItem::Or(self@));
        }
        match string_from_utf8(out) {
            Some(s) => s,
            None => {
                proof { assert(false); }
                String::new()
            },
        }
    }
}

impl Ref {
    /// Appends the description of this reference to `out`.
    pub fn write_text(&self, out: &mut Vec<u8>)
        ensures
            final(out)@ == old(out)@ + item_text(self@),
    {
        push_str(out, "Ref<");
        push_str(out, self.ref_rule.as_str());
        push_str(out, ">");
    }
}

impl Str {
    /// Appends the description of this random string to `out`.
    pub fn write_text(&self, out: &mut Vec<u8>)
        requires
            text_ok(self@),
        ensures
            final(out)@ == old(out)@ + item_text(self@),
    {
        push_str(out, "Str<min=");
        let min_text = u64_decimal(self.min as u64);
        push_bytes(out, min_text.as_slice());
        push_str(out, " max=");
        let max_text = u64_decimal(self.max as u64);
        push_bytes(out, max_text.as_slice());
        push_str(out, " charset=");
        match str_from_utf8(self.charset.as_slice()) {
            Some(charset) => {
                let text = debug_str(charset);
                push_str(out, text.as_str());
            },
            None => {
                proof { assert(false); }
            },
        }
        push_str(out, ">");
    }
}

impl Int {
    /// Appends the description of this random integer to `out`.
    pub fn write_text(&self, out: &mut Vec<u8>)
        ensures
            final(out)@ == old(out)@ + item_text(self@),
    {
        push_str(out, "Int<min=");
        let min_text = i64_decimal(self.min);
        push_bytes(out, min_text.as_slice());
        push_str(out, " max=");
        let max_text = i64_decimal(self.max);
        push_bytes(out, max_text.as_slice());
        push_str(out, ">");
    }
}

impl Opt {
    /// Appends the description of this optional item to `out`.
    pub fn write_text(&self, out: &mut Vec<u8>)
        requires
            text_ok(self@),
        ensures
            final(out)@ == old(out)@ + item_text(self@),
        decreases self,
    {
        push_str(out, "Opt<");
        proof { assert(decreases_to!(*self => *self.item)); }
        self.item.write_text(out);
        push_str(out, ">");
    }
}

impl Mul {
    /// Appends the description of this repetition to `out`.
    pub fn write_text(&self, out: &mut Vec<u8>)
        requires
            text_ok(self@),
        ensures
            final(out)@ == old(out)@ + item_text(self@),
        decreases self,
    {
        push_str(out, "<Mul {[");
        let min_text = u64_decimal(self.min as u64);
        push_bytes(out, min_text.as_slice());
        push_str(out, ",");
        let max_text = u64_decimal(self.max as u64);
        push_bytes(out, max_text.as_slice());
        push_str(out, ")} ");
        proof { assert(decreases_to!(*self => *self.item)); }
        self.item.write_text(out);
        push_str(out, ">");
    }
}

impl Id {
    /// Appends the description of this identifier to `out`.
    pub fn write_text(&self, out: &mut Vec<u8>)
        ensures
            final(out)@ == old(out)@ + item_text(self@),
    {
        push_str(out, "Id<");
        push_str(out, self.rule_name.as_str());
        push_str(out, ">");
    }
}

impl PreId {
    /// Appends the description of this defined identifier to `out`.
    pub fn write_text(&self, out: &mut Vec<u8>)
        ensures
            final(out)@ == old(out)@ + item_text(self@),
    {
        push_str(out, "PreId<rule=");
        push_str(out, self.rule_name.as_str());
        push_str(out, ">");
    }
}

impl Scoped {
    /// Appends the description of this scoped item to `out`.
    pub fn write_text(&self, out: &mut Vec<u8>)
        requires
            text_ok(self@),
        ensures
            final(out)@ == old(out)@ + item_text(self@),
        decreases self,
    {
        push_str(out, "Scoped<");
        proof { assert(decreases_to!(*self => *self.item)); }
        self.item.write_text(out);
        push_str(out, ">");
    }
}

// ----------------------------------------------------------------------------
// The options of a choice, line by line
// ----------------------------------------------------------------------------

/// The options listed: the shortest ones when asked for, else all that can
/// be built.
pub open spec fn listed(o: SOr, shortest: bool) -> Seq<usize> {
    if shortest {
        o.shortest
    } else {
        o.indices
    }
}

/// The lines that list the options of `o`, each after `prefix`: whether
/// the rule is kept, whether the shortest options are listed, then one
/// line for each option listed.
pub open spec fn option_lines(o: SOr, shortest: bool, prefix: Seq<char>) -> Seq<Seq<u8>> {
    seq![
        encode_utf8(prefix) + lit("keep: ") + bool_text(o.keep),
        encode_utf8(prefix) + lit("shortest: ") + bool_text(shortest),
    ] + Seq::new(
        listed(o, shortest).len(),
        |k: int| encode_utf8(prefix) + item_text(o.choices[listed(o, shortest)[k] as int]),
    )
}

/// Bytes that are valid UTF-8 as a string.
pub(crate) fn bytes_to_string(bytes: Vec<u8>) -> (r: String)
    requires
        valid_utf8(bytes@),
    ensures
        r@ == decode_utf8(bytes@),
        encode_utf8(r@) == bytes@,
{
    proof { decode_utf8_encode_utf8(bytes@); }
    match string_from_utf8(bytes) {
        Some(s) => s,
        None => {
            proof { assert(false); }
            String::new()
        },
    }
}

impl Or {
    /// The lines that list the options of this choice, each after
    /// `prefix`.
    pub fn option_lines(&self, shortest: bool, prefix: &str) -> (r: Vec<String>)
        requires
            forall|k: int| 0 <= k < listed(self@, shortest).len() ==> #[trigger] listed(self@, shortest)[k] < self.choices@.len(),
            forall|j: int| 0 <= j < self.choices@.len() ==> text_ok(#[trigger] self.choices@[j]@),
        ensures
            r@.len() == option_lines(self@, shortest, prefix@).len(),
            forall|k: int| 0 <= k < r@.len() ==> #[trigger] r@[k]@ == decode_utf8(option_lines(self@, shortest, prefix@)[k]),
    {
        let ghost lines = option_lines(self@, shortest, prefix@);
        let mut res: Vec<String> = Vec::new();
        proof {
            lemma_view_items(self.choices@);
            lemma_lit_valid("keep: ");
            lemma_lit_valid("shortest: ");
            lemma_lit_valid("true");
            lemma_lit_valid("false");
            encode_utf8_valid_utf8(prefix@);
        }
        let mut first: Vec<u8> = Vec::new();
        push_str(&mut first, prefix);
        push_str(&mut first, "keep: ");
        if self.keep {
            push_str(&mut first, "true");
        } else {
            push_str(&mut first, "false");
        }
        proof {
            assert(first@ =~= lines[0]);
            lemma_cat(encode_utf8(prefix@), lit("keep: "));
            lemma_cat(encode_utf8(prefix@) + lit("keep: "), bool_text(self.keep));
        }
        res.push(bytes_to_string(first));
        let mut second: Vec<u8> = Vec::new();
        push_str(&mut second, prefix);
        push_str(&mut second, "shortest: ");
        if shortest {
            push_str(&mut second, "true");
        } else {
            push_str(&mut second, "false");
        }
        proof {
            assert(second@ =~= lines[1]);
            lemma_cat(encode_utf8(prefix@), lit("shortest: "));
            lemma_cat(encode_utf8(prefix@) + lit("shortest: "), bool_text(shortest));
        }
        res.push(bytes_to_string(second));
        let list = if shortest { &self.shortest_options } else { &self.choice_indices };
        let mut k: usize = 0;
        while k < list.len()
            invariant
                k <= list@.len(),
                list@ == listed(self@, shortest),
                lines == option_lines(self@, shortest, prefix@),
                res@.len() == 2 + k,
                forall|t: int| 0 <= t < res@.len() ==> #[trigger] res@[t]@ == decode_utf8(lines[t]),
                forall|t: int| 0 <= t < list@.len() ==> #[trigger] list@[t] < self.choices@.len(),
                forall|j: int| 0 <= j < self.choices@.len() ==> text_ok(#[trigger] self.choices@[j]@),
                forall|j: int| 0 <= j < self.choices@.len() ==> #[trigger] view_items(self.choices@)[j] == self.choices@[j]@,
                view_items(self.choices@).len() == self.choices@.len(),
                valid_utf8(encode_utf8(prefix@)),
            decreases list@.len() - k,
        {
            let idx = list[k];
            assert(idx < self.choices@.len());
            let mut line: Vec<u8> = Vec::new();
            push_str(&mut line, prefix);
            self.choices[idx].write_text(&mut line);
            proof {
                let o = self@;
                let tail = Seq::new(
                    listed(o, shortest).len(),
                    |t: int| encode_utf8(prefix@) + item_text(o.choices[listed(o, shortest)[t] as int]),
                );
                assert(lines == seq![
                    encode_utf8(prefix@) + lit("keep: ") + bool_text(o.keep),
                    encode_utf8(prefix@) + lit("shortest: ") + bool_text(shortest),
                ] + tail);
                assert(lines[2 + k] == tail[k as int]);
                assert(o.choices[idx as int] == self.choices@[idx as int]@);
                assert(line@ =~= lines[2 + k]);
                lemma_text_valid(self.choices@[idx as int]@);
                lemma_cat(encode_utf8(prefix@), item_text(self.choices@[idx as int]@));
            }
            res.push(bytes_to_string(line));
            k += 1;
        }
        res
    }
}

} // verus!
