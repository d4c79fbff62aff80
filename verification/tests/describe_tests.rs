use resmack::fields::{And, Convertible, Int, Item, Mul, Opt, Or, Ref, Str};

#[test]
fn it_works() {
    let and_test = And::new("|").add_item("Hello");
    println!("{}", and_test.to_string());
}

#[test]
fn describe_and() {
    let and_test = And::new("|").add_item("Hello");
    assert_eq!(and_test.to_string(), "And<sep=| u8[Hello]>");
}

#[test]
fn describe_escaped_bytes() {
    let item: Item = (&b"a\tb\"\\\x9d"[..]).convert();
    assert_eq!(item.to_string(), "u8[a\\tb\\\"\\\\\\x9d]");
}

#[test]
fn describe_nested() {
    let mut or = Or::new();
    or.add_item(Ref::new("rule"));
    or.add_item(Int::new(-3, 7));
    let item: Item = And::new(", ")
        .add_item(or)
        .add_item(Mul::new(Opt::new("x"), 1, 4))
        .add_item(Str::new(0, 5, "ab\""))
        .convert();
    assert_eq!(
        item.to_string(),
        "And<sep=,  Or<keep=false Ref<rule>, Int<min=-3 max=7>>, <Mul {[1,4)} Opt<u8[x]>>, Str<min=0 max=5 charset=\"ab\\\"\">>"
    );
}

#[test]
fn option_lines_list_options() {
    let mut or = Or::new();
    or.add_item("a");
    or.add_item("b");
    let lines = or.option_lines(false, "> ");
    assert_eq!(lines, vec!["> keep: false", "> shortest: false", "> u8[a]", "> u8[b]"]);
    let lines = or.option_lines(true, "");
    assert_eq!(lines, vec!["keep: false", "shortest: true"]);
}
