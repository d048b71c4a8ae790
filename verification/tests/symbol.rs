use samply_hotspots::number::parse_hex;
use samply_hotspots::symbol::{clean_atos_symbol, prettify, symbol_location, trim_hash_suffix};

#[test]
fn trims_rust_hash_suffix() {
    assert_eq!(prettify("foo::bar::h0123456789abcdef"), "foo::bar");
    assert_eq!(
        prettify("foo::bar::hnotreallyhash"),
        "foo::bar::hnotreallyhash"
    );
}

#[test]
fn parses_hex_with_or_without_prefix() {
    assert_eq!(parse_hex("0x10"), Some(16));
    assert_eq!(parse_hex("10"), Some(16));
    assert_eq!(parse_hex("not_hex"), None);
}

#[test]
fn trim_hash_suffix_uses_the_last_separator() {
    assert_eq!(trim_hash_suffix("a::hb::h0123456789ABCDEF"), "a::hb");
    assert_eq!(trim_hash_suffix("a::h0123456789abcdef::x"), "a::h0123456789abcdef::x");
    assert_eq!(trim_hash_suffix("a::h0123456789abcde"), "a::h0123456789abcde");
    assert_eq!(trim_hash_suffix("::h0123456789abcdef"), "");
    assert_eq!(trim_hash_suffix("plain"), "plain");
}

#[test]
fn prettify_undoes_mangling_escapes() {
    assert_eq!(
        prettify("_$LT$alloc..vec..Vec$LT$T$GT$$u20$as$u20$core..ops..drop..Drop$GT$::drop::h0123456789abcdef"),
        "<alloc..vec..Vec<T> as core..ops..drop..Drop>::drop"
    );
    assert_eq!(prettify("f$LP$$RF$x$C$y$RP$"), "f(&x,y)");
    assert_eq!(prettify("$u7b$$u7b$closure$u7d$$u7d$"), "{{closure}}");
    assert_eq!(prettify("no_escapes_here"), "no_escapes_here");
}

#[test]
fn clean_atos_symbol_keeps_the_symbol_part() {
    assert_eq!(
        clean_atos_symbol("  foo::bar::h0123456789abcdef (in my_binary) (main.rs:10)\n"),
        "foo::bar"
    );
    assert_eq!(clean_atos_symbol("0x100003f00"), "0x100003f00");
    assert_eq!(clean_atos_symbol("   "), "");
    assert_eq!(clean_atos_symbol("a (in b) (in c)"), "a");
}

#[test]
fn symbol_location_takes_the_last_parenthesis() {
    assert_eq!(symbol_location("foo (in bin) (main.rs:12)"), "main.rs:12");
    assert_eq!(symbol_location("foo (in bin) (main.rs:12))"), "main.rs:12");
    assert_eq!(symbol_location("foo"), "foo");
    assert_eq!(symbol_location("foo ("), "");
}
