use samply_hotspots::counts::MixedKey;
use samply_hotspots::resolve::{
    atos_arguments, atos_chunks, atos_lines, atos_symbols, lookup_label, record_image_symbols, resolve_mixed,
    resolve_single, ResolveError,
};

fn s(x: &str) -> String {
    x.to_string()
}

fn key(image: Option<&str>, raw: &str) -> MixedKey {
    MixedKey { image: image.map(|i| i.to_string()), raw: raw.to_string() }
}

#[test]
fn single_plan_sends_addresses_to_atos() {
    let names = vec![s("0x10"), s("main::h0123456789abcdef"), s("20")];
    let plan = resolve_single(&names, 0x1_0000_0000).unwrap();
    assert_eq!(plan.resolved, vec![(s("main::h0123456789abcdef"), s("main"))]);
    assert_eq!(plan.addresses, vec![(s("0x10"), 0x1_0000_0010), (s("20"), 0x1_0000_0020)]);
}

#[test]
fn single_plan_reports_address_overflow() {
    let names = vec![s("x"), s("0x10")];
    assert!(matches!(resolve_single(&names, u64::MAX - 8), Err(ResolveError::AddressOverflow)));
    assert!(resolve_single(&names, u64::MAX - 16).is_ok());
}

#[test]
fn mixed_plan_groups_addresses_by_image() {
    let keys = vec![
        key(Some("/a"), "0x1"),
        key(None, "0x2"),
        key(Some("/b"), "0x3"),
        key(Some("/a"), "f::h0123456789abcdef"),
        key(Some("/a"), "0x4"),
    ];
    let plan = resolve_mixed(&keys);
    let resolved: Vec<(Option<String>, String, String)> =
        plan.resolved.iter().map(|(k, v)| (k.image.clone(), k.raw.clone(), v.clone())).collect();
    assert_eq!(
        resolved,
        vec![(None, s("0x2"), s("0x2")), (Some(s("/a")), s("f::h0123456789abcdef"), s("f"))]
    );
    assert_eq!(
        plan.by_image,
        vec![(s("/a"), vec![(s("0x1"), 1), (s("0x4"), 4)]), (s("/b"), vec![(s("0x3"), 3)])]
    );
}

#[test]
fn image_symbols_are_recorded_under_their_image() {
    let mut resolved = vec![(key(None, "0x2"), s("0x2"))];
    record_image_symbols(&mut resolved, &s("/a"), &vec![(s("0x1"), s("alpha"))]);
    assert_eq!(lookup_label(&resolved, &key(Some("/a"), "0x1")), Some(s("alpha")));
    assert_eq!(lookup_label(&resolved, &key(Some("/b"), "0x1")), None);
    assert_eq!(lookup_label(&resolved, &key(None, "0x2")), Some(s("0x2")));
}

#[test]
fn later_labels_override_earlier_ones() {
    let labels = vec![(s("a"), s("first")), (s("b"), s("b")), (s("a"), s("second"))];
    assert_eq!(lookup_label(&labels, &s("a")), Some(s("second")));
    assert_eq!(lookup_label(&labels, &s("c")), None);
}

#[test]
fn atos_arguments_are_hexadecimal() {
    let chunk = vec![(s("0x10"), 0x1_0000_0010), (s("0x20"), 0x1_0000_0020)];
    assert_eq!(
        atos_arguments(0x1_0000_0000, &chunk),
        vec![s("-l"), s("0x100000000"), s("0x100000010"), s("0x100000020")]
    );
}

#[test]
fn atos_output_keeps_raw_names_when_unresolved() {
    let chunk = vec![(s("0x10"), 16), (s("0x20"), 32), (s("0x30"), 48)];
    let out = atos_symbols(&chunk, "foo::h0123456789abcdef (in app) (a.rs:1)\r\n   \n");
    assert_eq!(out, vec![(s("0x10"), s("foo")), (s("0x20"), s("0x20")), (s("0x30"), s("0x30"))]);
    let out = atos_symbols(&chunk, "");
    assert_eq!(out, vec![(s("0x10"), s("0x10")), (s("0x20"), s("0x20")), (s("0x30"), s("0x30"))]);
    let out = atos_symbols(&chunk, "a\n\nc");
    assert_eq!(out, vec![(s("0x10"), s("a")), (s("0x20"), s("0x20")), (s("0x30"), s("c"))]);
}

#[test]
fn atos_lines_keep_the_source_location() {
    let chunk = vec![(s("0x10"), 0x10), (s("0x20"), 0x20), (s("0x30"), 0x30)];
    let out = atos_lines(&chunk, "  foo::h0123456789abcdef (in app) (a.rs:1)\r\n   \n");
    assert_eq!(
        out,
        vec![
            (s("0x10"), s("foo::h0123456789abcdef (in app) (a.rs:1)")),
            (s("0x20"), s("0x20")),
            (s("0x30"), s("0x30")),
        ]
    );
    assert_eq!(atos_lines(&chunk, "").len(), 3);
}

#[test]
fn atos_chunks_split_in_order() {
    let addrs: Vec<(String, u64)> = (0..7u64).map(|i| (format!("0x{i:x}"), i)).collect();
    let chunks = atos_chunks(&addrs, 3);
    assert_eq!(chunks.iter().map(|c| c.len()).collect::<Vec<_>>(), vec![3, 3, 1]);
    assert_eq!(chunks.concat(), addrs);
    let reference: Vec<Vec<(String, u64)>> = addrs.chunks(3).map(|c| c.to_vec()).collect();
    assert_eq!(chunks, reference);
    assert_eq!(atos_chunks(&addrs, 7).len(), 1);
    assert!(atos_chunks(&Vec::new(), 4).is_empty());
}

#[test]
fn atos_lines_without_source_fall_back_to_the_symbol() {
    let chunk = vec![(s("0x10"), 0x10), (s("0x20"), 0x20)];
    let out = atos_lines(&chunk, "foo::h0123456789abcdef (in app) + 12\n0x20\n");
    assert_eq!(out, vec![(s("0x10"), s("foo")), (s("0x20"), s("0x20"))]);
}
