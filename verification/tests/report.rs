use samply_hotspots::counts::{add_count, CountTable};
use samply_hotspots::resolve::{atos_lines, atos_symbols};
use samply_hotspots::report::{
    keys_to_resolve, labeled_top, line_counts, line_level_addresses, table_total,
};

fn s(x: &str) -> String {
    x.to_string()
}

fn table(entries: &[(&str, u64)]) -> CountTable<String> {
    let mut t = CountTable::new();
    for (k, c) in entries {
        add_count(&mut t, s(k), *c);
    }
    t
}

#[test]
fn keys_to_resolve_unites_both_rankings() {
    let leaf = table(&[("a", 5), ("b", 1), ("c", 3)]);
    let all = table(&[("a", 9), ("d", 8), ("b", 7)]);
    let mut keys = keys_to_resolve(&leaf, &all, 2);
    keys.sort();
    assert_eq!(keys, vec![s("a"), s("c"), s("d")]);
    let keys = keys_to_resolve(&leaf, &all, 0);
    assert!(keys.is_empty());
}

#[test]
fn labeled_rows_use_resolved_names() {
    let counts = table(&[("0x10", 3), ("0x20", 9), ("main", 1)]);
    let resolved = vec![(s("0x20"), s("hot_fn")), (s("main"), s("main"))];
    assert_eq!(
        labeled_top(&counts, &resolved, 10),
        vec![(s("hot_fn"), 9), (s("0x10"), 3), (s("main"), 1)]
    );
    assert_eq!(labeled_top(&counts, &resolved, 1), vec![(s("hot_fn"), 9)]);
}

#[test]
fn totals_sum_all_counts() {
    assert_eq!(table_total(&table(&[("a", 5), ("b", 7)])), Some(12));
    assert_eq!(table_total(&table(&[])), Some(0));
    assert_eq!(table_total(&table(&[("a", u64::MAX), ("b", 1)])), None);
}

#[test]
fn line_level_addresses_skip_non_hex_names() {
    let addr = table(&[("0x10", 4), ("main", 9), ("0x20", 2)]);
    assert_eq!(
        line_level_addresses(&addr, 0x1000, 10).unwrap(),
        vec![(s("0x10"), 0x1010), (s("0x20"), 0x1020)]
    );
    assert_eq!(line_level_addresses(&addr, 0x1000, 2).unwrap(), vec![(s("0x10"), 0x1010)]);
    assert!(line_level_addresses(&addr, u64::MAX, 10).is_err());
}

#[test]
fn line_counts_group_by_source_location() {
    let addr = table(&[("0x10", 4), ("0x20", 2), ("0x30", 1), ("0x40", 8)]);
    let symbols = vec![
        (s("0x10"), s("hot::inner (in app) (lib.rs:10)")),
        (s("0x20"), s("hot::inner (in app) (lib.rs:10)")),
        (s("0x30"), s("hot::outer (in app) (lib.rs:20)")),
        (s("0x40"), s("cold (in app) (main.rs:1)")),
    ];
    let lines = line_counts("hot", &addr, &symbols, &symbols).unwrap();
    assert_eq!(lines.len(), 2);
    assert_eq!(lines.get(&s("lib.rs:10")), 6);
    assert_eq!(lines.get(&s("lib.rs:20")), 1);
    let none = line_counts("absent", &addr, &symbols, &symbols).unwrap();
    assert_eq!(none.len(), 0);
}

#[test]
fn line_level_breakdown_reads_locations_from_atos_lines() {
    let addr = table(&[("0x10", 3), ("0x20", 2), ("0x30", 5)]);
    let chunk = vec![(s("0x10"), 0x1010), (s("0x20"), 0x1020), (s("0x30"), 0x1030)];
    let stdout = "f (in app) (main.rs:10)\nf (in app) (main.rs:12)\ng (in app) (lib.rs:3)\n";
    let symbols = atos_symbols(&chunk, stdout);
    let lines = atos_lines(&chunk, stdout);
    assert_eq!(symbols[0].1, s("f"));
    let f = line_counts("f", &addr, &symbols, &lines).unwrap();
    assert_eq!(f.len(), 2);
    assert_eq!(f.get(&s("main.rs:10")), 3);
    assert_eq!(f.get(&s("main.rs:12")), 2);
    assert_eq!(table_total(&f), Some(5));
    let g = line_counts("g", &addr, &symbols, &lines).unwrap();
    assert_eq!(g.get(&s("lib.rs:3")), 5);
    // without a recorded line the location comes from the symbol itself
    let bare = line_counts("f", &addr, &symbols, &Vec::new()).unwrap();
    assert_eq!(bare.get(&s("f")), 5);
}

#[test]
fn line_level_location_without_debug_info_is_the_function() {
    let addr = table(&[("0x10", 3), ("0x20", 4)]);
    let chunk = vec![(s("0x10"), 0x1010), (s("0x20"), 0x1020)];
    let stdout = "f (in app) + 12\nf (in app) (main.rs:7)\n";
    let symbols = atos_symbols(&chunk, stdout);
    let lines = atos_lines(&chunk, stdout);
    let f = line_counts("f", &addr, &symbols, &lines).unwrap();
    assert_eq!(f.get(&s("f")), 3);
    assert_eq!(f.get(&s("main.rs:7")), 4);
    assert_eq!(f.len(), 2);
}
