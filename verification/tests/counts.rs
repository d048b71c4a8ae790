use samply_hotspots::counts::{add_count, sorted_top, CountTable, MixedKey};

fn s(x: &str) -> String {
    x.to_string()
}

#[test]
fn add_count_accumulates_per_key() {
    let mut t: CountTable<String> = CountTable::new();
    add_count(&mut t, s("a"), 2);
    add_count(&mut t, s("b"), 1);
    add_count(&mut t, s("a"), 3);
    add_count(&mut t, s("c"), 0);
    assert_eq!(t.len(), 3);
    assert_eq!(t.get(&s("a")), 5);
    assert_eq!(t.get(&s("b")), 1);
    assert_eq!(t.get(&s("c")), 0);
    assert_eq!(t.get(&s("d")), 0);
}

#[test]
fn sorted_top_orders_by_count_then_key() {
    let mut t: CountTable<String> = CountTable::new();
    add_count(&mut t, s("zeta"), 5);
    add_count(&mut t, s("alpha"), 5);
    add_count(&mut t, s("mid"), 7);
    add_count(&mut t, s("low"), 1);
    add_count(&mut t, s("Beta"), 5);
    let all = sorted_top(&t, 10);
    assert_eq!(
        all,
        vec![(s("mid"), 7), (s("Beta"), 5), (s("alpha"), 5), (s("zeta"), 5), (s("low"), 1)]
    );
    let top2 = sorted_top(&t, 2);
    assert_eq!(top2, vec![(s("mid"), 7), (s("Beta"), 5)]);
    assert!(sorted_top(&t, 0).is_empty());
    let empty: CountTable<String> = CountTable::new();
    assert!(sorted_top(&empty, 5).is_empty());
}

#[test]
fn sorted_top_orders_mixed_keys_like_derived_ord() {
    let key = |image: Option<&str>, raw: &str| MixedKey { image: image.map(|i| i.to_string()), raw: raw.to_string() };
    let mut t: CountTable<MixedKey> = CountTable::new();
    add_count(&mut t, key(Some("/b"), "0x1"), 3);
    add_count(&mut t, key(None, "0x9"), 3);
    add_count(&mut t, key(Some("/a"), "0x2"), 3);
    add_count(&mut t, key(Some("/a"), "0x1"), 3);
    let top = sorted_top(&t, 10);
    let order: Vec<(Option<String>, String)> = top.iter().map(|(k, _)| (k.image.clone(), k.raw.clone())).collect();
    let mut expected = order.clone();
    expected.sort();
    assert_eq!(order, expected);
    assert_eq!(order[0], (None, s("0x9")));
}

#[test]
fn sorted_top_matches_a_plain_sort() {
    let mut t: CountTable<String> = CountTable::new();
    let mut reference: Vec<(String, u64)> = Vec::new();
    for i in 0..40u64 {
        let name = format!("f{}", (i * 7919) % 23);
        let w = (i * 31) % 5;
        add_count(&mut t, name.clone(), w);
        match reference.iter_mut().find(|(k, _)| *k == name) {
            Some(e) => e.1 += w,
            None => reference.push((name, w)),
        }
    }
    reference.sort_by(|l, r| r.1.cmp(&l.1).then_with(|| l.0.cmp(&r.0)));
    reference.truncate(7);
    assert_eq!(sorted_top(&t, 7), reference);
}

#[test]
fn shorter_ranking_is_a_prefix_of_a_longer_one() {
    let mut t: CountTable<String> = CountTable::new();
    for (i, name) in ["q", "b", "x", "a", "m", "b", "x", "x"].iter().enumerate() {
        add_count(&mut t, s(name), (i as u64) % 3 + 1);
    }
    let long = sorted_top(&t, 40);
    for top in 0..8 {
        let short = sorted_top(&t, top);
        assert_eq!(short.len(), top.min(long.len()));
        assert_eq!(&long[..short.len()], &short[..]);
        // the same request always gives the same rows
        assert_eq!(sorted_top(&t, top), short);
    }
}

#[test]
fn full_ranking_lists_every_entry_once() {
    let mut t: CountTable<String> = CountTable::new();
    for (i, name) in ["q", "b", "x", "a", "m", "b", "x", "x"].iter().enumerate() {
        add_count(&mut t, s(name), (i as u64) % 3 + 1);
    }
    let full = sorted_top(&t, t.len());
    assert_eq!(full.len(), t.len());
    for i in 0..t.len() {
        let (k, c) = t.entry(i);
        assert_eq!(full.iter().filter(|(fk, fc)| fk == k && *fc == c).count(), 1);
    }
    assert_eq!(sorted_top(&t, 100), full);
}
