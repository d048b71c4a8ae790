//! What the summaries show: which keys are symbolicated, the labelled
//! ranking rows, totals, and the line-level breakdown of target functions.

use vstd::prelude::*;

use crate::counts::{
    add_one, count_in, entries_total, entries_view, is_top, sorted_top, total_of, Count, CountKey,
    CountTable,
};
use crate::number::{parse_hex, parse_hex_spec};
use crate::resolve::{
    addresses_view, labels_view, lookup_label, lookup_label_spec, ResolveError,
};
use crate::symbol::{symbol_location, symbol_location_spec};
use crate::text::{chars_of, contains, contains_spec};

verus! {

/// The views of a list of keys.
pub open spec fn key_list_view<K: View>(v: Seq<K>) -> Seq<K::V> {
    v.map_values(|k: K| k@)
}

/// The keys to symbolicate: those among the `limit` best of SELF or of
/// TOTAL, each once.
pub fn keys_to_resolve<K: CountKey>(leaf: &CountTable<K>, all: &CountTable<K>, limit: usize) -> (r: Vec<K>)
    requires
        leaf.wf(),
        all.wf(),
    ensures
        key_list_view(r@).no_duplicates(),
        exists|tl: Seq<(K::V, nat)>, ta: Seq<(K::V, nat)>|
            is_top::<K>(leaf@, limit as nat, tl) && is_top::<K>(all@, limit as nat, ta) && (
            forall|k: K::V|
                #[trigger] key_list_view(r@).contains(k) <==> (exists|i: int|
                    0 <= i < tl.len() && tl[i].0 == k) || (exists|i: int|
                    0 <= i < ta.len() && ta[i].0 == k)),
{
    let top_leaf = sorted_top(leaf, limit);
    let top_all = sorted_top(all, limit);
    let ghost tl = entries_view(top_leaf@);
    let ghost ta = entries_view(top_all@);
    let mut r: Vec<K> = Vec::new();
    let nl = top_leaf.len();
    for i in 0..nl
        invariant
            nl == top_leaf@.len(),
            tl == entries_view(top_leaf@),
            key_list_view(r@).no_duplicates(),
            forall|k: K::V|
                #[trigger] key_list_view(r@).contains(k) <==> exists|j: int|
                    0 <= j < i && tl[j].0 == k,
    {
        push_new_key(&mut r, &top_leaf[i].0);
        proof {
            assert(tl[i as int].0 == top_leaf@[i as int].0@);
        }
    }
    let na = top_all.len();
    for i in 0..na
        invariant
            na == top_all@.len(),
            nl == top_leaf@.len(),
            tl == entries_view(top_leaf@),
            ta == entries_view(top_all@),
            key_list_view(r@).no_duplicates(),
            forall|k: K::V|
                #[trigger] key_list_view(r@).contains(k) <==> (exists|j: int|
                    0 <= j < nl && tl[j].0 == k) || (exists|j: int| 0 <= j < i && ta[j].0 == k),
    {
        push_new_key(&mut r, &top_all[i].0);
        proof {
            assert(ta[i as int].0 == top_all@[i as int].0@);
        }
    }
    r
}

/// Appends a copy of `key` unless a key with the same view is present.
fn push_new_key<K: CountKey>(r: &mut Vec<K>, key: &K)
    requires
        key_list_view(old(r)@).no_duplicates(),
    ensures
        key_list_view(final(r)@).no_duplicates(),
        forall|k: K::V| #[trigger]
            key_list_view(final(r)@).contains(k) <==> key_list_view(old(r)@).contains(k) || k
                == key@,
{
    let ghost kv = key_list_view(r@);
    let n = r.len();
    for i in 0..n
        invariant
            n == r@.len(),
            kv == key_list_view(r@),
            kv.no_duplicates(),
            forall|j: int| 0 <= j < i ==> kv[j] != key@,
    {
        if r[i].same_key(key) {
            proof {
                assert(kv[i as int] == key@);
            }
            return;
        }
    }
    let ghost old_r = r@;
    r.push(key.copy_key());
    proof {
        assert(key_list_view(r@) == kv.push(key@));
        assert forall|k: K::V| #[trigger] key_list_view(r@).contains(k) <==> kv.contains(k) || k == key@ by {
            if kv.contains(k) {
                let j = choose|j: int| 0 <= j < kv.len() && kv[j] == k;
                assert(key_list_view(r@)[j] == k);
            }
            if k == key@ {
                assert(key_list_view(r@)[n as int] == k);
            }
        }
    }
}

/// The label shown for `key`: its resolved symbol, else its fallback text.
pub open spec fn label_spec<K: CountKey>(labels: Seq<(K::V, Seq<char>)>, key: K::V) -> Seq<char> {
    match lookup_label_spec(labels, key) {
        Some(s) => s,
        None => K::fallback_label_spec(key),
    }
}

/// The rows of a ranking section: the `top` best entries, best first, each
/// with its label and count.
pub fn labeled_top<K: CountKey>(counts: &CountTable<K>, resolved: &Vec<(K, String)>, top: usize) -> (r:
    Vec<(String, Count)>)
    requires
        counts.wf(),
    ensures
        exists|t: Seq<(K::V, nat)>|
            is_top::<K>(counts@, top as nat, t) && r@.len() == t.len() && (forall|i: int|
                0 <= i < t.len() ==> (#[trigger] r@[i]).0@ == label_spec::<K>(
                    labels_view(resolved@),
                    t[i].0,
                ) && r@[i].1 as nat == t[i].1),
{
    let entries = sorted_top(counts, top);
    let ghost t = entries_view(entries@);
    let mut r: Vec<(String, Count)> = Vec::new();
    let n = entries.len();
    for i in 0..n
        invariant
            n == entries@.len(),
            t == entries_view(entries@),
            r@.len() == i,
            forall|j: int|
                0 <= j < i ==> (#[trigger] r@[j]).0@ == label_spec::<K>(
                    labels_view(resolved@),
                    t[j].0,
                ) && r@[j].1 as nat == t[j].1,
    {
        let key = &entries[i].0;
        assert(t[i as int].0 == key@);
        let label = match lookup_label(resolved, key) {
            Some(s) => s,
            None => key.fallback_label(),
        };
        r.push((label, entries[i].1));
    }
    r
}

/// The sum of all counts of `t`, or `None` when it exceeds the `u64` range.
pub fn table_total<K: CountKey>(t: &CountTable<K>) -> (r: Option<Count>)
    requires
        t.wf(),
    ensures
        match r {
            Some(v) => v as nat == total_of(t),
            None => total_of(t) > Count::MAX,
        },
{
    let n = t.len();
    let mut sum: Count = 0;
    for i in 0..n
        invariant
            n == t.size(),
            t.wf(),
            sum as nat == entries_total(t, i as nat),
    {
        let (_, c) = t.entry(i);
        if c > Count::MAX - sum {
            proof {
                lemma_entries_total_mono(t, (i + 1) as nat, n as nat);
            }
            return None;
        }
        sum = sum + c;
    }
    Some(sum)
}

proof fn lemma_entries_total_mono<K: CountKey>(t: &CountTable<K>, i: nat, n: nat)
    requires
        i <= n,
    ensures
        entries_total(t, i) <= entries_total(t, n),
    decreases n - i,
{
    if i < n {
        lemma_entries_total_mono(t, i, (n - 1) as nat);
    }
}

/// The addresses of the line-level breakdown: the `limit` best address
/// entries whose names are hexadecimal, offset by `base`, best first.
pub open spec fn line_addresses_spec(top: Seq<(Seq<char>, nat)>, base: nat) -> Result<
    Seq<(Seq<char>, u64)>,
    ResolveError,
>
    decreases top.len(),
{
    if top.len() == 0 {
        Ok(Seq::empty())
    } else {
        match line_addresses_spec(top.drop_last(), base) {
            Err(e) => Err(e),
            Ok(v) => {
                let raw = top.last().0;
                match parse_hex_spec(raw) {
                    None => Ok(v),
                    Some(a) => if base + a > u64::MAX {
                        Err(ResolveError::AddressOverflow)
                    } else {
                        Ok(v.push((raw, (base + a) as u64)))
                    },
                }
            },
        }
    }
}

/// The addresses to symbolicate for line-level breakdowns.
pub fn line_level_addresses(addr_counts: &CountTable<String>, base: u64, limit: usize) -> (r: Result<
    Vec<(String, u64)>,
    ResolveError,
>)
    requires
        addr_counts.wf(),
    ensures
        exists|t: Seq<(Seq<char>, nat)>|
            is_top::<String>(addr_counts@, limit as nat, t) && match r {
                Ok(v) => line_addresses_spec(t, base as nat) == Ok::<
                    Seq<(Seq<char>, u64)>,
                    ResolveError,
                >(addresses_view(v@)),
                Err(e) => line_addresses_spec(t, base as nat) == Err::<
                    Seq<(Seq<char>, u64)>,
                    ResolveError,
                >(e),
            },
{
    let top = sorted_top(addr_counts, limit);
    let ghost t = entries_view(top@);
    let mut v: Vec<(String, u64)> = Vec::new();
    let n = top.len();
    assert(t.take(0) == Seq::<(Seq<char>, nat)>::empty());
    assert(addresses_view(v@) == Seq::<(Seq<char>, u64)>::empty());
    for i in 0..n
        invariant
            n == top@.len(),
            t == entries_view(top@),
            is_top::<String>(addr_counts@, limit as nat, t),
            line_addresses_spec(t.take(i as int), base as nat) == Ok::<
                Seq<(Seq<char>, u64)>,
                ResolveError,
            >(addresses_view(v@)),
    {
        let raw = &top[i].0;
        assert(t.take(i + 1).drop_last() == t.take(i as int));
        assert(t.take(i + 1).last().0 == raw@);
        if let Some(addr) = parse_hex(raw.as_str()) {
            if addr > u64::MAX - base {
                proof {
                    lemma_line_addresses_err(t, base as nat, (i + 1) as int);
                    assert(t.take(n as int) == t);
                }
                return Err(ResolveError::AddressOverflow);
            }
            let ghost old_v = v@;
            v.push((raw.clone(), base + addr));
            assert(addresses_view(v@) == addresses_view(old_v).push((raw@, (base + addr) as u64)));
        }
    }
    assert(t.take(n as int) == t);
    Ok(v)
}

proof fn lemma_line_addresses_err(t: Seq<(Seq<char>, nat)>, base: nat, i: int)
    requires
        0 <= i <= t.len(),
        line_addresses_spec(t.take(i), base) is Err,
    ensures
        line_addresses_spec(t, base) == line_addresses_spec(t.take(i), base),
    decreases t.len() - i,
{
    if i < t.len() {
        assert(t.take(i + 1).drop_last() == t.take(i));
        lemma_line_addresses_err(t, base, i + 1);
    } else {
        assert(t.take(i) == t);
    }
}

/// The text whose trailing `(file:line)` names the source location of
/// `key`: its `atos` line where one is recorded, else its symbol.
pub open spec fn location_text_spec(
    lines: Seq<(Seq<char>, Seq<char>)>,
    key: Seq<char>,
    sym: Seq<char>,
) -> Seq<char> {
    match lookup_label_spec(lines, key) {
        Some(l) => l,
        None => sym,
    }
}

/// The line-level counts of `target` over the first `n` address entries of
/// `addr_counts`: each address whose symbol contains `target` adds its count
/// to the source location read from its `atos` line.  `None` when a count
/// exceeds the `u64` range.
pub open spec fn line_counts_spec(
    target: Seq<char>,
    addr_counts: &CountTable<String>,
    symbols: Seq<(Seq<char>, Seq<char>)>,
    lines: Seq<(Seq<char>, Seq<char>)>,
    n: nat,
) -> Option<Map<Seq<char>, nat>>
    decreases n,
{
    if n == 0 {
        Some(Map::empty())
    } else {
        match line_counts_spec(target, addr_counts, symbols, lines, (n - 1) as nat) {
            None => None,
            Some(m) => match lookup_label_spec(symbols, addr_counts.key_at(n - 1)) {
                None => Some(m),
                Some(sym) => if contains_spec(sym, target) {
                    let loc = symbol_location_spec(
                        location_text_spec(lines, addr_counts.key_at(n - 1), sym),
                    );
                    let c = count_in(m, loc) + addr_counts.count_at(n - 1);
                    if c > Count::MAX {
                        None
                    } else {
                        Some(add_one(m, loc, addr_counts.count_at(n - 1)))
                    }
                } else {
                    Some(m)
                },
            },
        }
    }
}

/// The inclusive samples of `target` per source line: over every address
/// whose symbol (from `symbols`, as `atos_symbols` gave them) contains
/// `target`, the address count is added to the location that ends its line
/// (from `lines`, as `atos_lines` gave them).
pub fn line_counts(
    target: &str,
    addr_counts: &CountTable<String>,
    symbols: &Vec<(String, String)>,
    lines: &Vec<(String, String)>,
) -> (r: Option<CountTable<String>>)
    requires
        addr_counts.wf(),
    ensures
        match r {
            Some(t) => t.wf() && line_counts_spec(
                target@,
                addr_counts,
                labels_view(symbols@),
                labels_view(lines@),
                addr_counts.size(),
            ) == Some(t@),
            None => line_counts_spec(
                target@,
                addr_counts,
                labels_view(symbols@),
                labels_view(lines@),
                addr_counts.size(),
            ) is None,
        },
{
    let ghost sv = labels_view(symbols@);
    let ghost lv = labels_view(lines@);
    let target_chars = chars_of(target);
    let mut out: CountTable<String> = CountTable::new();
    let n = addr_counts.len();
    for i in 0..n
        invariant
            n == addr_counts.size(),
            addr_counts.wf(),
            sv == labels_view(symbols@),
            lv == labels_view(lines@),
            target_chars@ == target@,
            out.wf(),
            line_counts_spec(target@, addr_counts, sv, lv, i as nat) == Some(out@),
    {
        let (raw, c) = addr_counts.entry(i);
        match lookup_label(symbols, raw) {
            None => {},
            Some(sym) => {
                let sym_chars = chars_of(sym.as_str());
                if contains(&sym_chars, &target_chars) {
                    let text = match lookup_label(lines, raw) {
                        Some(l) => l,
                        None => sym,
                    };
                    let loc = symbol_location(text.as_str());
                    let slot = out.slot(loc);
                    if !out.add_at(slot, c) {
                        proof {
                            lemma_line_counts_none(target@, addr_counts, sv, lv, (i + 1) as nat, n as nat);
                        }
                        return None;
                    }
                }
            },
        }
    }
    Some(out)
}

proof fn lemma_line_counts_none(
    target: Seq<char>,
    addr_counts: &CountTable<String>,
    symbols: Seq<(Seq<char>, Seq<char>)>,
    lines: Seq<(Seq<char>, Seq<char>)>,
    i: nat,
    n: nat,
)
    requires
        i <= n,
        line_counts_spec(target, addr_counts, symbols, lines, i) is None,
    ensures
        line_counts_spec(target, addr_counts, symbols, lines, n) is None,
    decreases n - i,
{
    if i < n {
        lemma_line_counts_none(target, addr_counts, symbols, lines, i, (n - 1) as nat);
    }
}

} // verus!
