//! Properties that relate several functions of the library.

use vstd::prelude::*;

use crate::number::{
    digit_char, digit_value, digits_spec, digits_value, format_hex_spec, from_str_radix_spec,
    parse_hex_spec, parse_int_auto_spec,
};
use crate::counts::{
    add_each, add_one, count_in, is_top, lemma_ranks_before_irreflexive,
    lemma_ranks_before_total, lemma_ranks_before_transitive, ranks_before, CountKey, CountTable,
    MixedKey,
};
use crate::parse::{
    sample_frames_spec, stack_prefix_spec, walk_spec, ParseError, frame_index_spec,
    mixed_samples_spec, mixed_threads_spec,
    parse_mixed_spec, parse_single_spec, single_samples_spec,
    single_threads_spec, MixedModel, SingleModel, lib_index_spec,
};
use crate::report::{label_spec, line_counts_spec, location_text_spec};
use crate::resolve::lookup_label_spec;
use crate::symbol::symbol_location_spec;
use crate::paths::{components_spec, file_name_spec, image_matches_spec, split_at_slash};
use crate::profile::{Profile, Samples, Thread};
use crate::symbol::{apply_replacements, prettify_spec, replacements_spec, trim_hash_suffix_spec};
use crate::text::{
    contains_spec, first_match, lemma_first_match_contains, matches_at,
    is_white_space_spec, replace_spec, starts_with_spec, trim_end_spec, trim_spec,
    trim_start_spec,
};

verus! {

proof fn lemma_digit_char_value(d: nat, radix: nat)
    requires
        d < 16,
        16 <= radix <= 36,
    ensures
        digit_value(digit_char(d), radix) == Some(d),
        !is_white_space_spec(digit_char(d)),
        digit_char(d) != '+' && digit_char(d) != '-',
{
    if d < 10 {
        assert((d + 0x30) as char as u32 == d + 0x30);
    } else {
        assert((d - 10 + 0x61) as char as u32 == d - 10 + 0x61);
    }
}

proof fn lemma_digits_roundtrip(v: nat)
    requires
        v <= u64::MAX,
    ensures
        digits_value(digits_spec(v, 16), 16) == Ok::<u64, crate::number::IntErrorKind>(v as u64),
        digits_spec(v, 16).len() > 0,
        forall|i: int|
            0 <= i < digits_spec(v, 16).len() ==> !is_white_space_spec(
                #[trigger] digits_spec(v, 16)[i],
            ) && digits_spec(v, 16)[i] != '+',
    decreases v,
{
    let ds = digits_spec(v, 16);
    lemma_digit_char_value(v % 16, 16);
    if v < 16 {
        assert(ds.drop_last() == Seq::<char>::empty());
        assert(digits_value(ds.drop_last(), 16) == Ok::<u64, crate::number::IntErrorKind>(0));
        assert(ds.last() == digit_char(v));
    } else {
        assert(v / 16 < v) by (nonlinear_arith)
            requires
                v >= 16,
        ;
        lemma_digits_roundtrip(v / 16);
        assert(ds.drop_last() == digits_spec(v / 16, 16));
        assert((v / 16) * 16 + v % 16 == v) by (nonlinear_arith);
        assert(ds.last() == digit_char(v % 16));
        assert forall|i: int| 0 <= i < ds.len() implies !is_white_space_spec(#[trigger] ds[i])
            && ds[i] != '+' by {
            if i < ds.len() - 1 {
                assert(ds[i] == digits_spec(v / 16, 16)[i]);
            }
        }
    }
}

/// Reading back a formatted address gives the address: `parse_hex` undoes
/// `format_hex`.
pub proof fn law_parse_hex_undoes_format_hex(v: u64)
    ensures
        parse_hex_spec(format_hex_spec(v as nat)) == Some(v),
        parse_int_auto_spec(format_hex_spec(v as nat)) == Ok::<u64, crate::number::IntErrorKind>(v),
{
    let s = format_hex_spec(v as nat);
    let ds = digits_spec(v as nat, 16);
    lemma_digits_roundtrip(v as nat);
    assert(s[0] == '0');
    assert(!is_white_space_spec('0'));
    assert(trim_start_spec(s) == s);
    assert(s.last() == ds.last());
    assert(!is_white_space_spec(ds[ds.len() - 1]));
    assert(trim_end_spec(s) == s);
    assert(trim_spec(s) == s);
    assert(s.subrange(0, 2) == seq!['0', 'x']);
    assert(s.skip(2) == ds);
    assert(ds[0] != '+');
    assert(from_str_radix_spec(ds, 16) == digits_value(ds, 16));
}

/// Every key with a SELF count also has a TOTAL count, at least as large.
pub open spec fn self_within_total<V>(leaf: Map<V, nat>, all: Map<V, nat>) -> bool {
    forall|k: V| #[trigger] leaf.contains_key(k) ==> all.contains_key(k) && leaf[k] <= all[k]
}

proof fn lemma_add_each_grows<V>(m: Map<V, nat>, ks: Seq<V>, w: nat, k: V)
    ensures
        count_in(add_each(m, ks, w), k) >= count_in(m, k),
        m.contains_key(k) ==> add_each(m, ks, w).contains_key(k),
    decreases ks.len(),
{
    if ks.len() > 0 {
        lemma_add_each_grows(m, ks.drop_last(), w, k);
    }
}

proof fn lemma_add_each_first<V>(m: Map<V, nat>, ks: Seq<V>, w: nat)
    requires
        ks.len() > 0,
    ensures
        count_in(add_each(m, ks, w), ks[0]) >= count_in(m, ks[0]) + w,
        add_each(m, ks, w).contains_key(ks[0]),
    decreases ks.len(),
{
    let dl = ks.drop_last();
    let prev = add_each(m, dl, w);
    assert(add_each(m, ks, w) == add_one(prev, ks.last(), w));
    if ks.len() == 1 {
        assert(dl.len() == 0);
        assert(prev == m);
        assert(ks.last() == ks[0]);
    } else {
        assert(dl.len() == ks.len() - 1);
        lemma_add_each_first(m, dl, w);
        assert(dl[0] == ks[0]);
    }
}

proof fn lemma_sample_keeps_self_within_total<V>(leaf: Map<V, nat>, all: Map<V, nat>, ks: Seq<V>, w: nat)
    requires
        self_within_total(leaf, all),
    ensures
        self_within_total(
            if ks.len() > 0 {
                add_one(leaf, ks[0], w)
            } else {
                leaf
            },
            add_each(all, ks, w),
        ),
{
    let leaf2 = if ks.len() > 0 {
        add_one(leaf, ks[0], w)
    } else {
        leaf
    };
    let all2 = add_each(all, ks, w);
    assert forall|k: V| #[trigger] leaf2.contains_key(k) implies all2.contains_key(k) && leaf2[k]
        <= all2[k] by {
        lemma_add_each_grows(all, ks, w, k);
        if ks.len() > 0 && k == ks[0] {
            lemma_add_each_first(all, ks, w);
        }
    }
}

proof fn lemma_single_samples_invariant(
    m: SingleModel,
    t: &Thread,
    names: Seq<Seq<char>>,
    flags: Seq<bool>,
    cpu_weighted: bool,
    n: nat,
)
    requires
        self_within_total(m.leaf, m.all),
        m.addr == m.all,
    ensures
        single_samples_spec(m, t, names, flags, cpu_weighted, n) matches Ok(m2) ==> self_within_total(
            m2.leaf,
            m2.all,
        ) && m2.addr == m2.all,
    decreases n,
{
    if n > 0 {
        lemma_single_samples_invariant(m, t, names, flags, cpu_weighted, (n - 1) as nat);
        if let Ok(m1) = single_samples_spec(m, t, names, flags, cpu_weighted, (n - 1) as nat) {
            if let Some(s) = t.samples.stack@[n - 1] {
                if let Ok(frames) = crate::parse::sample_frames_spec(t, s, None) {
                    let tn = crate::parse::target_names(frames, names, flags);
                    let w = crate::parse::weight_spec(&t.samples, cpu_weighted, n - 1) as nat;
                    lemma_sample_keeps_self_within_total(m1.leaf, m1.all, tn, w);
                }
            }
        }
    }
}

proof fn lemma_single_threads_invariant(
    p: &Profile,
    target_libs: Seq<bool>,
    cpu_weighted: bool,
    n: nat,
)
    ensures
        single_threads_spec(p, target_libs, cpu_weighted, n) matches Ok(m) ==> self_within_total(
            m.leaf,
            m.all,
        ) && m.addr == m.all,
    decreases n,
{
    if n > 0 {
        lemma_single_threads_invariant(p, target_libs, cpu_weighted, (n - 1) as nat);
        if let Ok(m) = single_threads_spec(p, target_libs, cpu_weighted, (n - 1) as nat) {
            let t = &p.threads@[n - 1];
            if t.samples.stack@.len() > 0 {
                if let Ok(names) = crate::parse::frame_names_spec(t) {
                    if let Ok(flags) = crate::parse::target_flags_spec(t, target_libs) {
                        lemma_single_samples_invariant(
                            m,
                            t,
                            names,
                            flags,
                            cpu_weighted,
                            t.samples.stack@.len(),
                        );
                    }
                }
            }
        }
    } else {
        let m = crate::parse::empty_single_model();
        assert(self_within_total(m.leaf, m.all));
    }
}

/// In a single-image summary, every function with SELF time has at least as
/// much TOTAL time, and the address counts of the line-level breakdown are
/// the TOTAL counts.
pub proof fn law_single_self_within_total(p: &Profile, target_libs: Seq<bool>, cpu_weighted: bool)
    ensures
        parse_single_spec(p, target_libs, cpu_weighted) matches Ok(m) ==> self_within_total(
            m.leaf,
            m.all,
        ) && m.addr == m.all,
{
    lemma_single_threads_invariant(p, target_libs, cpu_weighted, p.threads@.len());
}

proof fn lemma_mixed_samples_invariant(
    m: MixedModel,
    t: &Thread,
    keys: Seq<(Option<Seq<char>>, Seq<char>)>,
    cpu_weighted: bool,
    n: nat,
)
    requires
        self_within_total(m.leaf, m.all),
    ensures
        mixed_samples_spec(m, t, keys, cpu_weighted, n) matches Ok(m2) ==> self_within_total(
            m2.leaf,
            m2.all,
        ),
    decreases n,
{
    if n > 0 {
        lemma_mixed_samples_invariant(m, t, keys, cpu_weighted, (n - 1) as nat);
        if let Ok(m1) = mixed_samples_spec(m, t, keys, cpu_weighted, (n - 1) as nat) {
            if let Some(s) = t.samples.stack@[n - 1] {
                if let Ok(frames) = crate::parse::sample_frames_spec(t, s, Some(keys.len())) {
                    let ks = crate::parse::keys_of(frames, keys);
                    let w = crate::parse::weight_spec(&t.samples, cpu_weighted, n - 1) as nat;
                    lemma_sample_keeps_self_within_total(m1.leaf, m1.all, ks, w);
                }
            }
        }
    }
}

proof fn lemma_mixed_threads_invariant(p: &Profile, cpu_weighted: bool, n: nat)
    ensures
        mixed_threads_spec(p, cpu_weighted, n) matches Ok(m) ==> self_within_total(m.leaf, m.all),
    decreases n,
{
    if n > 0 {
        lemma_mixed_threads_invariant(p, cpu_weighted, (n - 1) as nat);
        if let Ok(m) = mixed_threads_spec(p, cpu_weighted, (n - 1) as nat) {
            let t = &p.threads@[n - 1];
            if t.samples.stack@.len() > 0 {
                if let Ok(keys) = crate::parse::frame_keys_spec(t, p.libs@) {
                    lemma_mixed_samples_invariant(m, t, keys, cpu_weighted, t.samples.stack@.len());
                }
            }
        }
    } else {
        let m = crate::parse::empty_mixed_model();
        assert(self_within_total(m.leaf, m.all));
    }
}

/// In a multi-image summary, every frame with SELF time has at least as much
/// TOTAL time.
pub proof fn law_mixed_self_within_total(p: &Profile, cpu_weighted: bool)
    ensures
        parse_mixed_spec(p, cpu_weighted) matches Ok(m) ==> self_within_total(m.leaf, m.all),
{
    lemma_mixed_threads_invariant(p, cpu_weighted, p.threads@.len());
}

/// The stack reached from stack `s` after `k` steps to a caller, if the
/// chain is that long.
pub open spec fn stack_at(t: &Thread, s: int, k: nat) -> Option<int>
    decreases k,
{
    if k == 0 {
        Some(s)
    } else {
        match stack_prefix_spec(t, s) {
            None => None,
            Some(n) => stack_at(t, n as int, (k - 1) as nat),
        }
    }
}

proof fn lemma_stack_at_add(t: &Thread, s: int, a: nat, c: nat)
    requires
        stack_at(t, s, a) is Some,
    ensures
        stack_at(t, s, a + c) == stack_at(t, stack_at(t, s, a)->0, c),
    decreases a,
{
    if a > 0 {
        let n = stack_prefix_spec(t, s)->0;
        lemma_stack_at_add(t, n as int, (a - 1) as nat, c);
        assert((a + c - 1) as nat == (a - 1) as nat + c);
    }
}

proof fn lemma_stack_at_prefix_some(t: &Thread, s: int, k: nat, j: nat)
    requires
        k <= j,
        stack_at(t, s, j) is Some,
    ensures
        stack_at(t, s, k) is Some,
    decreases k,
{
    if k > 0 {
        let n = stack_prefix_spec(t, s)->0;
        lemma_stack_at_prefix_some(t, n as int, (k - 1) as nat, (j - 1) as nat);
    }
}

/// `o` is a stack of the stack table.
pub open spec fn in_stack_table(t: &Thread, o: Option<int>) -> bool {
    match o {
        Some(x) => 0 <= x < t.stack_table.frame@.len(),
        None => false,
    }
}

proof fn lemma_cyclic_walk(t: &Thread, start: usize, s: int, fuel: nat, bound: Option<nat>)
    requires
        walk_spec(t, start, s, fuel, bound) matches Err(ParseError::CyclicStack { .. }),
    ensures
        forall|k: nat|
            k <= fuel ==> in_stack_table(t, #[trigger] stack_at(t, s, k)),
        stack_at(t, s, fuel + 1) is Some,
    decreases fuel,
{
    let n = stack_prefix_spec(t, s)->0;
    assert(frame_index_spec(t, s) is Ok);
    if fuel > 0 {
        lemma_cyclic_walk(t, start, n as int, (fuel - 1) as nat, bound);
        assert forall|k: nat| k <= fuel implies in_stack_table(t, #[trigger] stack_at(t, s, k)) by {
            if k > 0 {
                assert(stack_at(t, s, k) == stack_at(t, n as int, (k - 1) as nat));
            }
        }
        assert(stack_at(t, s, fuel + 1) == stack_at(t, n as int, fuel));
    } else {
        assert forall|k: nat| k <= fuel implies in_stack_table(t, #[trigger] stack_at(t, s, k)) by {}
        assert(stack_at(t, s, 1) == stack_at(t, n as int, 0));
    }
}

proof fn lemma_repeat_never_ends(t: &Thread, s: int, i: nat, j: nat, k: nat)
    requires
        i < j,
        stack_at(t, s, j) is Some,
        stack_at(t, s, i) == stack_at(t, s, j),
    ensures
        stack_at(t, s, k) is Some,
    decreases k,
{
    if k <= j {
        lemma_stack_at_prefix_some(t, s, k, j);
    } else {
        let c = (k - j) as nat;
        lemma_stack_at_prefix_some(t, s, i, j);
        lemma_stack_at_add(t, s, j, c);
        lemma_stack_at_add(t, s, i, c);
        assert(k == j + c);
        lemma_repeat_never_ends(t, s, i, j, i + c);
    }
}

/// A sample is reported as cyclic only when its chain of callers never
/// reaches a root: every number of steps to a caller leads to a stack.
pub proof fn law_cyclic_stack_never_ends(t: &Thread, start: usize, bound: Option<nat>)
    requires
        sample_frames_spec(t, start, bound) matches Err(ParseError::CyclicStack { .. }),
    ensures
        forall|k: nat| #[trigger] stack_at(t, start as int, k) is Some,
{
    let f = t.stack_table.frame@.len();
    let s = start as int;
    lemma_cyclic_walk(t, start, s, f, bound);
    let vals = Seq::new(f + 1, |k: int| stack_at(t, s, k as nat)->0);
    assert forall|k: int| 0 <= k < vals.len() implies 0 <= #[trigger] vals[k] < f by {
        assert(in_stack_table(t, stack_at(t, s, k as nat)));
    }
    assert(!vals.no_duplicates()) by {
        if vals.no_duplicates() {
            vals.unique_seq_to_set();
            vstd::set_lib::lemma_int_range(0, f as int);
            assert(vals.to_set().subset_of(vstd::set_lib::set_int_range(0, f as int)));
            vstd::set_lib::lemma_len_subset(vals.to_set(), vstd::set_lib::set_int_range(0, f as int));
        }
    }
    let (a, b) = choose|a: int, b: int|
        0 <= a < vals.len() && 0 <= b < vals.len() && a != b && vals[a] == vals[b];
    let (i, j) = if a < b {
        (a as nat, b as nat)
    } else {
        (b as nat, a as nat)
    };
    assert(stack_at(t, s, i) is Some && stack_at(t, s, j) is Some);
    assert(stack_at(t, s, i) == stack_at(t, s, j));
    assert forall|k: nat| #[trigger] stack_at(t, start as int, k) is Some by {
        lemma_repeat_never_ends(t, s, i, j, k);
    }
}

/// Without CPU weighting every sample counts once; with it, a sample counts
/// its CPU time when the profile has exactly one value per sample, and once
/// otherwise.
pub proof fn law_sample_weights(samples: &Samples, i: int)
    ensures
        crate::parse::weight_spec(samples, false, i) == 1,
        crate::parse::weight_spec(samples, true, i) == (match samples.thread_cpu_delta {
            Some(d) => if d@.len() == samples.stack@.len() && 0 <= i < d@.len() {
                d@[i]
            } else {
                1
            },
            None => 1,
        }),
{
}

proof fn lemma_replace_without_dollar(s: Seq<char>, pat: Seq<char>, rep: Seq<char>, q: int)
    requires
        0 <= q < pat.len(),
        pat[q] == '$',
        forall|i: int| 0 <= i < s.len() ==> s[i] != '$',
    ensures
        replace_spec(s, pat, rep) == s,
    decreases s.len(),
{
    if s.len() > 0 {
        if starts_with_spec(s, pat) {
            assert(s.subrange(0, pat.len() as int)[q] == s[q]);
        }
        lemma_replace_without_dollar(s.drop_first(), pat, rep, q);
        assert(seq![s[0]] + s.drop_first() == s);
    }
}

proof fn lemma_apply_without_dollar(s: Seq<char>, reps: Seq<(Seq<char>, Seq<char>)>)
    requires
        forall|i: int| 0 <= i < s.len() ==> s[i] != '$',
        forall|r: int| 0 <= r < reps.len() ==> #[trigger] reps[r].0.contains('$'),
    ensures
        apply_replacements(s, reps) == s,
    decreases reps.len(),
{
    if reps.len() > 0 {
        assert(reps[0].0.contains('$'));
        let q = choose|q: int| 0 <= q < reps[0].0.len() && reps[0].0[q] == '$';
        lemma_replace_without_dollar(s, reps[0].0, reps[0].1, q);
        assert forall|r: int| 0 <= r < reps.drop_first().len() implies #[trigger] reps.drop_first()[r].0.contains(
            '$',
        ) by {
            assert(reps.drop_first()[r] == reps[r + 1]);
        }
        lemma_apply_without_dollar(s, reps.drop_first());
    }
}

/// A name without `$` has no mangling escape: `prettify` only removes its
/// hash suffix.
pub proof fn law_prettify_plain_name(name: Seq<char>)
    requires
        forall|i: int| 0 <= i < name.len() ==> name[i] != '$',
    ensures
        prettify_spec(name) == trim_hash_suffix_spec(name),
{
    let t = trim_hash_suffix_spec(name);
    let below = name.len() - crate::symbol::hash_separator().len() + 1;
    if crate::text::last_match(name, crate::symbol::hash_separator()) is Some {
        crate::text::lemma_last_match_below_is_match(name, crate::symbol::hash_separator(), below);
    }
    assert forall|i: int| 0 <= i < t.len() implies t[i] != '$' by {
        assert(t[i] == name[i]);
    }
    let reps = replacements_spec();
    assert forall|r: int| 0 <= r < reps.len() implies #[trigger] reps[r].0.contains('$') by {
        assert(reps[r].0[1] == '$' || reps[r].0[0] == '$');
        if reps[r].0[1] == '$' {
            assert(reps[r].0.len() > 1);
        }
    }
    lemma_apply_without_dollar(t, reps);
}

/// Where the entry of `r1` at `i` ranks before that of `r2` under another
/// key, some key would be listed out of order: two best-first rankings of
/// `m` that agree below `i` cannot differ that way at `i`.
proof fn lemma_top_not_ahead<K: CountKey>(
    m: Map<K::V, nat>,
    limit: nat,
    r1: Seq<(K::V, nat)>,
    r2: Seq<(K::V, nat)>,
    i: int,
)
    requires
        is_top::<K>(m, limit, r1),
        is_top::<K>(m, limit, r2),
        0 <= i < r1.len(),
        forall|j: int| 0 <= j < i ==> r1[j] == r2[j],
    ensures
        !(r1[i].0 != r2[i].0 && ranks_before::<K>(r1[i], r2[i])),
{
    let a = r1[i];
    let b = r2[i];
    if a.0 != b.0 && ranks_before::<K>(a, b) {
        assert(m.contains_key(a.0) && m[a.0] == a.1);
        if exists|j: int| 0 <= j < r2.len() && r2[j].0 == a.0 {
            let j = choose|j: int| 0 <= j < r2.len() && r2[j].0 == a.0;
            assert(m.contains_key(r2[j].0) && m[r2[j].0] == r2[j].1);
            assert(r2[j] == a);
            if j < i {
                assert(r1[j] == a);
                assert(ranks_before::<K>(r1[j], r1[i]));
                lemma_ranks_before_irreflexive::<K>(a);
            } else {
                assert(j > i);
                assert(ranks_before::<K>(r2[i], r2[j]));
                lemma_ranks_before_transitive::<K>(a, b, a);
                lemma_ranks_before_irreflexive::<K>(a);
            }
        } else {
            assert(forall|q: int| 0 <= q < r2.len() ==> r2[q].0 != a.0);
            assert(ranks_before::<K>(r2[i], (a.0, m[a.0])));
            lemma_ranks_before_transitive::<K>(a, b, a);
            lemma_ranks_before_irreflexive::<K>(a);
        }
    }
}

/// Two best-first rankings of `m` agree on their first `n` entries.
proof fn lemma_top_agree_below<K: CountKey>(
    m: Map<K::V, nat>,
    limit: nat,
    r1: Seq<(K::V, nat)>,
    r2: Seq<(K::V, nat)>,
    n: int,
)
    requires
        is_top::<K>(m, limit, r1),
        is_top::<K>(m, limit, r2),
        0 <= n <= r1.len(),
    ensures
        forall|j: int| 0 <= j < n ==> r1[j] == r2[j],
    decreases n,
{
    if n > 0 {
        let i = n - 1;
        lemma_top_agree_below::<K>(m, limit, r1, r2, i);
        lemma_top_not_ahead::<K>(m, limit, r1, r2, i);
        lemma_top_not_ahead::<K>(m, limit, r2, r1, i);
        let a = r1[i];
        let b = r2[i];
        assert(m.contains_key(a.0) && m[a.0] == a.1);
        assert(m.contains_key(b.0) && m[b.0] == b.1);
        if a.0 != b.0 {
            lemma_ranks_before_total::<K>(a, b);
        }
        assert(a == b);
    }
}

/// The ranking is determined by the counts: two lists that both give the
/// `limit` best-ranked entries of `m`, best first, are the same list, so
/// `sorted_top` has exactly one possible answer.
pub proof fn law_top_ranking_is_unique<K: CountKey>(
    m: Map<K::V, nat>,
    limit: nat,
    r1: Seq<(K::V, nat)>,
    r2: Seq<(K::V, nat)>,
)
    requires
        is_top::<K>(m, limit, r1),
        is_top::<K>(m, limit, r2),
    ensures
        r1 == r2,
{
    lemma_top_agree_below::<K>(m, limit, r1, r2, r1.len() as int);
    assert(r1 =~= r2);
}

/// The first entries of a best-first ranking rank the fewer best entries.
proof fn lemma_top_prefix<K: CountKey>(m: Map<K::V, nat>, limit: nat, r: Seq<(K::V, nat)>, fewer: nat)
    requires
        is_top::<K>(m, limit, r),
        fewer <= limit,
    ensures
        is_top::<K>(m, fewer, r.take(crate::counts::min_nat(fewer, m.dom().len()) as int)),
{
    let k = crate::counts::min_nat(fewer, m.dom().len()) as int;
    let t = r.take(k);
    assert(k <= r.len());
    assert forall|i: int| 0 <= i < t.len() implies m.contains_key(#[trigger] t[i].0) && m[t[i].0]
        == t[i].1 by {
        assert(t[i] == r[i]);
    }
    assert forall|i: int, j: int| 0 <= i < j < t.len() implies ranks_before::<K>(t[i], t[j]) by {
        assert(t[i] == r[i] && t[j] == r[j]);
    }
    assert forall|kk: K::V|
        #![trigger m.contains_key(kk)]
        m.contains_key(kk) && (forall|i: int| 0 <= i < t.len() ==> t[i].0 != kk) implies forall|i: int|
        0 <= i < t.len() ==> ranks_before::<K>(t[i], (kk, m[kk])) by {
        if exists|j: int| 0 <= j < r.len() && r[j].0 == kk {
            let j = choose|j: int| 0 <= j < r.len() && r[j].0 == kk;
            assert(m.contains_key(r[j].0) && m[r[j].0] == r[j].1);
            if j < k {
                assert(t[j].0 == kk);
            }
            assert forall|i: int| 0 <= i < t.len() implies ranks_before::<K>(t[i], (kk, m[kk])) by {
                assert(t[i] == r[i]);
                assert(ranks_before::<K>(r[i], r[j]));
            }
        } else {
            assert forall|i: int| 0 <= i < t.len() implies ranks_before::<K>(t[i], (kk, m[kk])) by {
                assert(t[i] == r[i]);
                assert(forall|q: int| 0 <= q < r.len() ==> r[q].0 != kk);
                assert(ranks_before::<K>(r[i], (kk, m[kk])));
            }
        }
    }
}

/// Asking for fewer entries gives the first entries of the longer ranking:
/// the `top` rows of a section are the first of the `limit` best entries,
/// so when `top <= limit` every key shown is among those symbolicated.
pub proof fn law_top_rows_lead_the_longer_ranking<K: CountKey>(
    m: Map<K::V, nat>,
    top: nat,
    limit: nat,
    shown: Seq<(K::V, nat)>,
    ranked: Seq<(K::V, nat)>,
)
    requires
        top <= limit,
        is_top::<K>(m, top, shown),
        is_top::<K>(m, limit, ranked),
    ensures
        shown.len() <= ranked.len(),
        forall|i: int| 0 <= i < shown.len() ==> shown[i] == ranked[i],
{
    lemma_top_prefix::<K>(m, limit, ranked, top);
    let k = crate::counts::min_nat(top, m.dom().len()) as int;
    law_top_ranking_is_unique::<K>(m, top, shown, ranked.take(k));
}

/// The thread has no CPU time per sample that weighting could use: none
/// at all, or not one value per sample.
pub open spec fn no_aligned_deltas(t: &Thread) -> bool {
    match t.samples.thread_cpu_delta {
        Some(d) => d@.len() != t.samples.stack@.len(),
        None => true,
    }
}

proof fn lemma_single_samples_cpu_fallback(
    m: SingleModel,
    t: &Thread,
    names: Seq<Seq<char>>,
    flags: Seq<bool>,
    n: nat,
)
    requires
        no_aligned_deltas(t),
    ensures
        single_samples_spec(m, t, names, flags, true, n) == single_samples_spec(
            m,
            t,
            names,
            flags,
            false,
            n,
        ),
    decreases n,
{
    if n > 0 {
        lemma_single_samples_cpu_fallback(m, t, names, flags, (n - 1) as nat);
        assert(crate::parse::weight_spec(&t.samples, true, n - 1) == crate::parse::weight_spec(
            &t.samples,
            false,
            n - 1,
        ));
    }
}

proof fn lemma_single_threads_cpu_fallback(p: &Profile, target_libs: Seq<bool>, n: nat)
    requires
        n <= p.threads@.len(),
        forall|i: int| 0 <= i < p.threads@.len() ==> no_aligned_deltas(#[trigger] &p.threads@[i]),
    ensures
        single_threads_spec(p, target_libs, true, n) == single_threads_spec(
            p,
            target_libs,
            false,
            n,
        ),
    decreases n,
{
    if n > 0 {
        lemma_single_threads_cpu_fallback(p, target_libs, (n - 1) as nat);
        let t = &p.threads@[n - 1];
        assert(no_aligned_deltas(t));
        if let Ok(m) = single_threads_spec(p, target_libs, false, (n - 1) as nat) {
            if let Ok(names) = crate::parse::frame_names_spec(t) {
                if let Ok(flags) = crate::parse::target_flags_spec(t, target_libs) {
                    lemma_single_samples_cpu_fallback(m, t, names, flags, t.samples.stack@.len());
                }
            }
        }
    }
}

proof fn lemma_mixed_samples_cpu_fallback(
    m: MixedModel,
    t: &Thread,
    keys: Seq<(Option<Seq<char>>, Seq<char>)>,
    n: nat,
)
    requires
        no_aligned_deltas(t),
    ensures
        mixed_samples_spec(m, t, keys, true, n) == mixed_samples_spec(m, t, keys, false, n),
    decreases n,
{
    if n > 0 {
        lemma_mixed_samples_cpu_fallback(m, t, keys, (n - 1) as nat);
        assert(crate::parse::weight_spec(&t.samples, true, n - 1) == crate::parse::weight_spec(
            &t.samples,
            false,
            n - 1,
        ));
    }
}

proof fn lemma_mixed_threads_cpu_fallback(p: &Profile, n: nat)
    requires
        n <= p.threads@.len(),
        forall|i: int| 0 <= i < p.threads@.len() ==> no_aligned_deltas(#[trigger] &p.threads@[i]),
    ensures
        mixed_threads_spec(p, true, n) == mixed_threads_spec(p, false, n),
    decreases n,
{
    if n > 0 {
        lemma_mixed_threads_cpu_fallback(p, (n - 1) as nat);
        let t = &p.threads@[n - 1];
        assert(no_aligned_deltas(t));
        if let Ok(m) = mixed_threads_spec(p, false, (n - 1) as nat) {
            if let Ok(keys) = crate::parse::frame_keys_spec(t, p.libs@) {
                lemma_mixed_samples_cpu_fallback(m, t, keys, t.samples.stack@.len());
            }
        }
    }
}

/// CPU weighting falls back to counting sample rows: where no thread has
/// one CPU time per sample, both summaries (and their errors) are the
/// same with and without `--cpu-weighted`.
pub proof fn law_cpu_weighting_falls_back_to_rows(p: &Profile, target_libs: Seq<bool>)
    requires
        forall|i: int| 0 <= i < p.threads@.len() ==> no_aligned_deltas(#[trigger] &p.threads@[i]),
    ensures
        parse_single_spec(p, target_libs, true) == parse_single_spec(p, target_libs, false),
        parse_mixed_spec(p, true) == parse_mixed_spec(p, false),
{
    lemma_single_threads_cpu_fallback(p, target_libs, p.threads@.len());
    lemma_mixed_threads_cpu_fallback(p, p.threads@.len());
}

/// A ranking long enough for every key lists every entry: when `limit` is
/// at least the number of keys of `m`, each (key, count) of `m` appears in
/// the ranking, under a key of its own; so `sorted_top(counts, n)` with
/// `n >= counts.len()` is the whole table, best first.
pub proof fn law_full_ranking_lists_every_entry<K: CountKey>(
    m: Map<K::V, nat>,
    limit: nat,
    r: Seq<(K::V, nat)>,
)
    requires
        m.dom().finite(),
        m.dom().len() <= limit,
        is_top::<K>(m, limit, r),
    ensures
        r.len() == m.dom().len(),
        forall|i: int, j: int| 0 <= i < j < r.len() ==> r[i].0 != r[j].0,
        forall|k: K::V| #[trigger]
            m.contains_key(k) ==> exists|i: int| 0 <= i < r.len() && r[i] == (k, m[k]),
{
    let ks = r.map_values(|e: (K::V, nat)| e.0);
    assert forall|i: int, j: int| 0 <= i < j < r.len() implies r[i].0 != r[j].0 by {
        if r[i].0 == r[j].0 {
            assert(m.contains_key(r[i].0) && m[r[i].0] == r[i].1);
            assert(m.contains_key(r[j].0) && m[r[j].0] == r[j].1);
            assert(ranks_before::<K>(r[i], r[j]));
            lemma_ranks_before_irreflexive::<K>(r[i]);
        }
    }
    assert(ks.no_duplicates()) by {
        assert forall|i: int, j: int| 0 <= i < ks.len() && 0 <= j < ks.len() && i != j implies ks[i]
            != ks[j] by {
            if i < j {
                assert(r[i].0 != r[j].0);
            } else {
                assert(r[j].0 != r[i].0);
            }
        }
    }
    ks.unique_seq_to_set();
    assert forall|k: K::V| #[trigger]
        m.contains_key(k) implies exists|i: int| 0 <= i < r.len() && r[i] == (k, m[k]) by {
        if !ks.contains(k) {
            assert(ks.to_set().subset_of(m.dom().remove(k))) by {
                assert forall|x: K::V| ks.to_set().contains(x) implies m.dom().remove(k).contains(x) by {
                    let i = choose|i: int| 0 <= i < ks.len() && ks[i] == x;
                    assert(m.contains_key(r[i].0));
                }
            }
            vstd::set_lib::lemma_len_subset(ks.to_set(), m.dom().remove(k));
            assert(false);
        }
        let i = choose|i: int| 0 <= i < ks.len() && ks[i] == k;
        assert(m.contains_key(r[i].0) && m[r[i].0] == r[i].1);
        assert(r[i] == (k, m[k]));
    }
}

/// A text with a `/` at `j` has a first `/`, at some position where a `/`
/// stands.
proof fn lemma_first_slash(p: Seq<char>, j: int)
    requires
        0 <= j < p.len(),
        p[j] == '/',
    ensures
        first_match(p, seq!['/']) matches Some(i) && 0 <= i < p.len() && p[i] == '/',
{
    let slash = seq!['/'];
    assert(matches_at(p, slash, j)) by {
        assert(p.subrange(j, j + 1) =~= slash);
    }
    lemma_first_match_contains(p, slash);
    let i = first_match(p, slash)->0;
    assert(p.subrange(i, i + 1)[0] == p[i]);
}

/// A text without `/` has no first `/`.
proof fn lemma_no_slash(name: Seq<char>)
    requires
        forall|k: int| 0 <= k < name.len() ==> name[k] != '/',
    ensures
        first_match(name, seq!['/']) is None,
{
    let slash = seq!['/'];
    lemma_first_match_contains(name, slash);
    if first_match(name, slash) is Some {
        let j = first_match(name, slash)->0;
        assert(name.subrange(j, j + 1)[0] == name[j]);
    }
}

/// The last part of `q/name`, split at `/`, is `name`.
proof fn lemma_split_last(q: Seq<char>, name: Seq<char>)
    requires
        forall|k: int| 0 <= k < name.len() ==> name[k] != '/',
    ensures
        split_at_slash(q + seq!['/'] + name).len() > 0,
        split_at_slash(q + seq!['/'] + name).last() == name,
    decreases q.len(),
{
    let p = q + seq!['/'] + name;
    assert(p[q.len() as int] == '/');
    lemma_first_slash(p, q.len() as int);
    let i = first_match(p, seq!['/'])->0;
    assert(i <= q.len()) by {
        if i > q.len() {
            assert(p[i] == name[i - q.len() - 1]);
        }
    }
    let rest = p.skip(i + 1);
    assert(split_at_slash(p) == seq![p.take(i)] + split_at_slash(rest));
    if i == q.len() {
        assert(rest =~= name);
        lemma_no_slash(name);
        assert(split_at_slash(name) == seq![name]);
    } else {
        let q2 = q.skip(i + 1);
        assert(rest =~= q2 + seq!['/'] + name);
        lemma_split_last(q2, name);
    }
}

/// An image and a binary whose paths end in the same name (after a `/`)
/// match: `/usr/lib/app` is taken for `/tmp/app`.
pub proof fn law_same_file_name_matches(
    image_dir: Seq<char>,
    binary_dir: Seq<char>,
    name: Seq<char>,
    image_canonical: Option<Seq<char>>,
    binary_canonical: Option<Seq<char>>,
)
    requires
        name.len() > 0,
        name != seq!['.'],
        name != seq!['.', '.'],
        forall|k: int| 0 <= k < name.len() ==> name[k] != '/',
    ensures
        file_name_spec(image_dir + seq!['/'] + name) == Some(name),
        image_matches_spec(
            image_dir + seq!['/'] + name,
            binary_dir + seq!['/'] + name,
            image_canonical,
            binary_canonical,
        ),
{
    lemma_file_name_after_slash(image_dir, name);
    lemma_file_name_after_slash(binary_dir, name);
}

proof fn lemma_file_name_after_slash(dir: Seq<char>, name: Seq<char>)
    requires
        name.len() > 0,
        name != seq!['.'],
        name != seq!['.', '.'],
        forall|k: int| 0 <= k < name.len() ==> name[k] != '/',
    ensures
        file_name_spec(dir + seq!['/'] + name) == Some(name),
{
    let p = dir + seq!['/'] + name;
    lemma_split_last(dir, name);
    let parts = split_at_slash(p);
    let pred = |c: Seq<char>| c.len() > 0 && c != seq!['.'];
    assert(pred(parts.last()));
    let f = parts.filter(pred);
    assert(f == parts.drop_last().filter(pred).push(parts.last())) by {
        reveal(Seq::filter);
    }
    let c = components_spec(p);
    assert(name != seq!['/']) by {
        if name == seq!['/'] {
            assert(name[0] == '/');
        }
    }
    assert(c.last() == name);
}

/// The image of a frame is found through the resource table: the lookup
/// names image `l` exactly when the frame's function has a resource `res`
/// (in the resource table) whose `lib` entry is `l` — never the resource
/// index itself, nor an image met any other way.
pub proof fn law_frame_image_is_the_lib_of_its_resource(t: &Thread, f: int, l: usize)
    requires
        0 <= f < t.frame_table.func@.len(),
    ensures
        lib_index_spec(t, f) == Ok::<Option<usize>, ParseError>(Some(l)) <==> ({
            let func = t.frame_table.func@[f];
            &&& t.func_table.resource is Some
            &&& func < t.func_table.resource->0@.len()
            &&& t.func_table.resource->0@[func as int] is Some
            &&& 0 <= t.func_table.resource->0@[func as int]->0 < t.resource_table.lib@.len()
            &&& t.resource_table.lib@[t.func_table.resource->0@[func as int]->0 as int] is Some
            &&& t.resource_table.lib@[t.func_table.resource->0@[func as int]->0 as int]->0 >= 0
            &&& t.resource_table.lib@[t.func_table.resource->0@[func as int]->0 as int]->0 as usize
                == l
        }),
        t.func_table.resource is None ==> lib_index_spec(t, f) == Ok::<
            Option<usize>,
            ParseError,
        >(None),
{
}

/// Whether address `i` of `addr_counts` belongs to the line-level breakdown
/// of `target` at location `loc`: its symbol contains `target`, and `loc`
/// is the location its `atos` line (or, without one, its symbol) ends in.
pub open spec fn address_at_location(
    target: Seq<char>,
    addr_counts: &CountTable<String>,
    symbols: Seq<(Seq<char>, Seq<char>)>,
    lines: Seq<(Seq<char>, Seq<char>)>,
    i: int,
    loc: Seq<char>,
) -> bool {
    match lookup_label_spec(symbols, addr_counts.key_at(i)) {
        Some(sym) => contains_spec(sym, target) && symbol_location_spec(
            location_text_spec(lines, addr_counts.key_at(i), sym),
        ) == loc,
        None => false,
    }
}

/// The count of the first `n` addresses that belong to `loc` in the
/// breakdown of `target`.
pub open spec fn weight_at_location(
    target: Seq<char>,
    addr_counts: &CountTable<String>,
    symbols: Seq<(Seq<char>, Seq<char>)>,
    lines: Seq<(Seq<char>, Seq<char>)>,
    loc: Seq<char>,
    n: nat,
) -> nat
    decreases n,
{
    if n == 0 {
        0
    } else {
        weight_at_location(target, addr_counts, symbols, lines, loc, (n - 1) as nat) + if address_at_location(
            target,
            addr_counts,
            symbols,
            lines,
            n - 1,
            loc,
        ) {
            addr_counts.count_at(n - 1)
        } else {
            0
        }
    }
}

/// The line-level breakdown of `target` counts only addresses whose symbol
/// (the function name) contains `target`, whatever their `atos` line says:
/// a location is listed exactly when such an address ends in it, and its
/// count is the sum of the counts of those addresses.
pub proof fn law_line_counts_only_count_matching_functions(
    target: Seq<char>,
    addr_counts: &CountTable<String>,
    symbols: Seq<(Seq<char>, Seq<char>)>,
    lines: Seq<(Seq<char>, Seq<char>)>,
    n: nat,
)
    requires
        n <= addr_counts.size(),
    ensures
        line_counts_spec(target, addr_counts, symbols, lines, n) matches Some(m) ==> forall|loc: Seq<char>|
            {
                &&& #[trigger] m.contains_key(loc) <==> exists|i: int|
                    0 <= i < n && address_at_location(target, addr_counts, symbols, lines, i, loc)
                &&& count_in(m, loc) == weight_at_location(
                    target,
                    addr_counts,
                    symbols,
                    lines,
                    loc,
                    n,
                )
            },
    decreases n,
{
    if n > 0 {
        law_line_counts_only_count_matching_functions(
            target,
            addr_counts,
            symbols,
            lines,
            (n - 1) as nat,
        );
        if let Some(m) = line_counts_spec(target, addr_counts, symbols, lines, n) {
            let m1 = line_counts_spec(target, addr_counts, symbols, lines, (n - 1) as nat)->0;
            assert forall|loc: Seq<char>| #[trigger] m.contains_key(loc) <==> exists|i: int|
                0 <= i < n && address_at_location(
                    target,
                    addr_counts,
                    symbols,
                    lines,
                    i,
                    loc,
                ) by {
                if address_at_location(target, addr_counts, symbols, lines, n - 1, loc) {
                    assert(m.contains_key(loc));
                }
                if m.contains_key(loc) && !m1.contains_key(loc) {
                    assert(address_at_location(target, addr_counts, symbols, lines, n - 1, loc));
                }
                if exists|i: int|
                    0 <= i < n && address_at_location(target, addr_counts, symbols, lines, i, loc) {
                    let i = choose|i: int|
                        0 <= i < n && address_at_location(
                            target,
                            addr_counts,
                            symbols,
                            lines,
                            i,
                            loc,
                        );
                    if i < n - 1 {
                        assert(m1.contains_key(loc));
                    }
                }
            }
        }
    }
}

/// A row of a ranking section shows its resolved symbol, and a row without
/// one shows the frame's raw name: in mixed mode never the image path, and
/// in single-image mode the raw name itself.
pub proof fn law_unresolved_rows_show_raw_names(
    mixed_labels: Seq<((Option<Seq<char>>, Seq<char>), Seq<char>)>,
    k: (Option<Seq<char>>, Seq<char>),
    labels: Seq<(Seq<char>, Seq<char>)>,
    name: Seq<char>,
)
    ensures
        label_spec::<MixedKey>(mixed_labels, k) == match lookup_label_spec(mixed_labels, k) {
            Some(s) => s,
            None => k.1,
        },
        label_spec::<String>(labels, name) == match lookup_label_spec(labels, name) {
            Some(s) => s,
            None => name,
        },
{
}

} // verus!
