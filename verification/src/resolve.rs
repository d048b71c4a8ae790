//! Planning symbolication: which names are cleaned up directly, which
//! addresses go to `atos` (and for which image), how `atos` is called and
//! how its answer is read back.

use vstd::prelude::*;

use crate::counts::{CountKey, MixedKey};
use crate::number::{format_hex, format_hex_spec, parse_hex, parse_hex_spec};
use crate::symbol::{
    clean_atos_symbol, clean_atos_symbol_spec, has_source, has_source_spec, prettify, prettify_spec,
};
use crate::text::{chars_of, first_match, string_of, sub_chars, find_first, trim, trim_spec};

verus! {

/// Why a resolution plan cannot be made.
#[derive(Debug, Clone, Copy, PartialEq, Eq, Structural)]
pub enum ResolveError {
    /// A load base plus an address exceeds the `u64` range.
    AddressOverflow,
}

/// The view of a list of (name, symbol) pairs.
pub open spec fn pairs_view(v: Seq<(String, String)>) -> Seq<(Seq<char>, Seq<char>)> {
    v.map_values(|p: (String, String)| (p.0@, p.1@))
}

/// The view of a list of (name, address) pairs.
pub open spec fn addresses_view(v: Seq<(String, u64)>) -> Seq<(Seq<char>, u64)> {
    v.map_values(|p: (String, u64)| (p.0@, p.1))
}

/// The view of a list of names.
pub open spec fn strings_view(v: Seq<String>) -> Seq<Seq<char>> {
    v.map_values(|s: String| s@)
}

/// The plan for the names of a single-image profile: names that are not
/// hexadecimal are cleaned up directly, the others are sent to `atos` at
/// `base` plus their value.
pub open spec fn single_plan_spec(raws: Seq<Seq<char>>, base: nat) -> Result<
    (Seq<(Seq<char>, Seq<char>)>, Seq<(Seq<char>, u64)>),
    ResolveError,
>
    decreases raws.len(),
{
    if raws.len() == 0 {
        Ok((Seq::empty(), Seq::empty()))
    } else {
        match single_plan_spec(raws.drop_last(), base) {
            Err(e) => Err(e),
            Ok((now, addrs)) => {
                let r = raws.last();
                match parse_hex_spec(r) {
                    None => Ok((now.push((r, prettify_spec(r))), addrs)),
                    Some(a) => if base + a > u64::MAX {
                        Err(ResolveError::AddressOverflow)
                    } else {
                        Ok((now, addrs.push((r, (base + a) as u64))))
                    },
                }
            },
        }
    }
}

/// Names resolved without `atos`, and addresses to symbolicate.
pub struct ResolvePlan {
    /// (raw name, display name) for names that are not addresses.
    pub resolved: Vec<(String, String)>,
    /// (raw name, address) for `atos`.
    pub addresses: Vec<(String, u64)>,
}

/// Plans the symbolication of the names of a single-image profile.
pub fn resolve_single(raw_names: &Vec<String>, base: u64) -> (r: Result<ResolvePlan, ResolveError>)
    ensures
        match r {
            Ok(p) => single_plan_spec(strings_view(raw_names@), base as nat) == Ok::<
                (Seq<(Seq<char>, Seq<char>)>, Seq<(Seq<char>, u64)>),
                ResolveError,
            >((pairs_view(p.resolved@), addresses_view(p.addresses@))),
            Err(e) => single_plan_spec(strings_view(raw_names@), base as nat) == Err::<
                (Seq<(Seq<char>, Seq<char>)>, Seq<(Seq<char>, u64)>),
                ResolveError,
            >(e),
        },
{
    let ghost rv = strings_view(raw_names@);
    let mut resolved: Vec<(String, String)> = Vec::new();
    let mut addresses: Vec<(String, u64)> = Vec::new();
    let n = raw_names.len();
    assert(rv.take(0) == Seq::<Seq<char>>::empty());
    assert(pairs_view(resolved@) == Seq::<(Seq<char>, Seq<char>)>::empty());
    assert(addresses_view(addresses@) == Seq::<(Seq<char>, u64)>::empty());
    for i in 0..n
        invariant
            n == raw_names.len(),
            rv == strings_view(raw_names@),
            single_plan_spec(rv.take(i as int), base as nat) == Ok::<
                (Seq<(Seq<char>, Seq<char>)>, Seq<(Seq<char>, u64)>),
                ResolveError,
            >((pairs_view(resolved@), addresses_view(addresses@))),
    {
        let raw = &raw_names[i];
        assert(rv.take(i + 1).drop_last() == rv.take(i as int));
        assert(rv.take(i + 1).last() == raw@);
        match parse_hex(raw.as_str()) {
            Some(addr) => {
                if addr > u64::MAX - base {
                    proof {
                        lemma_single_plan_err(rv, base as nat, (i + 1) as int);
                        assert(rv.take(n as int) == rv);
                    }
                    return Err(ResolveError::AddressOverflow);
                }
                let ghost old_a = addresses@;
                addresses.push((raw.clone(), base + addr));
                assert(addresses_view(addresses@) == addresses_view(old_a).push(
                    (raw@, (base + addr) as u64),
                ));
            },
            None => {
                let ghost old_r = resolved@;
                let pretty = prettify(raw.as_str());
                resolved.push((raw.clone(), pretty));
                assert(pairs_view(resolved@) == pairs_view(old_r).push((raw@, prettify_spec(raw@))));
            },
        }
    }
    assert(rv.take(n as int) == rv);
    Ok(ResolvePlan { resolved, addresses })
}

proof fn lemma_single_plan_err(raws: Seq<Seq<char>>, base: nat, i: int)
    requires
        0 <= i <= raws.len(),
        single_plan_spec(raws.take(i), base) is Err,
    ensures
        single_plan_spec(raws, base) == single_plan_spec(raws.take(i), base),
    decreases raws.len() - i,
{
    if i < raws.len() {
        assert(raws.take(i + 1).drop_last() == raws.take(i));
        lemma_single_plan_err(raws, base, i + 1);
    } else {
        assert(raws.take(i) == raws);
    }
}

/// The display names of a multi-image profile that need no `atos`: names
/// that are not hexadecimal are cleaned up; hexadecimal names of frames
/// without an image stay as they are.
pub open spec fn mixed_now_spec(keys: Seq<(Option<Seq<char>>, Seq<char>)>) -> Seq<
    ((Option<Seq<char>>, Seq<char>), Seq<char>),
>
    decreases keys.len(),
{
    if keys.len() == 0 {
        Seq::empty()
    } else {
        let rest = mixed_now_spec(keys.drop_last());
        let k = keys.last();
        match parse_hex_spec(k.1) {
            None => rest.push((k, prettify_spec(k.1))),
            Some(_) => if k.0 is None {
                rest.push((k, k.1))
            } else {
                rest
            },
        }
    }
}

/// The (raw name, address) pairs to symbolicate against `image`.
pub open spec fn image_addresses_spec(keys: Seq<(Option<Seq<char>>, Seq<char>)>, image: Seq<char>) -> Seq<
    (Seq<char>, u64),
>
    decreases keys.len(),
{
    if keys.len() == 0 {
        Seq::empty()
    } else {
        let rest = image_addresses_spec(keys.drop_last(), image);
        let k = keys.last();
        match parse_hex_spec(k.1) {
            Some(a) => if k.0 == Some(image) {
                rest.push((k.1, a))
            } else {
                rest
            },
            None => rest,
        }
    }
}

/// The view of a list of (key, display name) pairs.
pub open spec fn labels_view<K: View>(v: Seq<(K, String)>) -> Seq<(K::V, Seq<char>)> {
    v.map_values(|p: (K, String)| (p.0@, p.1@))
}

/// The view of a list of mixed keys.
pub open spec fn mixed_keys_view(v: Seq<MixedKey>) -> Seq<(Option<Seq<char>>, Seq<char>)> {
    v.map_values(|k: MixedKey| k@)
}

/// Names of a multi-image profile resolved without `atos`, and the
/// addresses to symbolicate, grouped by image.
pub struct MixedResolvePlan {
    pub resolved: Vec<(MixedKey, String)>,
    /// (image path, its (raw name, address) pairs); each image once.
    pub by_image: Vec<(String, Vec<(String, u64)>)>,
}

fn copy_mixed_key(k: &MixedKey) -> (r: MixedKey)
    ensures
        r@ == k@,
{
    k.copy_key()
}

/// The display names that need no `atos`.
fn mixed_now(keys: &Vec<MixedKey>) -> (r: Vec<(MixedKey, String)>)
    ensures
        labels_view(r@) == mixed_now_spec(mixed_keys_view(keys@)),
{
    let ghost kv = mixed_keys_view(keys@);
    let mut r: Vec<(MixedKey, String)> = Vec::new();
    let n = keys.len();
    assert(kv.take(0) == Seq::<(Option<Seq<char>>, Seq<char>)>::empty());
    assert(labels_view(r@) == Seq::<((Option<Seq<char>>, Seq<char>), Seq<char>)>::empty());
    for i in 0..n
        invariant
            n == keys.len(),
            kv == mixed_keys_view(keys@),
            labels_view(r@) == mixed_now_spec(kv.take(i as int)),
    {
        let key = &keys[i];
        assert(kv.take(i + 1).drop_last() == kv.take(i as int));
        assert(kv.take(i + 1).last() == key@);
        let ghost old_r = r@;
        match parse_hex(key.raw.as_str()) {
            None => {
                let pretty = prettify(key.raw.as_str());
                r.push((copy_mixed_key(key), pretty));
                assert(labels_view(r@) == labels_view(old_r).push((key@, prettify_spec(key@.1))));
            },
            Some(_) => {
                if key.image.is_none() {
                    r.push((copy_mixed_key(key), key.raw.clone()));
                    assert(labels_view(r@) == labels_view(old_r).push((key@, key@.1)));
                }
            },
        }
    }
    assert(kv.take(n as int) == kv);
    r
}

/// The addresses of the frames of `image`.
fn image_addresses(keys: &Vec<MixedKey>, image: &String) -> (r: Vec<(String, u64)>)
    ensures
        addresses_view(r@) == image_addresses_spec(mixed_keys_view(keys@), image@),
{
    let ghost kv = mixed_keys_view(keys@);
    let mut r: Vec<(String, u64)> = Vec::new();
    let n = keys.len();
    assert(kv.take(0) == Seq::<(Option<Seq<char>>, Seq<char>)>::empty());
    assert(addresses_view(r@) == Seq::<(Seq<char>, u64)>::empty());
    for i in 0..n
        invariant
            n == keys.len(),
            kv == mixed_keys_view(keys@),
            addresses_view(r@) == image_addresses_spec(kv.take(i as int), image@),
    {
        let key = &keys[i];
        assert(kv.take(i + 1).drop_last() == kv.take(i as int));
        assert(kv.take(i + 1).last() == key@);
        let ghost old_r = r@;
        if let Some(addr) = parse_hex(key.raw.as_str()) {
            let same = match &key.image {
                Some(img) => *img == *image,
                None => false,
            };
            if same {
                r.push((key.raw.clone(), addr));
                assert(addresses_view(r@) == addresses_view(old_r).push((key@.1, addr)));
            }
        }
    }
    assert(kv.take(n as int) == kv);
    r
}

/// `img` is the image of some hexadecimal key among `keys`.
pub open spec fn has_image_address(keys: Seq<(Option<Seq<char>>, Seq<char>)>, img: Seq<char>) -> bool {
    exists|i: int|
        0 <= i < keys.len() && keys[i].0 == Some(img) && #[trigger] parse_hex_spec(keys[i].1) is Some
}

/// Plans the symbolication of the frames of a multi-image profile.
pub fn resolve_mixed(keys: &Vec<MixedKey>) -> (r: MixedResolvePlan)
    ensures
        labels_view(r.resolved@) == mixed_now_spec(mixed_keys_view(keys@)),
        forall|g: int, h: int|
            0 <= g < h < r.by_image@.len() ==> r.by_image@[g].0@ != r.by_image@[h].0@,
        forall|g: int|
            0 <= g < r.by_image@.len() ==> addresses_view((#[trigger] r.by_image@[g]).1@)
                == image_addresses_spec(mixed_keys_view(keys@), r.by_image@[g].0@)
                && has_image_address(mixed_keys_view(keys@), r.by_image@[g].0@),
        forall|img: Seq<char>|
            #[trigger] has_image_address(mixed_keys_view(keys@), img) ==> exists|g: int|
                0 <= g < r.by_image@.len() && r.by_image@[g].0@ == img,
{
    let ghost kv = mixed_keys_view(keys@);
    let resolved = mixed_now(keys);
    let mut images: Vec<String> = Vec::new();
    let n = keys.len();
    for i in 0..n
        invariant
            n == keys.len(),
            kv == mixed_keys_view(keys@),
            forall|g: int, h: int| 0 <= g < h < images@.len() ==> images@[g]@ != images@[h]@,
            forall|g: int| 0 <= g < images@.len() ==> has_image_address(kv, #[trigger] images@[g]@),
            forall|j: int|
                0 <= j < i && kv[j].0 is Some && parse_hex_spec(kv[j].1) is Some ==> exists|g: int|
                    0 <= g < images@.len() && Some(images@[g]@) == #[trigger] kv[j].0,
    {
        let key = &keys[i];
        assert(kv[i as int] == key@);
        if let Some(img) = &key.image {
            if parse_hex(key.raw.as_str()).is_some() {
                let mut known = false;
                let m = images.len();
                for g in 0..m
                    invariant
                        m == images.len(),
                        known ==> exists|h: int| 0 <= h < m && images@[h]@ == img@,
                        !known ==> forall|h: int| 0 <= h < g ==> images@[h]@ != img@,
                {
                    if images[g] == *img {
                        known = true;
                    }
                }
                if !known {
                    let ghost old_images = images@;
                    assert(kv[i as int].1 == key.raw@);
                    assert(kv[i as int].0 == Some(img@));
                    assert(parse_hex_spec(kv[i as int].1) is Some);
                    assert(has_image_address(kv, img@));
                    images.push(img.clone());
                    assert(images@[m as int]@ == img@);
                    assert forall|g: int| 0 <= g < images@.len() implies has_image_address(
                        kv,
                        #[trigger] images@[g]@,
                    ) by {
                        if g < m {
                            assert(images@[g] == old_images[g]);
                        }
                    }
                    assert forall|j: int|
                        0 <= j < i + 1 && kv[j].0 is Some && parse_hex_spec(kv[j].1) is Some implies exists|g: int|
                        0 <= g < images@.len() && Some(images@[g]@) == #[trigger] kv[j].0 by {
                        if j < i {
                            let g = choose|g: int|
                                0 <= g < old_images.len() && Some(old_images[g]@) == kv[j].0;
                            assert(images@[g] == old_images[g]);
                        } else {
                            assert(Some(images@[m as int]@) == kv[j].0);
                        }
                    }
                }
            }
        }
    }
    let mut by_image: Vec<(String, Vec<(String, u64)>)> = Vec::new();
    let m = images.len();
    for g in 0..m
        invariant
            m == images.len(),
            kv == mixed_keys_view(keys@),
            by_image@.len() == g,
            forall|h: int| 0 <= h < g ==> (#[trigger] by_image@[h]).0@ == images@[h]@,
            forall|h: int|
                0 <= h < g ==> addresses_view((#[trigger] by_image@[h]).1@) == image_addresses_spec(
                    kv,
                    by_image@[h].0@,
                ),
    {
        let list = image_addresses(keys, &images[g]);
        by_image.push((images[g].clone(), list));
    }
    let r = MixedResolvePlan { resolved, by_image };
    assert forall|img: Seq<char>| #[trigger] has_image_address(mixed_keys_view(keys@), img) implies exists|g: int|
        0 <= g < r.by_image@.len() && r.by_image@[g].0@ == img by {
        let j = choose|j: int|
            0 <= j < kv.len() && kv[j].0 == Some(img) && #[trigger] parse_hex_spec(kv[j].1) is Some;
        let g = choose|g: int| 0 <= g < images@.len() && Some(images@[g]@) == #[trigger] kv[j].0;
        assert(r.by_image@[g].0@ == images@[g]@);
    }
    r
}

/// Records the symbols `atos` gave for the addresses of `image`.
pub fn record_image_symbols(
    resolved: &mut Vec<(MixedKey, String)>,
    image: &String,
    symbols: &Vec<(String, String)>,
)
    ensures
        labels_view(final(resolved)@) == labels_view(old(resolved)@) + symbols@.map_values(
            |p: (String, String)| ((Some(image@), p.0@), p.1@),
        ),
{
    let ghost start = labels_view(resolved@);
    let ghost added = symbols@.map_values(|p: (String, String)| ((Some(image@), p.0@), p.1@));
    let n = symbols.len();
    for i in 0..n
        invariant
            n == symbols.len(),
            added == symbols@.map_values(|p: (String, String)| ((Some(image@), p.0@), p.1@)),
            labels_view(resolved@) == start + added.take(i as int),
    {
        let ghost old_r = resolved@;
        let key = MixedKey { image: Some(image.clone()), raw: symbols[i].0.clone() };
        resolved.push((key, symbols[i].1.clone()));
        assert(added.take(i + 1) == added.take(i as int).push(added[i as int]));
        assert(labels_view(resolved@) == labels_view(old_r).push(added[i as int]));
    }
    assert(added.take(n as int) == added);
}

/// The label recorded last for `key` in `labels`, if any (a later entry
/// overrides an earlier one, as a map insert does).
pub open spec fn lookup_label_spec<V>(labels: Seq<(V, Seq<char>)>, key: V) -> Option<Seq<char>>
    decreases labels.len(),
{
    if labels.len() == 0 {
        None
    } else if labels.last().0 == key {
        Some(labels.last().1)
    } else {
        lookup_label_spec(labels.drop_last(), key)
    }
}

/// The label recorded for `key`.
pub fn lookup_label<K: CountKey>(labels: &Vec<(K, String)>, key: &K) -> (r: Option<String>)
    ensures
        match r {
            Some(s) => lookup_label_spec(labels_view(labels@), key@) == Some(s@),
            None => lookup_label_spec(labels_view(labels@), key@) is None,
        },
{
    let ghost lv = labels_view(labels@);
    let mut i = labels.len();
    assert(lv.take(i as int) == lv);
    while i > 0
        invariant
            i <= labels.len(),
            lv == labels_view(labels@),
            lookup_label_spec(lv, key@) == lookup_label_spec(lv.take(i as int), key@),
        decreases i,
    {
        let ghost pre = lv.take(i as int);
        assert(pre.last() == lv[i - 1]);
        assert(pre.drop_last() == lv.take(i - 1));
        if labels[i - 1].0.same_key(key) {
            return Some(labels[i - 1].1.clone());
        }
        i = i - 1;
    }
    None
}

/// The arguments that follow `-o <binary>` in an `atos` call: the load base
/// and the addresses, in hexadecimal.
pub open spec fn atos_arguments_spec(load_base: u64, chunk: Seq<(Seq<char>, u64)>) -> Seq<Seq<char>> {
    seq![seq!['-', 'l'], format_hex_spec(load_base as nat)] + chunk.map_values(
        |p: (Seq<char>, u64)| format_hex_spec(p.1 as nat),
    )
}

/// The `atos` arguments for one batch of addresses.
pub fn atos_arguments(load_base: u64, chunk: &Vec<(String, u64)>) -> (r: Vec<String>)
    ensures
        strings_view(r@) == atos_arguments_spec(load_base, addresses_view(chunk@)),
{
    let ghost cv = addresses_view(chunk@);
    let ghost tail = cv.map_values(|p: (Seq<char>, u64)| format_hex_spec(p.1 as nat));
    let mut r: Vec<String> = Vec::new();
    let flag = vec!['-', 'l'];
    r.push(string_of(&flag));
    r.push(format_hex(load_base));
    let ghost head = seq![seq!['-', 'l'], format_hex_spec(load_base as nat)];
    assert(strings_view(r@) == head);
    let n = chunk.len();
    for i in 0..n
        invariant
            n == chunk.len(),
            cv == addresses_view(chunk@),
            tail == cv.map_values(|p: (Seq<char>, u64)| format_hex_spec(p.1 as nat)),
            head == seq![seq!['-', 'l'], format_hex_spec(load_base as nat)],
            strings_view(r@) == head + tail.take(i as int),
    {
        let ghost old_r = r@;
        r.push(format_hex(chunk[i].1));
        assert(tail.take(i + 1) == tail.take(i as int).push(tail[i as int]));
        assert(strings_view(r@) == strings_view(old_r).push(tail[i as int]));
    }
    assert(tail.take(n as int) == tail);
    r
}

/// `l` without one trailing `\r`.
pub open spec fn strip_cr(l: Seq<char>) -> Seq<char> {
    if l.len() > 0 && l.last() == '\r' {
        l.drop_last()
    } else {
        l
    }
}

/// `str::lines`: the text split at `\n` (a `\r` before it is dropped); a
/// final line ending adds no empty line.
pub open spec fn lines_spec(s: Seq<char>) -> Seq<Seq<char>>
    decreases s.len(),
{
    if s.len() == 0 {
        Seq::empty()
    } else {
        match first_match(s, seq!['\n']) {
            None => seq![s],
            Some(i) => if 0 <= i < s.len() {
                seq![strip_cr(s.take(i))] + lines_spec(s.skip(i + 1))
            } else {
                Seq::empty()
            },
        }
    }
}

/// The symbol `atos` gave for the `i`-th address of a batch whose output
/// lines are `lines`: the cleaned line, or the raw name when the line is
/// missing or cleans to nothing.
pub open spec fn atos_symbol_spec(lines: Seq<Seq<char>>, i: int, raw: Seq<char>) -> Seq<char> {
    if i < lines.len() && clean_atos_symbol_spec(lines[i]).len() > 0 {
        clean_atos_symbol_spec(lines[i])
    } else {
        raw
    }
}

/// The lines of `cs`.
fn lines_of(cs: &Vec<char>) -> (r: Vec<Vec<char>>)
    ensures
        r@.map_values(|l: Vec<char>| l@) == lines_spec(cs@),
{
    let mut r: Vec<Vec<char>> = Vec::new();
    let mut rest = sub_chars(cs, 0, cs.len());
    let nl = vec!['\n'];
    assert(nl@ == seq!['\n']);
    assert(rest@ == cs@);
    assert(r@.map_values(|l: Vec<char>| l@) == Seq::<Seq<char>>::empty());
    assert(Seq::<Seq<char>>::empty() + lines_spec(rest@) == lines_spec(rest@));
    loop
        invariant
            nl@ == seq!['\n'],
            lines_spec(cs@) == r@.map_values(|l: Vec<char>| l@) + lines_spec(rest@),
        decreases rest@.len(),
    {
        let ghost old_r = r@.map_values(|l: Vec<char>| l@);
        if rest.len() == 0 {
            assert(lines_spec(rest@) == Seq::<Seq<char>>::empty());
            assert(old_r + Seq::<Seq<char>>::empty() == old_r);
            return r;
        }
        match find_first(&rest, &nl) {
            None => {
                let last = sub_chars(&rest, 0, rest.len());
                assert(last@ == rest@);
                r.push(last);
                assert(r@.map_values(|l: Vec<char>| l@) == old_r.push(rest@));
                assert(lines_spec(rest@) == seq![rest@]);
                return r;
            },
            Some(i) => {
                let mut line = sub_chars(&rest, 0, i);
                let k = line.len();
                if k > 0 && line[k - 1] == '\r' {
                    line.pop();
                }
                let ghost lv = line@;
                assert(lv == strip_cr(rest@.take(i as int)));
                r.push(line);
                assert(r@.map_values(|l: Vec<char>| l@) == old_r.push(lv));
                let n = rest.len();
                let next = sub_chars(&rest, i + 1, n);
                assert(next@ == rest@.skip(i + 1));
                assert(lines_spec(rest@) == seq![lv] + lines_spec(next@));
                assert(old_r.push(lv) + lines_spec(next@) == old_r + (seq![lv] + lines_spec(
                    next@,
                )));
                rest = next;
            },
        }
    }
}

/// The symbols `atos` printed for one batch: one line per address, in order.
pub fn atos_symbols(chunk: &Vec<(String, u64)>, stdout: &str) -> (r: Vec<(String, String)>)
    ensures
        r@.len() == chunk@.len(),
        forall|i: int|
            0 <= i < chunk@.len() ==> (#[trigger] r@[i]).0@ == chunk@[i].0@ && r@[i].1@
                == atos_symbol_spec(lines_spec(stdout@), i, chunk@[i].0@),
{
    let cs = chars_of(stdout);
    let lines = lines_of(&cs);
    let ghost lv = lines@.map_values(|l: Vec<char>| l@);
    let mut r: Vec<(String, String)> = Vec::new();
    let n = chunk.len();
    for i in 0..n
        invariant
            n == chunk.len(),
            lv == lines@.map_values(|l: Vec<char>| l@),
            lv == lines_spec(stdout@),
            r@.len() == i,
            forall|j: int|
                0 <= j < i ==> (#[trigger] r@[j]).0@ == chunk@[j].0@ && r@[j].1@
                    == atos_symbol_spec(lv, j, chunk@[j].0@),
    {
        let raw = &chunk[i].0;
        let symbol = if i < lines.len() {
            assert(lv[i as int] == lines@[i as int]@);
            let line = string_of(&lines[i]);
            let cleaned = clean_atos_symbol(line.as_str());
            if !cleaned.as_str().is_empty() {
                cleaned
            } else {
                raw.clone()
            }
        } else {
            raw.clone()
        };
        r.push((raw.clone(), symbol));
    }
    r
}

/// The text from which the source location of the `i`-th address of a
/// batch is read: its whole `atos` line, trimmed, when the line ends in a
/// `(file:line)` after the image; else its symbol (the cleaned line, or the
/// raw name when the line is missing or names nothing).
pub open spec fn atos_line_spec(lines: Seq<Seq<char>>, i: int, raw: Seq<char>) -> Seq<char> {
    if i < lines.len() && clean_atos_symbol_spec(lines[i]).len() > 0 {
        if has_source_spec(lines[i]) {
            trim_spec(lines[i])
        } else {
            clean_atos_symbol_spec(lines[i])
        }
    } else {
        raw
    }
}

/// The `atos` lines of one batch, one per address, in order, paired with
/// the raw names (see `atos_line_spec`).
pub fn atos_lines(chunk: &Vec<(String, u64)>, stdout: &str) -> (r: Vec<(String, String)>)
    ensures
        r@.len() == chunk@.len(),
        forall|i: int|
            0 <= i < chunk@.len() ==> (#[trigger] r@[i]).0@ == chunk@[i].0@ && r@[i].1@
                == atos_line_spec(lines_spec(stdout@), i, chunk@[i].0@),
{
    let cs = chars_of(stdout);
    let lines = lines_of(&cs);
    let ghost lv = lines@.map_values(|l: Vec<char>| l@);
    let mut r: Vec<(String, String)> = Vec::new();
    let n = chunk.len();
    for i in 0..n
        invariant
            n == chunk.len(),
            lv == lines@.map_values(|l: Vec<char>| l@),
            lv == lines_spec(stdout@),
            r@.len() == i,
            forall|j: int|
                0 <= j < i ==> (#[trigger] r@[j]).0@ == chunk@[j].0@ && r@[j].1@
                    == atos_line_spec(lv, j, chunk@[j].0@),
    {
        let raw = &chunk[i].0;
        let text = if i < lines.len() {
            assert(lv[i as int] == lines@[i as int]@);
            let line = string_of(&lines[i]);
            let cleaned = clean_atos_symbol(line.as_str());
            if !cleaned.as_str().is_empty() {
                if has_source(&lines[i]) {
                    string_of(&trim(&lines[i]))
                } else {
                    cleaned
                }
            } else {
                raw.clone()
            }
        } else {
            raw.clone()
        };
        r.push((raw.clone(), text));
    }
    r
}

/// The concatenation of a list of batches.
pub open spec fn flatten_batches(b: Seq<Seq<(Seq<char>, u64)>>) -> Seq<(Seq<char>, u64)>
    decreases b.len(),
{
    if b.len() == 0 {
        Seq::empty()
    } else {
        flatten_batches(b.drop_last()) + b.last()
    }
}

/// The views of a list of batches.
pub open spec fn batches_view(b: Seq<Vec<(String, u64)>>) -> Seq<Seq<(Seq<char>, u64)>> {
    b.map_values(|c: Vec<(String, u64)>| addresses_view(c@))
}

/// Splits `addresses` into the batches of one `atos` call each, in order:
/// every batch holds `size` addresses but the last, which holds the rest.
pub fn atos_chunks(addresses: &Vec<(String, u64)>, size: usize) -> (r: Vec<Vec<(String, u64)>>)
    requires
        size > 0,
    ensures
        flatten_batches(batches_view(r@)) == addresses_view(addresses@),
        forall|i: int| 0 <= i < r@.len() ==> (#[trigger] r@[i])@.len() > 0,
        forall|i: int| 0 <= i < r@.len() - 1 ==> (#[trigger] r@[i])@.len() == size,
        r@.len() > 0 ==> r@[r@.len() - 1]@.len() <= size,
{
    let ghost av = addresses_view(addresses@);
    let mut r: Vec<Vec<(String, u64)>> = Vec::new();
    let mut cur: Vec<(String, u64)> = Vec::new();
    let n = addresses.len();
    assert(batches_view(r@) == Seq::<Seq<(Seq<char>, u64)>>::empty());
    assert(av.take(0) == Seq::<(Seq<char>, u64)>::empty());
    for i in 0..n
        invariant
            n == addresses.len(),
            size > 0,
            av == addresses_view(addresses@),
            flatten_batches(batches_view(r@)) + addresses_view(cur@) == av.take(i as int),
            cur@.len() < size,
            forall|j: int| 0 <= j < r@.len() ==> (#[trigger] r@[j])@.len() == size,
    {
        let ghost old_cur = addresses_view(cur@);
        cur.push((addresses[i].0.clone(), addresses[i].1));
        assert(addresses_view(cur@) == old_cur.push(av[i as int]));
        assert(av.take(i + 1) == av.take(i as int).push(av[i as int]));
        if cur.len() == size {
            let ghost old_r = r@;
            let ghost done = addresses_view(cur@);
            let full = cur;
            cur = Vec::new();
            r.push(full);
            assert(batches_view(r@) == batches_view(old_r).push(done));
            assert(batches_view(r@).drop_last() == batches_view(old_r));
            assert(addresses_view(cur@) == Seq::<(Seq<char>, u64)>::empty());
            assert(flatten_batches(batches_view(r@)) + addresses_view(cur@) == flatten_batches(
                batches_view(r@),
            ));
        }
    }
    assert(av.take(n as int) == av);
    if cur.len() > 0 {
        let ghost old_r = r@;
        let ghost rest = addresses_view(cur@);
        r.push(cur);
        assert(batches_view(r@) == batches_view(old_r).push(rest));
        assert(batches_view(r@).drop_last() == batches_view(old_r));
    } else {
        assert(addresses_view(cur@) == Seq::<(Seq<char>, u64)>::empty());
        assert(flatten_batches(batches_view(r@)) + addresses_view(cur@) == flatten_batches(
            batches_view(r@),
        ));
    }
    r
}

} // verus!
