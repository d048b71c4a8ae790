//! Symbol names: removing Rust's hash suffix and mangling escapes, and
//! cleaning the lines that `atos` prints.

use vstd::prelude::*;

use crate::text::{
    chars_of, find_first, find_last, first_match, last_match, replace,
    replace_spec, string_of, sub_chars, trim, trim_end_char, trim_end_char_spec, trim_spec,
};

verus! {

/// An ASCII hexadecimal digit (`u8::is_ascii_hexdigit`).
pub open spec fn is_ascii_hex_spec(c: char) -> bool {
    let u = c as u32;
    (0x30 <= u <= 0x39) || (0x41 <= u <= 0x46) || (0x61 <= u <= 0x66)
}

/// Sixteen ASCII hexadecimal digits: the hash that rustc appends to a
/// symbol after `::h`.
pub open spec fn is_hash_spec(s: Seq<char>) -> bool {
    s.len() == 16 && forall|i: int| 0 <= i < 16 ==> is_ascii_hex_spec(#[trigger] s[i])
}

/// The separator in front of a Rust symbol hash.
pub open spec fn hash_separator() -> Seq<char> {
    seq![':', ':', 'h']
}

/// `name` without a trailing `::h<16 hex digits>`; only the last `::h` is
/// considered.
pub open spec fn trim_hash_suffix_spec(name: Seq<char>) -> Seq<char> {
    match last_match(name, hash_separator()) {
        None => name,
        Some(i) => if is_hash_spec(name.skip(i + 3)) {
            name.take(i)
        } else {
            name
        },
    }
}

/// The mangling escapes that `prettify` undoes, in the order it applies them.
pub open spec fn replacements_spec() -> Seq<(Seq<char>, Seq<char>)> {
    seq![
        (seq!['_', '$', 'L', 'T', '$'], seq!['<']),
        (seq!['$', 'L', 'T', '$'], seq!['<']),
        (seq!['$', 'G', 'T', '$'], seq!['>']),
        (seq!['$', 'u', '2', '0', '$'], seq![' ']),
        (seq!['$', 'u', '7', 'b', '$', '$', 'u', '7', 'b', '$'], seq!['{', '{']),
        (seq!['$', 'u', '7', 'd', '$', '$', 'u', '7', 'd', '$'], seq!['}', '}']),
        (seq!['$', 'R', 'F', '$'], seq!['&']),
        (seq!['$', 'C', '$'], seq![',']),
        (seq!['$', 'L', 'P', '$'], seq!['(']),
        (seq!['$', 'R', 'P', '$'], seq![')']),
    ]
}

/// Applies each replacement of `reps` in turn, over the whole string.
pub open spec fn apply_replacements(s: Seq<char>, reps: Seq<(Seq<char>, Seq<char>)>) -> Seq<
    char,
>
    decreases reps.len(),
{
    if reps.len() == 0 {
        s
    } else {
        apply_replacements(replace_spec(s, reps[0].0, reps[0].1), reps.drop_first())
    }
}

/// What `prettify` returns.
pub open spec fn prettify_spec(name: Seq<char>) -> Seq<char> {
    apply_replacements(trim_hash_suffix_spec(name), replacements_spec())
}

/// The marker after which `atos` names the image of a symbol.
pub open spec fn image_marker() -> Seq<char> {
    seq!['(', 'i', 'n', ' ']
}

/// The symbol part of an `atos` output line: the trimmed text before the
/// first `(in `, itself trimmed.
pub open spec fn atos_name_spec(line: Seq<char>) -> Seq<char> {
    let t = trim_spec(line);
    match first_match(t, image_marker()) {
        Some(i) => trim_spec(t.take(i)),
        None => t,
    }
}

/// Does an `atos` output line name a source location: is there a `(`
/// after its `(in ` marker (as in `f (in app) (main.rs:10)`, but not in
/// `f (in app) + 12`)?
pub open spec fn has_source_spec(line: Seq<char>) -> bool {
    match first_match(line, image_marker()) {
        Some(i) => first_match(line.skip(i + image_marker().len()), seq!['(']) is Some,
        None => false,
    }
}

/// What `clean_atos_symbol` returns.
pub open spec fn clean_atos_symbol_spec(line: Seq<char>) -> Seq<char> {
    prettify_spec(atos_name_spec(line))
}

/// The source location in a symbolicated name: the text after the last `(`,
/// without trailing `)`; the whole symbol when it has no `(`.
pub open spec fn symbol_location_spec(symbol: Seq<char>) -> Seq<char> {
    match last_match(symbol, seq!['(']) {
        Some(i) => trim_end_char_spec(symbol.skip(i + 1), ')'),
        None => symbol,
    }
}

fn is_ascii_hex(c: char) -> (b: bool)
    ensures
        b == is_ascii_hex_spec(c),
{
    let u = c as u32;
    (0x30 <= u && u <= 0x39) || (0x41 <= u && u <= 0x46) || (0x61 <= u && u <= 0x66)
}

fn is_hash(cs: &Vec<char>, from: usize) -> (b: bool)
    requires
        from <= cs.len(),
    ensures
        b == is_hash_spec(cs@.skip(from as int)),
{
    let ghost s = cs@.skip(from as int);
    if cs.len() - from != 16 {
        return false;
    }
    let mut i: usize = 0;
    while i < 16
        invariant
            from + 16 == cs.len(),
            s == cs@.skip(from as int),
            i <= 16,
            forall|k: int| 0 <= k < i ==> is_ascii_hex_spec(#[trigger] s[k]),
        decreases 16 - i,
    {
        assert(s[i as int] == cs@[from + i]);
        if !is_ascii_hex(cs[from + i]) {
            return false;
        }
        i = i + 1;
    }
    true
}

/// Where the name ends once a Rust hash suffix is removed.
fn hash_suffix_cut(cs: &Vec<char>) -> (end: usize)
    ensures
        end <= cs.len(),
        cs@.take(end as int) == trim_hash_suffix_spec(cs@),
{
    let sep = vec![':', ':', 'h'];
    assert(sep@ == hash_separator());
    match find_last(cs, &sep) {
        None => {
            assert(cs@.take(cs.len() as int) == cs@);
            cs.len()
        },
        Some(i) => {
            let n = cs.len();
            assert(i + 3 <= n);
            if is_hash(cs, i + 3) {
                i
            } else {
                assert(cs@.take(cs.len() as int) == cs@);
                cs.len()
            }
        },
    }
}

/// Removes a trailing Rust symbol hash (`::h` and sixteen hex digits).
pub fn trim_hash_suffix(name: &str) -> (r: &str)
    ensures
        r@ == trim_hash_suffix_spec(name@),
{
    let cs = chars_of(name);
    let end = hash_suffix_cut(&cs);
    name.substring_char(0, end)
}

fn replacement_pairs() -> (r: Vec<(Vec<char>, Vec<char>)>)
    ensures
        r@.len() == replacements_spec().len(),
        forall|i: int|
            0 <= i < r@.len() ==> (#[trigger] r@[i]).0@ == replacements_spec()[i].0 && r@[i].1@
                == replacements_spec()[i].1,
{
    let mut r: Vec<(Vec<char>, Vec<char>)> = Vec::new();
    r.push((vec!['_', '$', 'L', 'T', '$'], vec!['<']));
    r.push((vec!['$', 'L', 'T', '$'], vec!['<']));
    r.push((vec!['$', 'G', 'T', '$'], vec!['>']));
    r.push((vec!['$', 'u', '2', '0', '$'], vec![' ']));
    r.push((vec!['$', 'u', '7', 'b', '$', '$', 'u', '7', 'b', '$'], vec!['{', '{']));
    r.push((vec!['$', 'u', '7', 'd', '$', '$', 'u', '7', 'd', '$'], vec!['}', '}']));
    r.push((vec!['$', 'R', 'F', '$'], vec!['&']));
    r.push((vec!['$', 'C', '$'], vec![',']));
    r.push((vec!['$', 'L', 'P', '$'], vec!['(']));
    r.push((vec!['$', 'R', 'P', '$'], vec![')']));
    r
}

fn prettify_chars(name: &Vec<char>) -> (r: Vec<char>)
    ensures
        r@ == prettify_spec(name@),
{
    let end = hash_suffix_cut(name);
    let mut pretty = sub_chars(name, 0, end);
    let pairs = replacement_pairs();
    let ghost reps = replacements_spec();
    let n = pairs.len();
    assert(reps.skip(0) == reps);
    for i in 0..n
        invariant
            n == pairs@.len() == reps.len(),
            reps == replacements_spec(),
            forall|k: int|
                0 <= k < pairs@.len() ==> (#[trigger] pairs@[k]).0@ == reps[k].0 && pairs@[k].1@
                    == reps[k].1,
            prettify_spec(name@) == apply_replacements(pretty@, reps.skip(i as int)),
    {
        let ghost rest = reps.skip(i as int);
        assert(rest[0] == reps[i as int]);
        assert(rest.drop_first() == reps.skip(i + 1));
        assert(pairs@[i as int].0@.len() > 0);
        pretty = replace(&pretty, &pairs[i].0, &pairs[i].1);
    }
    pretty
}

/// Readable form of a symbol name: the hash suffix removed and the mangling
/// escapes (`$LT$`, `$GT$`, `$u20$`, ...) turned back into characters.
pub fn prettify(name: &str) -> (r: String)
    ensures
        r@ == prettify_spec(name@),
{
    let cs = chars_of(name);
    let p = prettify_chars(&cs);
    string_of(&p)
}

/// Whether the `atos` line `cs` names a source location.
pub fn has_source(cs: &Vec<char>) -> (b: bool)
    ensures
        b == has_source_spec(cs@),
{
    let marker = vec!['(', 'i', 'n', ' '];
    assert(marker@ == image_marker());
    match find_first(cs, &marker) {
        Some(i) => {
            let n = cs.len();
            let after = sub_chars(cs, i + 4, n);
            assert(after@ == cs@.skip(i + image_marker().len()));
            let open = vec!['('];
            assert(open@ == seq!['(']);
            find_first(&after, &open).is_some()
        },
        None => false,
    }
}

/// The readable symbol of one line of `atos` output.
pub fn clean_atos_symbol(symbol: &str) -> (r: String)
    ensures
        r@ == clean_atos_symbol_spec(symbol@),
{
    let cs = chars_of(symbol);
    let t = trim(&cs);
    let marker = vec!['(', 'i', 'n', ' '];
    assert(marker@ == image_marker());
    let name = match find_first(&t, &marker) {
        Some(i) => {
            let before = sub_chars(&t, 0, i);
            trim(&before)
        },
        None => t,
    };
    let p = prettify_chars(&name);
    string_of(&p)
}

/// The source location named in a symbolicated frame (the part after the last
/// `(`, without closing parentheses).
pub fn symbol_location(symbol: &str) -> (r: String)
    ensures
        r@ == symbol_location_spec(symbol@),
{
    let cs = chars_of(symbol);
    let open = vec!['('];
    assert(open@ == seq!['(']);
    match find_last(&cs, &open) {
        Some(i) => {
            let n = cs.len();
            assert(i + 1 <= n);
            let after = sub_chars(&cs, i + 1, n);
            assert(after@ == cs@.skip(i + 1));
            let loc = trim_end_char(&after, ')');
            string_of(&loc)
        },
        None => string_of(&cs),
    }
}

} // verus!
