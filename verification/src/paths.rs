//! Deciding which images of a profile are the target binary.

use vstd::prelude::*;

use crate::profile::Lib;
use crate::text::first_match;

verus! {

/// `p` split at each `/`, empty parts included.
pub open spec fn split_at_slash(p: Seq<char>) -> Seq<Seq<char>>
    decreases p.len(),
{
    match first_match(p, seq!['/']) {
        Some(i) => if 0 <= i < p.len() {
            seq![p.take(i)] + split_at_slash(p.skip(i + 1))
        } else {
            seq![p]
        },
        None => seq![p],
    }
}

/// `std::path::Path::new(p).components()` with Unix path syntax, each
/// component as text: `/` for the root, `.` for a leading current
/// directory, `..` for a parent directory, else the name.  Repeated
/// separators, `.` parts other than a leading one, and a trailing `/` add
/// no component (as std documents for `Path::components`).
pub open spec fn components_spec(p: Seq<char>) -> Seq<Seq<char>> {
    let head = if p.len() > 0 && p[0] == '/' {
        seq![seq!['/']]
    } else if p == seq!['.'] || (p.len() >= 2 && p[0] == '.' && p[1] == '/') {
        seq![seq!['.']]
    } else {
        Seq::empty()
    };
    head + split_at_slash(p).filter(|c: Seq<char>| c.len() > 0 && c != seq!['.'])
}

/// `std::path::Path::new(a) == std::path::Path::new(b)`: the two paths
/// have the same components.
pub open spec fn path_eq_spec(a: Seq<char>, b: Seq<char>) -> bool {
    components_spec(a) == components_spec(b)
}

/// `std::path::Path::new(p).file_name()`: the last component, when it is
/// a name (not the root, `.` or `..`).
pub open spec fn file_name_spec(p: Seq<char>) -> Option<Seq<char>> {
    let c = components_spec(p);
    if c.len() > 0 && c.last() != seq!['/'] && c.last() != seq!['.'] && c.last() != seq!['.', '.'] {
        Some(c.last())
    } else {
        None
    }
}

/// `Path::new(a) == Path::new(b)`: std compares paths component by
/// component.  Claims that the answer is `path_eq_spec`, which states the
/// components with Unix path syntax (the macOS and Linux targets of this
/// library).
#[verifier::external_body]
fn paths_equal(a: &str, b: &str) -> (r: bool)
    ensures
        r == path_eq_spec(a@, b@),
{
    std::path::Path::new(a) == std::path::Path::new(b)
}

/// `Path::new(p).file_name()`, as text (the file name of a `str` path is
/// itself valid UTF-8, so the conversion loses nothing).  Claims that the
/// answer is `file_name_spec`: the last component when it is a name, with
/// Unix path syntax.
#[verifier::external_body]
fn file_name_of(p: &str) -> (r: Option<String>)
    ensures
        match r {
            Some(s) => file_name_spec(p@) == Some(s@),
            None => file_name_spec(p@) is None,
        },
{
    std::path::Path::new(p).file_name().map(|n| n.to_string_lossy().into_owned())
}

/// The view of an optional text.
pub open spec fn opt_str_view(s: Option<&str>) -> Option<Seq<char>> {
    match s {
        Some(s) => Some(s@),
        None => None,
    }
}

/// An image is the target binary when the paths are equal, when their file
/// names are equal, or when both canonical paths are known and equal.
pub open spec fn image_matches_spec(
    image: Seq<char>,
    binary: Seq<char>,
    image_canonical: Option<Seq<char>>,
    binary_canonical: Option<Seq<char>>,
) -> bool {
    ||| path_eq_spec(image, binary)
    ||| file_name_spec(image) == file_name_spec(binary)
    ||| match (image_canonical, binary_canonical) {
        (Some(i), Some(b)) => path_eq_spec(i, b),
        _ => false,
    }
}

/// Is the image at `image_path` the target `binary`?  `image_canonical` and
/// `binary_canonical` are the canonical forms of the two paths, where the
/// file system could resolve them.
pub fn image_matches_binary_cached(
    image_path: &str,
    binary: &str,
    image_canonical: Option<&str>,
    binary_canonical: Option<&str>,
) -> (r: bool)
    ensures
        r == image_matches_spec(
            image_path@,
            binary@,
            opt_str_view(image_canonical),
            opt_str_view(binary_canonical),
        ),
{
    if paths_equal(image_path, binary) {
        return true;
    }
    let a = file_name_of(image_path);
    let b = file_name_of(binary);
    let same_name = match (&a, &b) {
        (Some(x), Some(y)) => *x == *y,
        (None, None) => true,
        _ => false,
    };
    if same_name {
        return true;
    }
    match (image_canonical, binary_canonical) {
        (Some(i), Some(b)) => paths_equal(i, b),
        _ => false,
    }
}

/// Whether the image `lib` is the target binary (false for an image without
/// a path).
pub open spec fn lib_is_target_spec(
    lib: &Lib,
    binary: Seq<char>,
    lib_canonical: Option<String>,
    binary_canonical: Option<Seq<char>>,
) -> bool {
    match lib.path {
        Some(p) => image_matches_spec(
            p@,
            binary,
            match lib_canonical {
                Some(c) => Some(c@),
                None => None,
            },
            binary_canonical,
        ),
        None => false,
    }
}

/// For each image of the profile, whether it is the target binary.
/// `lib_canonicals[i]` is the canonical path of `libs[i]`, where known.
pub fn build_target_lib_flags(
    libs: &Vec<Lib>,
    binary: &str,
    lib_canonicals: &Vec<Option<String>>,
    binary_canonical: Option<&str>,
) -> (r: Vec<bool>)
    requires
        lib_canonicals.len() == libs.len(),
    ensures
        r.len() == libs.len(),
        forall|i: int|
            0 <= i < libs.len() ==> r[i] == lib_is_target_spec(
                &libs[i],
                binary@,
                lib_canonicals[i],
                opt_str_view(binary_canonical),
            ),
{
    let mut r: Vec<bool> = Vec::new();
    let n = libs.len();
    for i in 0..n
        invariant
            n == libs.len() == lib_canonicals.len(),
            r.len() == i,
            forall|j: int|
                0 <= j < i ==> r[j] == lib_is_target_spec(
                    &libs[j],
                    binary@,
                    lib_canonicals[j],
                    opt_str_view(binary_canonical),
                ),
    {
        let flag = match &libs[i].path {
            Some(p) => {
                let canonical = match &lib_canonicals[i] {
                    Some(c) => Some(c.as_str()),
                    None => None,
                };
                image_matches_binary_cached(p.as_str(), binary, canonical, binary_canonical)
            },
            None => false,
        };
        r.push(flag);
    }
    r
}

} // verus!
