//! The specifier resolver: a pure function from a module, a specifier and the
//! set of known file paths to the file the specifier denotes, if any.

use crate::order::contains_str;
use crate::paths::{
    candidate_of, candidate_path, is_relative, is_relative_spec, with_ext, with_extension,
};
use vstd::prelude::*;
use vstd::string::StringExecFns;

verus! {

/// The set of paths a vector of path strings holds.
pub open spec fn path_set(v: Seq<String>) -> Set<Seq<char>> {
    v.map_values(|s: String| s@).to_set()
}

/// View of an optional path.
pub open spec fn view_opt(o: Option<String>) -> Option<Seq<char>> {
    match o {
        Some(s) => Some(s@),
        None => None,
    }
}

/// Where a specifier written in `from` resolves, against the file set `fs`.
/// Only relative specifiers (leading `.`) are eligible; any other specifier
/// denotes an external package and never resolves. A relative specifier is
/// probed as: the candidate path with each of the extensions `.ts`, `.tsx`,
/// `.js`, `.jsx` substituted or appended, in that order; then the candidate
/// taken literally; then `candidate/index.<ext>` for each extension in the
/// same order; `None` when nothing matches.
pub open spec fn resolve_spec(from: Seq<char>, specifier: Seq<char>, fs: Set<Seq<char>>) -> Option<
    Seq<char>,
> {
    let c = candidate_of(from, specifier);
    if !is_relative_spec(specifier) {
        None
    } else if fs.contains(with_ext(c, ".ts"@)) {
        Some(with_ext(c, ".ts"@))
    } else if fs.contains(with_ext(c, ".tsx"@)) {
        Some(with_ext(c, ".tsx"@))
    } else if fs.contains(with_ext(c, ".js"@)) {
        Some(with_ext(c, ".js"@))
    } else if fs.contains(with_ext(c, ".jsx"@)) {
        Some(with_ext(c, ".jsx"@))
    } else if fs.contains(c) {
        Some(c)
    } else if fs.contains(c + "/index.ts"@) {
        Some(c + "/index.ts"@)
    } else if fs.contains(c + "/index.tsx"@) {
        Some(c + "/index.tsx"@)
    } else if fs.contains(c + "/index.js"@) {
        Some(c + "/index.js"@)
    } else if fs.contains(c + "/index.jsx"@) {
        Some(c + "/index.jsx"@)
    } else {
        None
    }
}

/// Whatever resolves, resolves to a member of the file set.
pub proof fn lemma_resolve_in_set(from: Seq<char>, specifier: Seq<char>, fs: Set<Seq<char>>)
    ensures
        resolve_spec(from, specifier, fs) matches Some(t) ==> fs.contains(t),
{
}

/// Membership of a string in the path set of a vector.
fn set_has(file_set: &Vec<String>, s: &str) -> (b: bool)
    ensures
        b == path_set(file_set@).contains(s@),
{
    broadcast use vstd::set::group_set_axioms;

    let r = contains_str(file_set, s);
    proof {
        let m = file_set@.map_values(|x: String| x@);
        assert(m =~= file_set.deep_view());
        assert(path_set(file_set@).contains(s@) == m.contains(s@));
    }
    r
}

/// Resolve a relative import specifier against a set of known file paths.
/// Non-relative specifiers are external packages and never resolve.
pub fn resolve_relative_import_from_set(from: &str, specifier: &str, file_set: &Vec<String>) -> (r:
    Option<String>)
    ensures
        view_opt(r) == resolve_spec(from@, specifier@, path_set(file_set@)),
{
    if !is_relative(specifier) {
        return None;
    }
    let c = candidate_path(from, specifier);

    let t = with_extension(c.as_str(), ".ts");
    if set_has(file_set, t.as_str()) {
        return Some(t);
    }
    let t = with_extension(c.as_str(), ".tsx");
    if set_has(file_set, t.as_str()) {
        return Some(t);
    }
    let t = with_extension(c.as_str(), ".js");
    if set_has(file_set, t.as_str()) {
        return Some(t);
    }
    let t = with_extension(c.as_str(), ".jsx");
    if set_has(file_set, t.as_str()) {
        return Some(t);
    }
    if set_has(file_set, c.as_str()) {
        return Some(c);
    }
    let t = c.clone().concat("/index.ts");
    if set_has(file_set, t.as_str()) {
        return Some(t);
    }
    let t = c.clone().concat("/index.tsx");
    if set_has(file_set, t.as_str()) {
        return Some(t);
    }
    let t = c.clone().concat("/index.js");
    if set_has(file_set, t.as_str()) {
        return Some(t);
    }
    let t = c.clone().concat("/index.jsx");
    if set_has(file_set, t.as_str()) {
        return Some(t);
    }
    None
}

} // verus!
