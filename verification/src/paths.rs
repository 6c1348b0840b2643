//! Pure string algebra on slash-separated module paths, plus the canonicalizer.
//!
//! A module path is a sequence of characters; components are separated by `/`.
//! Everything here is a function of its arguments alone: no filesystem is read.

use vstd::prelude::*;
use vstd::string::StrSliceExecFns;
use vstd::string::StringExecFns;

verus! {

/// A specifier is relative when it starts with `.` (`./x`, `../x`).
pub open spec fn is_relative_spec(s: Seq<char>) -> bool {
    s.len() > 0 && s[0] == '.'
}

/// Check if a module specifier is relative.
pub fn is_relative(specifier: &str) -> (b: bool)
    ensures
        b == is_relative_spec(specifier@),
{
    if specifier.unicode_len() == 0 {
        false
    } else {
        specifier.get_char(0) == '.'
    }
}

/// The canonical form of a path: `.` and `..` segments resolved, repeated
/// slashes reduced, by pure string algebra. The exact character sequence is
/// left abstract; it is a function of the input alone.
pub uninterp spec fn norm_of(s: Seq<char>) -> Seq<char>;

/// Relies on `path_clean::clean`: a lexical canonicalization that eliminates
/// `.` segments, resolves `..` against preceding segments and collapses
/// repeated slashes, without touching the filesystem; its result is a
/// function of the input path alone. Cleaning is idempotent: the output is a
/// root, then leading `..` segments, then plain segments, single-slashed (or
/// the single segment `.`), and cleaning such a path changes nothing — so
/// the result is its own canonical form.
#[verifier::external_body]
pub(crate) fn normalize(path: &str) -> (r: String)
    ensures
        r@ == norm_of(path@),
        norm_of(r@) == r@,
{
    path_clean::clean(path).to_string_lossy().into_owned()
}

/// Index of the last occurrence of `c` in `p`, or `-1` when `c` does not occur.
pub open spec fn last_pos(p: Seq<char>, c: char) -> int
    decreases p.len(),
{
    if p.len() == 0 {
        -1
    } else if p[p.len() - 1] == c {
        p.len() - 1
    } else {
        last_pos(p.drop_last(), c)
    }
}

pub proof fn lemma_last_pos(p: Seq<char>, c: char)
    ensures
        -1 <= last_pos(p, c) < p.len(),
        last_pos(p, c) >= 0 ==> p[last_pos(p, c)] == c,
        forall|j: int| last_pos(p, c) < j < p.len() ==> p[j] != c,
    decreases p.len(),
{
    if p.len() > 0 && p[p.len() - 1] != c {
        lemma_last_pos(p.drop_last(), c);
        assert(forall|j: int| 0 <= j < p.len() - 1 ==> p[j] == p.drop_last()[j]);
    }
}

pub proof fn lemma_last_pos_unique(p: Seq<char>, c: char, k: int)
    requires
        0 <= k < p.len(),
        p[k] == c,
        forall|j: int| k < j < p.len() ==> p[j] != c,
    ensures
        last_pos(p, c) == k,
    decreases p.len(),
{
    if p[p.len() - 1] == c {
        assert(k == p.len() - 1);
    } else {
        assert(k < p.len() - 1);
        assert(forall|j: int| 0 <= j < p.len() - 1 ==> p[j] == p.drop_last()[j]);
        lemma_last_pos_unique(p.drop_last(), c, k);
    }
}

/// Index of the last occurrence of `c` in `s`, if any.
pub fn find_last(s: &str, c: char) -> (r: Option<usize>)
    ensures
        match r {
            Some(i) => i == last_pos(s@, c) && i < s@.len(),
            None => last_pos(s@, c) == -1,
        },
{
    let n = s.unicode_len();
    let mut best: Option<usize> = None;
    let mut i: usize = 0;
    while i < n
        invariant
            i <= n,
            n == s@.len(),
            match best {
                Some(k) => k < i && s@[k as int] == c && (forall|j: int|
                    k < j < i ==> s@[j] != c),
                None => forall|j: int| 0 <= j < i ==> s@[j] != c,
            },
        decreases n - i,
    {
        if s.get_char(i) == c {
            best = Some(i);
        }
        i += 1;
    }
    proof {
        lemma_last_pos(s@, c);
        match best {
            Some(k) => lemma_last_pos_unique(s@, c, k as int),
            None => {},
        }
    }
    best
}

/// Everything before the last `/`; empty when there is no `/`.
pub open spec fn parent_of(p: Seq<char>) -> Seq<char> {
    if last_pos(p, '/') < 0 {
        Seq::empty()
    } else {
        p.subrange(0, last_pos(p, '/'))
    }
}

/// The directory part of `p`: everything before the last `/`.
pub fn parent_dir(p: &str) -> (r: String)
    ensures
        r@ == parent_of(p@),
{
    match find_last(p, '/') {
        Some(i) => {
            let sub = p.substring_char(0, i);
            String::from_str(sub)
        },
        None => {
            let r = String::new();
            proof {
                assert(r@ =~= parent_of(p@));
            }
            r
        },
    }
}

/// `a`/`b` joined with a single slash; just `b` when `a` is empty.
pub open spec fn join_paths(a: Seq<char>, b: Seq<char>) -> Seq<char> {
    if a.len() == 0 {
        b
    } else {
        a + seq!['/'] + b
    }
}

pub fn join_path(a: &str, b: &str) -> (r: String)
    ensures
        r@ == join_paths(a@, b@),
{
    if a.unicode_len() == 0 {
        String::from_str(b)
    } else {
        let mut s = String::from_str(a);
        s.append("/");
        s.append(b);
        proof {
            reveal_strlit("/");
            assert(("/")@ =~= seq!['/']);
            assert(s@ =~= join_paths(a@, b@));
        }
        s
    }
}

/// `p`'s final component is made only of dots (`.`, `..`): it has no file
/// name that could carry an extension, so extension substitution leaves such
/// a path unchanged.
pub open spec fn final_all_dots(p: Seq<char>) -> bool {
    forall|k: int| last_pos(p, '/') < k < p.len() ==> p[k] == '.'
}

/// Index of the dot that starts the extension of `p`'s final component, or
/// `-1` when that component has no extension. A dot that is the first
/// character of the component does not start an extension, and a component
/// made only of dots has none.
pub open spec fn ext_dot(p: Seq<char>) -> int {
    if last_pos(p, '.') >= last_pos(p, '/') + 2 && !final_all_dots(p) {
        last_pos(p, '.')
    } else {
        -1
    }
}

/// `p` with its extension (if any) replaced by `dotext`; `dotext` includes
/// the leading dot, as in `.ts`. A path whose final component is only dots
/// is returned unchanged.
pub open spec fn with_ext(p: Seq<char>, dotext: Seq<char>) -> Seq<char> {
    if final_all_dots(p) {
        p
    } else if ext_dot(p) >= 0 {
        p.subrange(0, ext_dot(p)) + dotext
    } else {
        p + dotext
    }
}

/// Are the characters of `s` from index `start` on all dots?
fn all_dots_from(s: &str, start: usize) -> (b: bool)
    ensures
        b == forall|k: int| start <= k < s@.len() ==> s@[k] == '.',
{
    let n = s.unicode_len();
    let mut i: usize = start;
    if start > n {
        return true;
    }
    while i < n
        invariant
            start <= i <= n,
            n == s@.len(),
            forall|k: int| start <= k < i ==> s@[k] == '.',
        decreases n - i,
    {
        if s.get_char(i) != '.' {
            return false;
        }
        i += 1;
    }
    true
}

/// Replace or append the extension of `p`'s final component.
pub fn with_extension(p: &str, dotext: &str) -> (r: String)
    ensures
        r@ == with_ext(p@, dotext@),
{
    let n = p.unicode_len();
    let dot = find_last(p, '.');
    let sep = find_last(p, '/');
    let comp_start: usize = match sep {
        Some(i) => i + 1,
        None => 0,
    };
    if all_dots_from(p, comp_start) {
        return String::from_str(p);
    }
    let cut: Option<usize> = match (dot, sep) {
        (Some(d), Some(s)) => if d >= 2 && d - 2 >= s {
            Some(d)
        } else {
            None
        },
        (Some(d), None) => if d >= 1 {
            Some(d)
        } else {
            None
        },
        _ => None,
    };
    match cut {
        Some(d) => {
            let stem = p.substring_char(0, d);
            let mut s = String::from_str(stem);
            s.append(dotext);
            s
        },
        None => {
            let mut s = String::from_str(p);
            s.append(dotext);
            s
        },
    }
}

/// The file a relative specifier written in `from` points at, before
/// extension probing: the canonicalized specifier joined against `from`'s
/// directory, canonicalized.
pub open spec fn candidate_of(from: Seq<char>, specifier: Seq<char>) -> Seq<char> {
    norm_of(join_paths(parent_of(from), norm_of(specifier)))
}

pub fn candidate_path(from: &str, specifier: &str) -> (r: String)
    ensures
        r@ == candidate_of(from@, specifier@),
{
    let c0 = normalize(specifier);
    let dir = parent_dir(from);
    let joined = join_path(dir.as_str(), c0.as_str());
    normalize(joined.as_str())
}

} // verus!
