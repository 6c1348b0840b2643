//! Lexicographic order on paths and names, string comparison helpers, and
//! sorting for the analysis results.

use vstd::multiset::Multiset;
use vstd::prelude::*;
use vstd::seq_lib::group_to_multiset_ensures;
use vstd::string::StrSliceExecFns;

verus! {

/// Character-wise lexicographic order on character sequences, by Unicode
/// scalar value; a proper prefix comes first.
pub open spec fn lex_lt(a: Seq<char>, b: Seq<char>) -> bool
    decreases a.len(),
{
    if b.len() == 0 {
        false
    } else if a.len() == 0 {
        true
    } else if a[0] == b[0] {
        lex_lt(a.drop_first(), b.drop_first())
    } else {
        (a[0] as u32) < (b[0] as u32)
    }
}

pub open spec fn lex_le(a: Seq<char>, b: Seq<char>) -> bool {
    lex_lt(a, b) || a == b
}

pub proof fn lemma_lex_lt_trichotomy(a: Seq<char>, b: Seq<char>)
    ensures
        lex_lt(a, b) || lex_lt(b, a) || a == b,
    decreases a.len(),
{
    if a.len() == 0 && b.len() == 0 {
        assert(a =~= b);
    } else if a.len() > 0 && b.len() > 0 && a[0] == b[0] {
        lemma_lex_lt_trichotomy(a.drop_first(), b.drop_first());
        if a.drop_first() == b.drop_first() {
            assert(a =~= b) by {
                assert(a.drop_first().len() == b.drop_first().len());
                assert(a.len() == b.len());
                assert forall|i: int| 0 <= i < a.len() implies a[i] == b[i] by {
                    if i >= 1 {
                        assert(a[i] == a.drop_first()[i - 1]);
                        assert(b[i] == b.drop_first()[i - 1]);
                    }
                }
            }
        }
    } else if a.len() > 0 && b.len() > 0 {
        vstd::utf8::char_u32_cast(a[0], a[0] as u32);
        vstd::utf8::char_u32_cast(b[0], b[0] as u32);
        assert((a[0] as u32) != (b[0] as u32));
    }
}

pub proof fn lemma_lex_lt_asymmetric(a: Seq<char>, b: Seq<char>)
    ensures
        lex_lt(a, b) ==> !lex_lt(b, a),
        lex_lt(a, b) ==> a != b,
    decreases a.len(),
{
    if a.len() > 0 && b.len() > 0 && a[0] == b[0] {
        lemma_lex_lt_asymmetric(a.drop_first(), b.drop_first());
        if a.drop_first() != b.drop_first() {
            assert(a != b) by {
                if a == b {
                    assert(a.drop_first() =~= b.drop_first());
                }
            }
        }
    }
}

pub proof fn lemma_lex_lt_transitive(a: Seq<char>, b: Seq<char>, c: Seq<char>)
    ensures
        lex_lt(a, b) && lex_lt(b, c) ==> lex_lt(a, c),
    decreases a.len() + b.len() + c.len(),
{
    if a.len() > 0 && b.len() > 0 && c.len() > 0 {
        lemma_lex_lt_transitive(a.drop_first(), b.drop_first(), c.drop_first());
    }
}

/// Order on `(path, name)` pairs: by path, then by name.
pub open spec fn pair_lt(x: (Seq<char>, Seq<char>), y: (Seq<char>, Seq<char>)) -> bool {
    lex_lt(x.0, y.0) || (x.0 == y.0 && lex_lt(x.1, y.1))
}

pub proof fn lemma_pair_lt_trichotomy(x: (Seq<char>, Seq<char>), y: (Seq<char>, Seq<char>))
    ensures
        pair_lt(x, y) || pair_lt(y, x) || x == y,
{
    lemma_lex_lt_trichotomy(x.0, y.0);
    lemma_lex_lt_trichotomy(x.1, y.1);
}

pub proof fn lemma_pair_lt_asymmetric(x: (Seq<char>, Seq<char>), y: (Seq<char>, Seq<char>))
    ensures
        pair_lt(x, y) ==> !pair_lt(y, x),
        pair_lt(x, y) ==> x != y,
{
    lemma_lex_lt_asymmetric(x.0, y.0);
    lemma_lex_lt_asymmetric(x.1, y.1);
}

pub proof fn lemma_pair_lt_transitive(
    x: (Seq<char>, Seq<char>),
    y: (Seq<char>, Seq<char>),
    z: (Seq<char>, Seq<char>),
)
    ensures
        pair_lt(x, y) && pair_lt(y, z) ==> pair_lt(x, z),
{
    lemma_lex_lt_transitive(x.0, y.0, z.0);
    lemma_lex_lt_transitive(x.1, y.1, z.1);
    if pair_lt(x, y) && pair_lt(y, z) {
        lemma_lex_lt_asymmetric(x.0, y.0);
        lemma_lex_lt_asymmetric(y.0, z.0);
    }
}

/// Equality of string slices, decided character by character.
pub fn str_eq(a: &str, b: &str) -> (r: bool)
    ensures
        r == (a@ == b@),
{
    let n = a.unicode_len();
    if n != b.unicode_len() {
        return false;
    }
    let mut i: usize = 0;
    while i < n
        invariant
            i <= n,
            n == a@.len(),
            n == b@.len(),
            forall|j: int| 0 <= j < i ==> a@[j] == b@[j],
        decreases n - i,
    {
        if a.get_char(i) != b.get_char(i) {
            return false;
        }
        i += 1;
    }
    proof {
        assert(a@ =~= b@);
    }
    true
}

/// Lexicographic comparison of string slices.
pub fn str_lt(a: &str, b: &str) -> (r: bool)
    ensures
        r == lex_lt(a@, b@),
{
    let na = a.unicode_len();
    let nb = b.unicode_len();
    let mut i: usize = 0;
    proof {
        assert(a@.skip(0) =~= a@);
        assert(b@.skip(0) =~= b@);
    }
    while i < na && i < nb
        invariant
            i <= na,
            i <= nb,
            na == a@.len(),
            nb == b@.len(),
            lex_lt(a@, b@) == lex_lt(a@.skip(i as int), b@.skip(i as int)),
        decreases na - i,
    {
        let ca = a.get_char(i);
        let cb = b.get_char(i);
        if ca != cb {
            proof {
                assert(a@.skip(i as int)[0] == a@[i as int]);
                assert(b@.skip(i as int)[0] == b@[i as int]);
            }
            return (ca as u32) < (cb as u32);
        }
        proof {
            assert(a@.skip(i as int).drop_first() =~= a@.skip(i + 1));
            assert(b@.skip(i as int).drop_first() =~= b@.skip(i + 1));
        }
        i += 1;
    }
    na < nb
}

/// Membership of a string in a vector of strings.
pub fn contains_str(v: &Vec<String>, s: &str) -> (b: bool)
    ensures
        b == v.deep_view().contains(s@),
{
    let mut i: usize = 0;
    while i < v.len()
        invariant
            i <= v@.len(),
            forall|j: int| 0 <= j < i ==> v.deep_view()[j] != s@,
        decreases v@.len() - i,
    {
        if str_eq(v[i].as_str(), s) {
            assert(v.deep_view()[i as int] == s@);
            return true;
        }
        i += 1;
    }
    false
}

/// Non-strict sortedness of a sequence of pairs under `pair_lt`.
pub open spec fn pairs_sorted(s: Seq<(Seq<char>, Seq<char>)>) -> bool {
    forall|i: int, j: int|
        0 <= i < j < s.len() ==> pair_lt(#[trigger] s[i], #[trigger] s[j]) || s[i] == s[j]
}

/// Non-strict sortedness of a sequence of strings under `lex_lt`.
pub open spec fn strings_sorted(s: Seq<Seq<char>>) -> bool {
    forall|i: int, j: int| 0 <= i < j < s.len() ==> lex_le(#[trigger] s[i], #[trigger] s[j])
}

/// View of a vector of `(path, name)` pairs.
pub open spec fn pairs_view(v: Seq<(String, String)>) -> Seq<(Seq<char>, Seq<char>)> {
    v.map_values(|p: (String, String)| (p.0@, p.1@))
}

/// Moving the selected element from `rem` to the end of `out` preserves the
/// combined contents.
proof fn lemma_select_step<A>(out0: Seq<A>, rem0: Seq<A>, best: int)
    requires
        0 <= best < rem0.len(),
    ensures
        out0.push(rem0[best]).to_multiset().add(rem0.remove(best).to_multiset())
            == out0.to_multiset().add(rem0.to_multiset()),
{
    broadcast use group_to_multiset_ensures, vstd::multiset::group_multiset_axioms;

    let m = rem0[best];
    assert(out0.push(m).to_multiset() =~= out0.to_multiset().insert(m));
    assert(rem0.remove(best).to_multiset() =~= rem0.to_multiset().remove(m));
    assert(rem0.contains(m));
    assert(rem0.to_multiset().count(m) > 0);
    assert(out0.push(m).to_multiset().add(rem0.remove(best).to_multiset()) =~= out0.to_multiset().add(
        rem0.to_multiset(),
    ));
}

/// Sort a vector of strings lexicographically; the result holds exactly the
/// same strings (with multiplicity).
pub fn sort_strings(v: Vec<String>) -> (r: Vec<String>)
    ensures
        r.deep_view().to_multiset() == v.deep_view().to_multiset(),
        strings_sorted(r.deep_view()),
{
    broadcast use group_to_multiset_ensures;

    let mut rem = v;
    let mut out: Vec<String> = Vec::new();
    let ghost orig = rem.deep_view().to_multiset();
    proof {
        assert(out.deep_view().to_multiset().add(rem.deep_view().to_multiset()) =~= orig);
    }
    while rem.len() > 0
        invariant
            out.deep_view().to_multiset().add(rem.deep_view().to_multiset()) =~= orig,
            strings_sorted(out.deep_view()),
            forall|i: int, j: int|
                0 <= i < out.deep_view().len() && 0 <= j < rem.deep_view().len() ==> lex_le(
                    #[trigger] out.deep_view()[i],
                    #[trigger] rem.deep_view()[j],
                ),
        decreases rem.len(),
    {
        // find the least remaining string
        let mut best: usize = 0;
        let mut k: usize = 1;
        while k < rem.len()
            invariant
                best < k <= rem@.len(),
                forall|j: int|
                    0 <= j < k ==> lex_le(rem.deep_view()[best as int], #[trigger] rem.deep_view()[j]),
            decreases rem@.len() - k,
        {
            if str_lt(rem[k].as_str(), rem[best].as_str()) {
                proof {
                    assert forall|j: int| 0 <= j < k + 1 implies lex_le(
                        rem.deep_view()[k as int],
                        #[trigger] rem.deep_view()[j],
                    ) by {
                        lemma_lex_lt_transitive(
                            rem.deep_view()[k as int],
                            rem.deep_view()[best as int],
                            rem.deep_view()[j],
                        );
                    }
                }
                best = k;
            } else {
                proof {
                    lemma_lex_lt_trichotomy(rem.deep_view()[best as int], rem.deep_view()[k as int]);
                }
            }
            k += 1;
        }
        let ghost old_out = out.deep_view();
        let ghost old_rem = rem.deep_view();
        let m = rem.remove(best);
        out.push(m);
        proof {
            assert(out.deep_view() =~= old_out.push(m@));
            assert(rem.deep_view() =~= old_rem.remove(best as int));
            assert(m@ == old_rem[best as int]);
            lemma_select_step(old_out, old_rem, best as int);
            assert(out.deep_view().to_multiset().add(rem.deep_view().to_multiset()) =~= orig);
            assert forall|i: int, j: int| 0 <= i < j < out.deep_view().len() implies lex_le(
                out.deep_view()[i],
                out.deep_view()[j],
            ) by {
                if j == old_out.len() {
                    assert(out.deep_view()[j] == m@);
                    assert(lex_le(old_out[i], old_rem[best as int]));
                }
            }
            assert forall|i: int, j: int|
                0 <= i < out.deep_view().len() && 0 <= j < rem.deep_view().len() implies lex_le(
                out.deep_view()[i],
                rem.deep_view()[j],
            ) by {
                if i < old_out.len() {
                    if j < best {
                        assert(rem.deep_view()[j] == old_rem[j]);
                    } else {
                        assert(rem.deep_view()[j] == old_rem[j + 1]);
                    }
                } else {
                    assert(out.deep_view()[i] == m@);
                    if j < best {
                        assert(rem.deep_view()[j] == old_rem[j]);
                    } else {
                        assert(rem.deep_view()[j] == old_rem[j + 1]);
                    }
                }
            }
        }
    }
    proof {
        assert(rem.deep_view().to_multiset() =~= Multiset::empty());
        assert(out.deep_view().to_multiset() =~= orig);
    }
    out
}

/// Sort a vector of `(path, name)` pairs by path, then name; the result holds
/// exactly the same pairs (with multiplicity).
pub fn sort_pairs(v: Vec<(String, String)>) -> (r: Vec<(String, String)>)
    ensures
        pairs_view(r@).to_multiset() == pairs_view(v@).to_multiset(),
        pairs_sorted(pairs_view(r@)),
{
    broadcast use group_to_multiset_ensures;

    let mut rem = v;
    let mut out: Vec<(String, String)> = Vec::new();
    let ghost orig = pairs_view(rem@).to_multiset();
    proof {
        assert(pairs_view(out@).to_multiset().add(pairs_view(rem@).to_multiset()) =~= orig);
    }
    while rem.len() > 0
        invariant
            pairs_view(out@).to_multiset().add(pairs_view(rem@).to_multiset()) =~= orig,
            pairs_sorted(pairs_view(out@)),
            forall|i: int, j: int|
                0 <= i < pairs_view(out@).len() && 0 <= j < pairs_view(rem@).len() ==> pair_lt(
                    #[trigger] pairs_view(out@)[i],
                    #[trigger] pairs_view(rem@)[j],
                ) || pairs_view(out@)[i] == pairs_view(rem@)[j],
        decreases rem.len(),
    {
        let mut best: usize = 0;
        let mut k: usize = 1;
        while k < rem.len()
            invariant
                best < k <= rem@.len(),
                forall|j: int|
                    0 <= j < k ==> pair_lt(
                        pairs_view(rem@)[best as int],
                        #[trigger] pairs_view(rem@)[j],
                    ) || pairs_view(rem@)[best as int] == pairs_view(rem@)[j],
            decreases rem@.len() - k,
        {
            let kp_lt = {
                let first = str_lt(rem[k].0.as_str(), rem[best].0.as_str());
                if first {
                    true
                } else if str_eq(rem[k].0.as_str(), rem[best].0.as_str()) {
                    str_lt(rem[k].1.as_str(), rem[best].1.as_str())
                } else {
                    false
                }
            };
            if kp_lt {
                proof {
                    assert(pair_lt(pairs_view(rem@)[k as int], pairs_view(rem@)[best as int]));
                    assert forall|j: int| 0 <= j < k + 1 implies pair_lt(
                        pairs_view(rem@)[k as int],
                        #[trigger] pairs_view(rem@)[j],
                    ) || pairs_view(rem@)[k as int] == pairs_view(rem@)[j] by {
                        lemma_pair_lt_transitive(
                            pairs_view(rem@)[k as int],
                            pairs_view(rem@)[best as int],
                            pairs_view(rem@)[j],
                        );
                    }
                }
                best = k;
            } else {
                proof {
                    lemma_pair_lt_trichotomy(
                        pairs_view(rem@)[best as int],
                        pairs_view(rem@)[k as int],
                    );
                }
            }
            k += 1;
        }
        let ghost old_out = pairs_view(out@);
        let ghost old_rem = pairs_view(rem@);
        let m = rem.remove(best);
        out.push(m);
        proof {
            assert(pairs_view(out@) =~= old_out.push((m.0@, m.1@)));
            assert(pairs_view(rem@) =~= old_rem.remove(best as int));
            assert((m.0@, m.1@) == old_rem[best as int]);
            lemma_select_step(old_out, old_rem, best as int);
            assert(pairs_view(out@).to_multiset().add(pairs_view(rem@).to_multiset()) =~= orig);
            assert forall|i: int, j: int| 0 <= i < j < pairs_view(out@).len() implies pair_lt(
                pairs_view(out@)[i],
                pairs_view(out@)[j],
            ) || pairs_view(out@)[i] == pairs_view(out@)[j] by {
                if j == old_out.len() {
                    assert(pairs_view(out@)[j] == (m.0@, m.1@));
                    assert(pair_lt(old_out[i], old_rem[best as int]) || old_out[i] == old_rem[
                        best as int]);
                }
            }
            assert forall|i: int, j: int|
                0 <= i < pairs_view(out@).len() && 0 <= j < pairs_view(rem@).len() implies pair_lt(
                pairs_view(out@)[i],
                pairs_view(rem@)[j],
            ) || pairs_view(out@)[i] == pairs_view(rem@)[j] by {
                if j < best {
                    assert(pairs_view(rem@)[j] == old_rem[j]);
                } else {
                    assert(pairs_view(rem@)[j] == old_rem[j + 1]);
                }
                if i == old_out.len() {
                    assert(pairs_view(out@)[i] == (m.0@, m.1@));
                }
            }
        }
    }
    proof {
        assert(pairs_view(rem@).to_multiset() =~= Multiset::empty());
        assert(pairs_view(out@).to_multiset() =~= orig);
    }
    out
}


/// Sorting a duplicate-free pair sequence yields a strictly sorted sequence
/// with exactly the same members.
pub proof fn lemma_sort_pairs_post(inp: Seq<(Seq<char>, Seq<char>)>, outp: Seq<(Seq<char>, Seq<char>)>)
    requires
        inp.to_multiset() == outp.to_multiset(),
        pairs_sorted(outp),
        inp.no_duplicates(),
    ensures
        outp.no_duplicates(),
        forall|x: (Seq<char>, Seq<char>)| #[trigger] outp.contains(x) == inp.contains(x),
        forall|a: int, b: int| 0 <= a < b < outp.len() ==> pair_lt(#[trigger] outp[a], #[trigger] outp[b]),
{
    broadcast use group_to_multiset_ensures;

    inp.lemma_multiset_has_no_duplicates();
    outp.lemma_multiset_has_no_duplicates_conv();
    assert forall|x: (Seq<char>, Seq<char>)| #[trigger] outp.contains(x) == inp.contains(x) by {
        assert(outp.contains(x) == (outp.to_multiset().count(x) > 0));
        assert(inp.contains(x) == (inp.to_multiset().count(x) > 0));
    }
    assert forall|a: int, b: int| 0 <= a < b < outp.len() implies pair_lt(
        #[trigger] outp[a],
        #[trigger] outp[b],
    ) by {
        assert(pair_lt(outp[a], outp[b]) || outp[a] == outp[b]);
        assert(outp[a] != outp[b]);
    }
}

/// Strictly sorted string sequences with the same members are equal; likewise
/// for pair sequences. Stated once, over any strict order.
pub proof fn lemma_strict_sorted_unique<T>(a: Seq<T>, b: Seq<T>, lt: spec_fn(T, T) -> bool)
    requires
        forall|x: T, y: T| #[trigger] lt(x, y) ==> !lt(y, x) && x != y,
        forall|x: T, y: T| lt(x, y) || #[trigger] lt(y, x) || x == y,
        forall|i: int, j: int| 0 <= i < j < a.len() ==> lt(#[trigger] a[i], #[trigger] a[j]),
        forall|i: int, j: int| 0 <= i < j < b.len() ==> lt(#[trigger] b[i], #[trigger] b[j]),
        forall|x: T| #[trigger] a.contains(x) == b.contains(x),
    ensures
        a == b,
    decreases a.len(),
{
    if a.len() == 0 {
        if b.len() > 0 {
            assert(b.contains(b[0]));
            assert(a.contains(b[0]));
        }
        assert(a =~= b);
    } else {
        assert(a.contains(a[0]));
        assert(b.contains(a[0]));
        assert(b.len() > 0);
        assert(b.contains(b[0]));
        assert(a.contains(b[0]));
        let bi = choose|bi: int| 0 <= bi < b.len() && b[bi] == a[0];
        let ai = choose|ai: int| 0 <= ai < a.len() && a[ai] == b[0];
        assert(a[0] == b[0]) by {
            if bi > 0 {
                assert(lt(b[0], b[bi]));
            }
            if ai > 0 {
                assert(lt(a[0], a[ai]));
            }
        }
        let a2 = a.drop_first();
        let b2 = b.drop_first();
        assert forall|x: T| #[trigger] a2.contains(x) == b2.contains(x) by {
            assert(a2.contains(x) == (a.contains(x) && x != a[0])) by {
                if a2.contains(x) {
                    let k = choose|k: int| 0 <= k < a2.len() && a2[k] == x;
                    assert(a[k + 1] == x);
                    assert(lt(a[0], a[k + 1]));
                    assert(a.contains(x));
                }
                if a.contains(x) && x != a[0] {
                    let k = choose|k: int| 0 <= k < a.len() && a[k] == x;
                    assert(k > 0);
                    assert(a2[k - 1] == x);
                }
            }
            assert(b2.contains(x) == (b.contains(x) && x != b[0])) by {
                if b2.contains(x) {
                    let k = choose|k: int| 0 <= k < b2.len() && b2[k] == x;
                    assert(b[k + 1] == x);
                    assert(lt(b[0], b[k + 1]));
                    assert(b.contains(x));
                }
                if b.contains(x) && x != b[0] {
                    let k = choose|k: int| 0 <= k < b.len() && b[k] == x;
                    assert(k > 0);
                    assert(b2[k - 1] == x);
                }
            }
        }
        assert(forall|i: int, j: int|
            0 <= i < j < a2.len() ==> lt(#[trigger] a2[i], #[trigger] a2[j]));
        assert(forall|i: int, j: int|
            0 <= i < j < b2.len() ==> lt(#[trigger] b2[i], #[trigger] b2[j]));
        lemma_strict_sorted_unique(a2, b2, lt);
        assert(a =~= b) by {
            assert(a.len() == b.len());
            assert forall|i: int| 0 <= i < a.len() implies a[i] == b[i] by {
                if i > 0 {
                    assert(a[i] == a2[i - 1]);
                    assert(b[i] == b2[i - 1]);
                }
            }
        }
    }
}


/// Sorting a duplicate-free string sequence yields a strictly sorted sequence
/// with exactly the same members.
pub proof fn lemma_sort_strings_post(inp: Seq<Seq<char>>, outp: Seq<Seq<char>>)
    requires
        inp.to_multiset() == outp.to_multiset(),
        strings_sorted(outp),
        inp.no_duplicates(),
    ensures
        outp.no_duplicates(),
        forall|x: Seq<char>| #[trigger] outp.contains(x) == inp.contains(x),
        forall|a: int, b: int| 0 <= a < b < outp.len() ==> lex_lt(#[trigger] outp[a], #[trigger] outp[b]),
{
    broadcast use group_to_multiset_ensures;

    inp.lemma_multiset_has_no_duplicates();
    outp.lemma_multiset_has_no_duplicates_conv();
    assert forall|x: Seq<char>| #[trigger] outp.contains(x) == inp.contains(x) by {
        assert(outp.contains(x) == (outp.to_multiset().count(x) > 0));
        assert(inp.contains(x) == (inp.to_multiset().count(x) > 0));
    }
    assert forall|a: int, b: int| 0 <= a < b < outp.len() implies lex_lt(
        #[trigger] outp[a],
        #[trigger] outp[b],
    ) by {
        assert(lex_le(outp[a], outp[b]));
        assert(outp[a] != outp[b]);
    }
}

} // verus!
