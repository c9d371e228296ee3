//! Facts about sequences of characters shared by the parsers and the header decoder.
use vstd::prelude::*;

verus! {

/// `rest` is what is left of `s` once a prefix of it has been read.
pub open spec fn is_suffix_of(rest: Seq<char>, s: Seq<char>) -> bool {
    rest.len() <= s.len() && rest == s.skip(s.len() - rest.len())
}

pub proof fn lemma_skip_is_suffix(s: Seq<char>, k: int)
    requires
        0 <= k <= s.len(),
    ensures
        is_suffix_of(s.skip(k), s),
{
    assert(s.skip(k) =~= s.skip(s.len() - s.skip(k).len()));
}

pub proof fn lemma_suffix_trans(a: Seq<char>, b: Seq<char>, c: Seq<char>)
    requires
        is_suffix_of(a, b),
        is_suffix_of(b, c),
    ensures
        is_suffix_of(a, c),
{
    assert(a =~= c.skip(c.len() - a.len()));
}

/// The number of leading characters of `s` for which `f` holds.
pub open spec fn prefix_len_where(s: Seq<char>, f: spec_fn(char) -> bool) -> nat
    decreases s.len(),
{
    if s.len() > 0 && f(s[0]) {
        1 + prefix_len_where(s.drop_first(), f)
    } else {
        0
    }
}

pub proof fn lemma_prefix_len_where(s: Seq<char>, f: spec_fn(char) -> bool)
    ensures
        prefix_len_where(s, f) <= s.len(),
        forall|j: int| 0 <= j < prefix_len_where(s, f) ==> f(#[trigger] s[j]),
        prefix_len_where(s, f) < s.len() ==> !f(s[prefix_len_where(s, f) as int]),
    decreases s.len(),
{
    if s.len() > 0 && f(s[0]) {
        let t = s.drop_first();
        lemma_prefix_len_where(t, f);
        assert forall|j: int| 0 <= j < prefix_len_where(s, f) implies f(#[trigger] s[j]) by {
            if j > 0 {
                assert(s[j] == t[j - 1]);
            }
        }
        if prefix_len_where(s, f) < s.len() {
            assert(s[prefix_len_where(s, f) as int] == t[prefix_len_where(t, f) as int]);
        }
    }
}

/// Where every character before `i` satisfies `f` and the one at `i` (if any)
/// does not, `i` is the number of leading characters that satisfy `f`.
pub proof fn lemma_prefix_len_where_at(s: Seq<char>, f: spec_fn(char) -> bool, i: int)
    requires
        0 <= i <= s.len(),
        forall|j: int| 0 <= j < i ==> f(#[trigger] s[j]),
        i == s.len() || !f(s[i]),
    ensures
        prefix_len_where(s, f) == i,
    decreases i,
{
    if i > 0 {
        let t = s.drop_first();
        assert forall|j: int| 0 <= j < i - 1 implies f(#[trigger] t[j]) by {
            assert(t[j] == s[j + 1]);
        }
        if i < s.len() {
            assert(t[i - 1] == s[i]);
        }
        lemma_prefix_len_where_at(t, f, i - 1);
        assert(f(s[0]));
    }
}

/// The number of trailing characters of `s` for which `f` holds.
pub open spec fn suffix_len_where(s: Seq<char>, f: spec_fn(char) -> bool) -> nat
    decreases s.len(),
{
    if s.len() > 0 && f(s.last()) {
        1 + suffix_len_where(s.drop_last(), f)
    } else {
        0
    }
}

pub proof fn lemma_suffix_len_where(s: Seq<char>, f: spec_fn(char) -> bool)
    ensures
        suffix_len_where(s, f) <= s.len(),
        forall|j: int| s.len() - suffix_len_where(s, f) <= j < s.len() ==> f(#[trigger] s[j]),
        suffix_len_where(s, f) < s.len() ==> !f(s[s.len() - suffix_len_where(s, f) - 1]),
    decreases s.len(),
{
    if s.len() > 0 && f(s.last()) {
        let t = s.drop_last();
        lemma_suffix_len_where(t, f);
        assert forall|j: int| s.len() - suffix_len_where(s, f) <= j < s.len() implies f(#[trigger] s[j]) by {
            if j < s.len() - 1 {
                assert(s[j] == t[j]);
            }
        }
        if suffix_len_where(s, f) < s.len() {
            assert(s[s.len() - suffix_len_where(s, f) - 1] == t[t.len() - suffix_len_where(t, f) - 1]);
        }
    }
}

/// Where every character from `i` on satisfies `f` and the one before `i`
/// (if any) does not, `s.len() - i` is the number of trailing characters that
/// satisfy `f`.
pub proof fn lemma_suffix_len_where_at(s: Seq<char>, f: spec_fn(char) -> bool, i: int)
    requires
        0 <= i <= s.len(),
        forall|j: int| i <= j < s.len() ==> f(#[trigger] s[j]),
        i == 0 || !f(s[i - 1]),
    ensures
        suffix_len_where(s, f) == s.len() - i,
    decreases s.len() - i,
{
    if i < s.len() {
        let t = s.drop_last();
        assert forall|j: int| i <= j < t.len() implies f(#[trigger] t[j]) by {
            assert(t[j] == s[j]);
        }
        if i > 0 {
            assert(t[i - 1] == s[i - 1]);
        }
        lemma_suffix_len_where_at(t, f, i);
        assert(f(s[s.len() - 1]));
    }
}

} // verus!
