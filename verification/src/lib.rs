//! Query language parsing and header decoding for a browser extension that
//! captures HTTP requests and responses.
use vstd::prelude::*;

pub mod ql;
pub mod text;
pub mod vm;

use crate::text::{
    lemma_prefix_len_where, lemma_prefix_len_where_at, lemma_suffix_len_where,
    lemma_suffix_len_where_at, prefix_len_where, suffix_len_where,
};

verus! {

/// Unicode `White_Space`, the characters that `str::trim` removes.
pub open spec fn is_whitespace(c: char) -> bool {
    ||| ('\t' <= c && c <= '\r')
    ||| c == ' '
    ||| c == '\u{85}'
    ||| c == '\u{a0}'
    ||| c == '\u{1680}'
    ||| ('\u{2000}' <= c && c <= '\u{200a}')
    ||| c == '\u{2028}'
    ||| c == '\u{2029}'
    ||| c == '\u{202f}'
    ||| c == '\u{205f}'
    ||| c == '\u{3000}'
}

fn is_whitespace_exec(c: char) -> (r: bool)
    ensures
        r == is_whitespace(c),
{
    ('\t' <= c && c <= '\r') || c == ' ' || c == '\u{85}' || c == '\u{a0}' || c == '\u{1680}' || (
    '\u{2000}' <= c && c <= '\u{200a}') || c == '\u{2028}' || c == '\u{2029}' || c == '\u{202f}'
        || c == '\u{205f}' || c == '\u{3000}'
}

/// `s` without its leading whitespace.
pub open spec fn trim_start(s: Seq<char>) -> Seq<char>
    decreases s.len(),
{
    if s.len() > 0 && is_whitespace(s[0]) {
        trim_start(s.drop_first())
    } else {
        s
    }
}

/// `s` without its trailing whitespace.
pub open spec fn trim_end(s: Seq<char>) -> Seq<char>
    decreases s.len(),
{
    if s.len() > 0 && is_whitespace(s.last()) {
        trim_end(s.drop_last())
    } else {
        s
    }
}

/// `s` without its leading and trailing whitespace.
pub open spec fn trim(s: Seq<char>) -> Seq<char> {
    trim_end(trim_start(s))
}

/// The part of a header line before its first `:` (the whole line where it
/// has none).
pub open spec fn header_key(s: Seq<char>) -> Seq<char> {
    s.take(prefix_len_where(s, |c: char| c != ':') as int)
}

/// The part of a header line between its first `:` and the next `:` or its
/// end (empty where the line has no `:`).
pub open spec fn header_value(s: Seq<char>) -> Seq<char> {
    let k = prefix_len_where(s, |c: char| c != ':');
    if k < s.len() {
        let t = s.skip((k + 1) as int);
        t.take(prefix_len_where(t, |c: char| c != ':') as int)
    } else {
        Seq::empty()
    }
}

/// A header line decoded into its trimmed key and trimmed value.
pub open spec fn decode_header(s: Seq<char>) -> (Seq<char>, Seq<char>) {
    (trim(header_key(s)), trim(header_value(s)))
}

proof fn lemma_trim_start(s: Seq<char>)
    ensures
        trim_start(s) == s.skip(prefix_len_where(s, |c: char| is_whitespace(c)) as int),
    decreases s.len(),
{
    if s.len() > 0 && is_whitespace(s[0]) {
        lemma_trim_start(s.drop_first());
        lemma_prefix_len_where(s.drop_first(), |c: char| is_whitespace(c));
        assert(s.drop_first().skip(prefix_len_where(s.drop_first(), |c: char| is_whitespace(c)) as int)
            =~= s.skip(prefix_len_where(s, |c: char| is_whitespace(c)) as int));
    } else {
        assert(s.skip(0) =~= s);
    }
}

proof fn lemma_trim_end(s: Seq<char>)
    ensures
        suffix_len_where(s, |c: char| is_whitespace(c)) <= s.len(),
        trim_end(s) == s.take(s.len() - suffix_len_where(s, |c: char| is_whitespace(c))),
    decreases s.len(),
{
    if s.len() > 0 && is_whitespace(s.last()) {
        lemma_trim_end(s.drop_last());
        assert(s.drop_last().take(s.drop_last().len() - suffix_len_where(s.drop_last(), |c: char| is_whitespace(c)))
            =~= s.take(s.len() - suffix_len_where(s, |c: char| is_whitespace(c))));
    } else {
        assert(s.take(s.len() as int) =~= s);
    }
}

/// Every character of `w` is whitespace (an empty `w` too).
pub open spec fn all_whitespace(w: Seq<char>) -> bool {
    forall|j: int| 0 <= j < w.len() ==> is_whitespace(#[trigger] w[j])
}

/// `v` neither starts nor ends with whitespace (an empty `v` too).
pub open spec fn unpadded(v: Seq<char>) -> bool {
    v.len() > 0 ==> !is_whitespace(v[0]) && !is_whitespace(v.last())
}

/// Trimming drops whitespace at the two ends and nothing else: a text that
/// neither starts nor ends with whitespace, between any two runs of
/// whitespace, is trimmed back to itself, whatever whitespace it holds inside.
pub proof fn lemma_trim_padded(w1: Seq<char>, v: Seq<char>, w2: Seq<char>)
    requires
        all_whitespace(w1),
        all_whitespace(w2),
        unpadded(v),
    ensures
        trim(w1 + v + w2) == v,
{
    let s = w1 + v + w2;
    let f = |c: char| is_whitespace(c);
    lemma_trim_start(s);
    if v.len() == 0 {
        assert forall|j: int| 0 <= j < s.len() implies f(#[trigger] s[j]) by {
            if j < w1.len() {
                assert(s[j] == w1[j]);
            } else {
                assert(s[j] == w2[j - w1.len()]);
            }
        }
        lemma_prefix_len_where_at(s, f, s.len() as int);
        assert(s.skip(s.len() as int) =~= Seq::<char>::empty());
        assert(trim_end(Seq::<char>::empty()) == Seq::<char>::empty());
        assert(v =~= Seq::<char>::empty());
    } else {
        assert forall|j: int| 0 <= j < w1.len() implies f(#[trigger] s[j]) by {
            assert(s[j] == w1[j]);
        }
        assert(s[w1.len() as int] == v[0]);
        lemma_prefix_len_where_at(s, f, w1.len() as int);
        let u = v + w2;
        assert(s.skip(w1.len() as int) =~= u);
        assert forall|j: int| v.len() <= j < u.len() implies f(#[trigger] u[j]) by {
            assert(u[j] == w2[j - v.len()]);
        }
        assert(u[v.len() - 1] == v.last());
        lemma_suffix_len_where_at(u, f, v.len() as int);
        lemma_trim_end(u);
        assert(u.take(v.len() as int) =~= v);
    }
}

/// What trimming keeps of any text: a contiguous part of it, from index `i`,
/// that neither starts nor ends with whitespace, with only whitespace before
/// and after it.
pub proof fn lemma_trim_slice(s: Seq<char>) -> (i: int)
    ensures
        0 <= i <= i + trim(s).len() <= s.len(),
        s.subrange(i, i + trim(s).len()) == trim(s),
        all_whitespace(s.take(i)),
        all_whitespace(s.skip(i + trim(s).len())),
        unpadded(trim(s)),
{
    let f = |c: char| is_whitespace(c);
    lemma_trim_start(s);
    lemma_prefix_len_where(s, f);
    let i = prefix_len_where(s, f) as int;
    let u = s.skip(i);
    lemma_trim_end(u);
    lemma_suffix_len_where(u, f);
    let m = suffix_len_where(u, f) as int;
    let v = u.take(u.len() - m);
    assert(trim(s) == v);
    assert(s.subrange(i, i + v.len()) =~= v);
    assert forall|j: int| 0 <= j < s.take(i).len() implies is_whitespace(#[trigger] s.take(i)[j]) by {
        assert(s.take(i)[j] == s[j]);
        assert(f(s[j]));
    }
    let tail = s.skip(i + v.len());
    assert forall|j: int| 0 <= j < tail.len() implies is_whitespace(#[trigger] tail[j]) by {
        assert(tail[j] == u[v.len() + j]);
        assert(f(u[v.len() + j]));
    }
    if v.len() > 0 {
        assert(v[0] == u[0]);
        assert(u[0] == s[i]);
        assert(v.last() == u[u.len() - m - 1]);
    }
    i
}

/// The index of the first `:` at or after `from` in `s`, or its length./// The index of the first `:` at or after `from` in `s`, or its length.
fn find_colon(s: &str, from: usize, n: usize) -> (r: usize)
    requires
        n == s@.len(),
        from <= n,
    ensures
        from <= r <= n,
        r - from == prefix_len_where(s@.skip(from as int), |c: char| c != ':'),
{
    let mut i = from;
    while i < n && s.get_char(i) != ':'
        invariant
            from <= i <= n,
            n == s@.len(),
            forall|j: int| from <= j < i ==> s@[j] != ':',
        decreases n - i,
    {
        i = i + 1;
    }
    proof {
        let t = s@.skip(from as int);
        assert forall|j: int| 0 <= j < i - from implies (|c: char| c != ':')(#[trigger] t[j]) by {
            assert(t[j] == s@[from + j]);
        }
        if i < n {
            assert(t[i - from] == s@[i as int]);
        }
        lemma_prefix_len_where_at(t, |c: char| c != ':', i - from);
    }
    i
}

/// `s[from..to]` with leading and trailing whitespace removed.
fn trimmed(s: &str, from: usize, to: usize) -> (r: String)
    requires
        from <= to <= s@.len(),
    ensures
        r@ == trim(s@.subrange(from as int, to as int)),
{
    let ghost t = s@.subrange(from as int, to as int);
    let mut a = from;
    while a < to && is_whitespace_exec(s.get_char(a))
        invariant
            from <= a <= to <= s@.len(),
            forall|j: int| from <= j < a ==> is_whitespace(s@[j]),
        decreases to - a,
    {
        a = a + 1;
    }
    proof {
        assert forall|j: int| 0 <= j < a - from implies (|c: char| is_whitespace(c))(#[trigger] t[j]) by {
            assert(t[j] == s@[from + j]);
        }
        if a < to {
            assert(t[a - from] == s@[a as int]);
        }
        lemma_prefix_len_where_at(t, |c: char| is_whitespace(c), a - from);
        lemma_trim_start(t);
    }
    let ghost u = trim_start(t);
    assert(u =~= s@.subrange(a as int, to as int));
    let mut b = to;
    while b > a && is_whitespace_exec(s.get_char(b - 1))
        invariant
            from <= a <= b <= to <= s@.len(),
            forall|j: int| b <= j < to ==> is_whitespace(s@[j]),
        decreases b - a,
    {
        b = b - 1;
    }
    proof {
        assert forall|j: int| b - a <= j < u.len() implies (|c: char| is_whitespace(c))(#[trigger] u[j]) by {
            assert(u[j] == s@[a + j]);
        }
        if b > a {
            assert(u[b - a - 1] == s@[b - 1]);
        }
        lemma_suffix_len_where_at(u, |c: char| is_whitespace(c), b - a);
        lemma_trim_end(u);
    }
    let r = s.substring_char(a, b).to_owned();
    assert(r@ =~= trim(t));
    r
}

/// Reading back a written header line: a key and a value with no `:` in
/// them, joined by `:`, decode as the trimmed key and the trimmed value.
pub proof fn lemma_decode_header_pair(k: Seq<char>, v: Seq<char>)
    requires
        forall|j: int| 0 <= j < k.len() ==> #[trigger] k[j] != ':',
        forall|j: int| 0 <= j < v.len() ==> #[trigger] v[j] != ':',
    ensures
        decode_header(k + seq![':'] + v) == (trim(k), trim(v)),
{
    let s = k + seq![':'] + v;
    assert forall|j: int| 0 <= j < k.len() implies (|c: char| c != ':')(#[trigger] s[j]) by {
        assert(s[j] == k[j]);
    }
    assert(s[k.len() as int] == ':');
    lemma_prefix_len_where_at(s, |c: char| c != ':', k.len() as int);
    let t = s.skip(k.len() + 1int);
    assert(t =~= v);
    assert forall|j: int| 0 <= j < t.len() implies (|c: char| c != ':')(#[trigger] t[j]) by {
        assert(t[j] == v[j]);
    }
    lemma_prefix_len_where_at(t, |c: char| c != ':', t.len() as int);
    assert(s.take(k.len() as int) =~= k);
    assert(t.take(t.len() as int) =~= v);
}

/// A header line without `:` decodes as the trimmed line and an empty value.
pub proof fn lemma_decode_header_no_colon(k: Seq<char>)
    requires
        forall|j: int| 0 <= j < k.len() ==> #[trigger] k[j] != ':',
    ensures
        decode_header(k) == (trim(k), Seq::<char>::empty()),
{
    assert forall|j: int| 0 <= j < k.len() implies (|c: char| c != ':')(#[trigger] k[j]) by {}
    lemma_prefix_len_where_at(k, |c: char| c != ':', k.len() as int);
    assert(k.take(k.len() as int) =~= k);
    lemma_trim_padded(Seq::empty(), Seq::empty(), Seq::empty());
    assert(Seq::<char>::empty() + Seq::<char>::empty() + Seq::<char>::empty() =~= Seq::<char>::empty());
}

/// The value of a header line ends at its second `:`: a key and a value
/// with no `:` in them, joined by `:` and followed by `:` and anything,
/// decode as the trimmed key and the trimmed value; the rest is dropped.
pub proof fn lemma_decode_header_value_ends_at_colon(k: Seq<char>, v: Seq<char>, rest: Seq<char>)
    requires
        forall|j: int| 0 <= j < k.len() ==> #[trigger] k[j] != ':',
        forall|j: int| 0 <= j < v.len() ==> #[trigger] v[j] != ':',
    ensures
        decode_header(k + seq![':'] + v + seq![':'] + rest) == (trim(k), trim(v)),
{
    let s = k + seq![':'] + v + seq![':'] + rest;
    assert forall|j: int| 0 <= j < k.len() implies (|c: char| c != ':')(#[trigger] s[j]) by {
        assert(s[j] == k[j]);
    }
    assert(s[k.len() as int] == ':');
    lemma_prefix_len_where_at(s, |c: char| c != ':', k.len() as int);
    let t = s.skip(k.len() + 1int);
    assert(t =~= v + seq![':'] + rest);
    assert forall|j: int| 0 <= j < v.len() implies (|c: char| c != ':')(#[trigger] t[j]) by {
        assert(t[j] == v[j]);
    }
    assert(t[v.len() as int] == ':');
    lemma_prefix_len_where_at(t, |c: char| c != ':', v.len() as int);
    assert(s.take(k.len() as int) =~= k);
    assert(t.take(v.len() as int) =~= v);
}

/// A header line written as a key and a value, each with any whitespace
/// around it, decodes as exactly that key and that value: the whitespace
/// around them goes, the whitespace inside them stays.
pub proof fn lemma_decode_header_padded(
    w1: Seq<char>,
    k: Seq<char>,
    w2: Seq<char>,
    w3: Seq<char>,
    v: Seq<char>,
    w4: Seq<char>,
)
    requires
        all_whitespace(w1),
        all_whitespace(w2),
        all_whitespace(w3),
        all_whitespace(w4),
        unpadded(k),
        unpadded(v),
        forall|j: int| 0 <= j < k.len() ==> #[trigger] k[j] != ':',
        forall|j: int| 0 <= j < v.len() ==> #[trigger] v[j] != ':',
    ensures
        decode_header(w1 + k + w2 + seq![':'] + w3 + v + w4) == (k, v),
{
    let key = w1 + k + w2;
    let value = w3 + v + w4;
    assert forall|j: int| 0 <= j < key.len() implies #[trigger] key[j] != ':' by {
        if j < w1.len() {
            assert(key[j] == w1[j]);
            assert(is_whitespace(w1[j]));
        } else if j < w1.len() + k.len() {
            assert(key[j] == k[j - w1.len()]);
        } else {
            assert(key[j] == w2[j - w1.len() - k.len()]);
            assert(is_whitespace(w2[j - w1.len() - k.len()]));
        }
    }
    assert forall|j: int| 0 <= j < value.len() implies #[trigger] value[j] != ':' by {
        if j < w3.len() {
            assert(value[j] == w3[j]);
            assert(is_whitespace(w3[j]));
        } else if j < w3.len() + v.len() {
            assert(value[j] == v[j - w3.len()]);
        } else {
            assert(value[j] == w4[j - w3.len() - v.len()]);
            assert(is_whitespace(w4[j - w3.len() - v.len()]));
        }
    }
    lemma_decode_header_pair(key, value);
    lemma_trim_padded(w1, k, w2);
    lemma_trim_padded(w3, v, w4);
    assert(w1 + k + w2 + seq![':'] + w3 + v + w4 =~= key + seq![':'] + value);
}

/// The raw header lines of a request or a response, each `key: value`.
pub struct HeaderString(pub Vec<String>);

impl HeaderString {
    /// Splits each header line at `:` into a key and a value, each trimmed of
    /// surrounding whitespace; a line without `:` gives an empty value.
    pub fn decode(&self) -> (r: Option<Vec<(String, String)>>)
        ensures
            r is Some,
            r.unwrap()@.len() == self.0@.len(),
            forall|i: int|
                0 <= i < self.0@.len() ==> (#[trigger] r.unwrap()@[i].0@, r.unwrap()@[i].1@)
                    == decode_header(self.0@[i]@),
    {
        let mut acc: Vec<(String, String)> = Vec::new();
        let mut i: usize = 0;
        while i < self.0.len()
            invariant
                i <= self.0@.len(),
                acc@.len() == i,
                forall|j: int|
                    0 <= j < i ==> (#[trigger] acc@[j].0@, acc@[j].1@) == decode_header(self.0@[j]@),
            decreases self.0@.len() - i,
        {
            let next = self.0[i].as_str();
            let n = next.unicode_len();
            let k = find_colon(next, 0, n);
            assert(next@.skip(0) =~= next@);
            let key = trimmed(next, 0, k);
            assert(next@.subrange(0, k as int) =~= header_key(next@));
            let value = if k < n {
                let m = find_colon(next, k + 1, n);
                let v = trimmed(next, k + 1, m);
                assert(next@.subrange(k + 1, m as int) =~= header_value(next@));
                v
            } else {
                let v = String::new();
                assert(v@ =~= trim(header_value(next@))) by {
                    assert(header_value(next@) =~= Seq::<char>::empty());
                }
                v
            };
            acc.push((key, value));
            i = i + 1;
        }
        Some(acc)
    }
}

/// A captured request.
#[allow(non_snake_case)]
pub struct RequestDetails {
    pub ID: String,
    pub target_url: String,
    pub headers: Vec<String>,
    pub raw_body: String,
}

/// A captured response.
pub struct ResponseDetails {
    pub request_id: String,
    pub headers: Vec<String>,
    pub raw_body: String,
}

impl RequestDetails {
    #[allow(non_snake_case)]
    pub fn new(ID: String, target_url: String, raw_body: String, headers: Vec<String>) -> (r: Self)
        ensures
            r.ID == ID,
            r.target_url == target_url,
            r.raw_body == raw_body,
            r.headers == headers,
    {
        Self { ID, target_url, raw_body, headers }
    }
}

impl ResponseDetails {
    pub fn new(request_id: String, raw_body: String, headers: Vec<String>) -> (r: Self)
        ensures
            r.request_id == request_id,
            r.raw_body == raw_body,
            r.headers == headers,
    {
        Self { request_id, raw_body, headers }
    }
}

} // verus!
