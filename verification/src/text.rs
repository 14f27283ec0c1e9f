//! Verified text utilities: ASCII-blank trimming, separator splitting and
//! path-prefix stripping, shared by the tokenizers and the filesystem adapter.

use vstd::prelude::*;
use vstd::string::*;

verus! {

/// Characters treated as surrounding whitespace by [`trim_str`]: the ASCII
/// blanks that surround configuration items.
pub open spec fn is_blank(c: char) -> bool {
    c == ' ' || c == '\t' || c == '\r' || c == '\n'
}

pub open spec fn drop_leading_blanks(s: Seq<char>) -> Seq<char>
    decreases s.len(),
{
    if s.len() == 0 {
        s
    } else if is_blank(s.first()) {
        drop_leading_blanks(s.drop_first())
    } else {
        s
    }
}

pub open spec fn drop_trailing_blanks(s: Seq<char>) -> Seq<char>
    decreases s.len(),
{
    if s.len() == 0 {
        s
    } else if is_blank(s.last()) {
        drop_trailing_blanks(s.drop_last())
    } else {
        s
    }
}

/// The text with its leading and trailing blanks removed.
pub open spec fn trim_spec(s: Seq<char>) -> Seq<char> {
    drop_trailing_blanks(drop_leading_blanks(s))
}

proof fn lemma_drop_leading_is_skip(s: Seq<char>, start: int)
    requires
        0 <= start <= s.len(),
        forall|k: int| 0 <= k < start ==> is_blank(s[k]),
        start < s.len() ==> !is_blank(s[start]),
    ensures
        drop_leading_blanks(s) == s.subrange(start, s.len() as int),
    decreases start,
{
    if start == 0 {
        assert(s.subrange(0, s.len() as int) =~= s);
    } else {
        let t = s.drop_first();
        assert(t =~= s.subrange(1, s.len() as int));
        lemma_drop_leading_is_skip(t, start - 1);
        assert(t.subrange(start - 1, t.len() as int) =~= s.subrange(start, s.len() as int));
    }
}

proof fn lemma_drop_trailing_is_take(s: Seq<char>, end: int)
    requires
        0 <= end <= s.len(),
        forall|k: int| end <= k < s.len() ==> is_blank(s[k]),
        end > 0 ==> !is_blank(s[end - 1]),
    ensures
        drop_trailing_blanks(s) == s.subrange(0, end),
    decreases s.len() - end,
{
    if end == s.len() {
        assert(s.subrange(0, end) =~= s);
    } else {
        let t = s.drop_last();
        assert(t =~= s.subrange(0, s.len() - 1));
        lemma_drop_trailing_is_take(t, end);
        assert(t.subrange(0, end) =~= s.subrange(0, end));
    }
}

fn is_blank_char(c: char) -> (r: bool)
    ensures
        r == is_blank(c),
{
    c == ' ' || c == '\t' || c == '\r' || c == '\n'
}

/// Removes leading and trailing ASCII blanks from a text.
pub fn trim_str(s: &str) -> (r: String)
    ensures
        r@ == trim_spec(s@),
{
    let n = s.unicode_len();
    let mut start: usize = 0;
    while start < n && is_blank_char(s.get_char(start))
        invariant
            0 <= start <= n,
            n == s@.len(),
            forall|k: int| 0 <= k < start ==> is_blank(s@[k]),
        decreases n - start,
    {
        start = start + 1;
    }
    let mut end: usize = n;
    while end > start && is_blank_char(s.get_char(end - 1))
        invariant
            start <= end <= n,
            n == s@.len(),
            forall|k: int| end <= k < n ==> is_blank(s@[k]),
        decreases end,
    {
        end = end - 1;
    }
    proof {
        lemma_drop_leading_is_skip(s@, start as int);
        let mid = s@.subrange(start as int, s@.len() as int);
        lemma_drop_trailing_is_take(mid, end - start);
        assert(mid.subrange(0, end - start) =~= s@.subrange(start as int, end as int));
    }
    String::from_str(s.substring_char(start, end))
}

/// The separator occurs in `s` at position `i`.
pub open spec fn has_sep_at(s: Seq<char>, sep: Seq<char>, i: int) -> bool {
    0 <= i && i + sep.len() <= s.len() && s.subrange(i, i + sep.len() as int) == sep
}

/// `i` is the first position at which the separator occurs in `s`.
pub open spec fn is_first_hit(s: Seq<char>, sep: Seq<char>, i: int) -> bool {
    has_sep_at(s, sep, i) && forall|j: int| 0 <= j < i ==> !has_sep_at(s, sep, j)
}

proof fn lemma_first_hit_unique(s: Seq<char>, sep: Seq<char>, i1: int, i2: int)
    requires
        is_first_hit(s, sep, i1),
        is_first_hit(s, sep, i2),
    ensures
        i1 == i2,
{
}

/// The pieces of `s` between consecutive non-overlapping occurrences of the
/// separator, scanning from the left; the whole text when the separator is
/// absent or empty.
pub open spec fn split_spec(s: Seq<char>, sep: Seq<char>) -> Seq<Seq<char>>
    decreases s.len(),
{
    if sep.len() >= 1 && (exists|i: int| is_first_hit(s, sep, i)) {
        let i = choose|i: int| is_first_hit(s, sep, i);
        if 0 <= i && i + sep.len() <= s.len() {
            seq![s.subrange(0, i)] + split_spec(
                s.subrange(i + sep.len() as int, s.len() as int),
                sep,
            )
        } else {
            seq![s]
        }
    } else {
        seq![s]
    }
}

proof fn lemma_split_step(s: Seq<char>, sep: Seq<char>, i: int)
    requires
        sep.len() >= 1,
        is_first_hit(s, sep, i),
    ensures
        split_spec(s, sep) == seq![s.subrange(0, i)] + split_spec(
            s.subrange(i + sep.len() as int, s.len() as int),
            sep,
        ),
{
    let i0 = choose|j: int| is_first_hit(s, sep, j);
    lemma_first_hit_unique(s, sep, i0, i);
}

proof fn lemma_split_none(s: Seq<char>, sep: Seq<char>)
    requires
        sep.len() >= 1,
        forall|i: int| !has_sep_at(s, sep, i),
    ensures
        split_spec(s, sep) == seq![s],
{
    assert(forall|i: int| !is_first_hit(s, sep, i));
}

/// Whether the separator occurs in `s` starting exactly at position `i`.
fn sep_matches_at(s: &str, sep: &str, i: usize, n: usize, m: usize) -> (r: bool)
    requires
        n == s@.len(),
        m == sep@.len(),
        i + m <= n,
    ensures
        r == has_sep_at(s@, sep@, i as int),
{
    let mut j: usize = 0;
    while j < m
        invariant
            0 <= j <= m,
            n == s@.len(),
            m == sep@.len(),
            i + m <= n,
            forall|k: int| 0 <= k < j ==> s@[i + k] == sep@[k],
        decreases m - j,
    {
        if s.get_char(i + j) != sep.get_char(j) {
            proof {
                assert(s@.subrange(i as int, i + m as int)[j as int] == s@[i + j]);
            }
            return false;
        }
        j = j + 1;
    }
    proof {
        assert(s@.subrange(i as int, i + m as int) =~= sep@);
    }
    true
}

/// The position of the first occurrence of the separator in `s`, if any.
fn find_sep(s: &str, sep: &str) -> (r: Option<usize>)
    requires
        sep@.len() >= 1,
    ensures
        (match r {
            Some(i) => is_first_hit(s@, sep@, i as int),
            None => forall|i: int| !has_sep_at(s@, sep@, i),
        }),
{
    let n = s.unicode_len();
    let m = sep.unicode_len();
    if m > n {
        return None;
    }
    let mut i: usize = 0;
    while i <= n - m
        invariant
            m == sep@.len(),
            n == s@.len(),
            m <= n,
            1 <= m,
            0 <= i,
            i <= n - m + 1,
            forall|j: int| 0 <= j < i ==> !has_sep_at(s@, sep@, j),
        decreases n - i,
    {
        if sep_matches_at(s, sep, i, n, m) {
            return Some(i);
        }
        i = i + 1;
    }
    None
}

/// Splits `s` on every occurrence of the (non-empty) separator.
pub fn split_str(s: &str, sep: &str) -> (parts: Vec<String>)
    requires
        sep@.len() >= 1,
    ensures
        parts.deep_view() == split_spec(s@, sep@),
{
    let mut parts: Vec<String> = Vec::new();
    let mut rest: String = s.to_owned();
    proof {
        assert(Seq::<Seq<char>>::empty() + split_spec(rest@, sep@) =~= split_spec(s@, sep@));
    }
    loop
        invariant
            sep@.len() >= 1,
            split_spec(s@, sep@) == parts.deep_view() + split_spec(rest@, sep@),
        decreases rest@.len(),
    {
        let found = find_sep(rest.as_str(), sep);
        match found {
            Some(i) => {
                let m = sep.unicode_len();
                let n = rest.unicode_len();
                let head = String::from_str(rest.as_str().substring_char(0, i));
                let tail = String::from_str(rest.as_str().substring_char(i + m, n));
                proof {
                    lemma_split_step(rest@, sep@, i as int);
                }
                let ghost old_parts = parts.deep_view();
                let ghost old_rest = rest@;
                parts.push(head);
                rest = tail;
                proof {
                    assert(parts.deep_view() =~= old_parts.push(head@));
                    assert(old_parts.push(head@) + split_spec(rest@, sep@) =~= old_parts + (
                    seq![head@] + split_spec(rest@, sep@)));
                    assert(split_spec(s@, sep@) == parts.deep_view() + split_spec(rest@, sep@));
                }
            },
            None => {
                proof {
                    lemma_split_none(rest@, sep@);
                }
                let ghost old_parts = parts.deep_view();
                let ghost rest_view = rest@;
                parts.push(rest);
                proof {
                    assert(parts.deep_view() =~= old_parts.push(rest_view));
                    assert(old_parts + seq![rest_view] =~= old_parts.push(rest_view));
                }
                return parts;
            },
        }
    }
}

/// Each part trimmed, empty parts dropped: the cleanup applied to raw token
/// texts before they enter the item diff.
pub open spec fn clean_spec(parts: Seq<Seq<char>>) -> Seq<Seq<char>> {
    parts.map_values(|p: Seq<char>| trim_spec(p)).filter(|p: Seq<char>| p.len() != 0)
}

pub proof fn lemma_filter_push<A>(s: Seq<A>, x: A, pred: spec_fn(A) -> bool)
    ensures
        s.push(x).filter(pred) == if pred(x) {
            s.filter(pred).push(x)
        } else {
            s.filter(pred)
        },
{
    reveal_with_fuel(Seq::filter, 2);
    assert(s.push(x).drop_last() =~= s);
    assert(s.push(x).last() == x);
}

pub proof fn lemma_add_contains<A>(a: Seq<A>, b: Seq<A>, x: A)
    ensures
        (a + b).contains(x) <==> (a.contains(x) || b.contains(x)),
{
    if (a + b).contains(x) {
        let i = choose|i: int| 0 <= i < (a + b).len() && (a + b)[i] == x;
        if i < a.len() {
            assert(a[i] == x);
        } else {
            assert(b[i - a.len()] == x);
        }
    }
    if a.contains(x) {
        let i = choose|i: int| 0 <= i < a.len() && a[i] == x;
        assert((a + b)[i] == x);
    }
    if b.contains(x) {
        let i = choose|i: int| 0 <= i < b.len() && b[i] == x;
        assert((a + b)[a.len() + i] == x);
    }
}

pub proof fn lemma_filter_subset<A>(s: Seq<A>, pred: spec_fn(A) -> bool)
    ensures
        forall|x: A| #[trigger] s.filter(pred).contains(x) ==> s.contains(x),
    decreases s.len(),
{
    reveal(Seq::filter);
    if s.len() > 0 {
        lemma_filter_subset(s.drop_last(), pred);
        assert forall|x: A| s.filter(pred).contains(x) implies s.contains(x) by {
            let f = s.filter(pred);
            let i = choose|i: int| 0 <= i < f.len() && f[i] == x;
            let sub = s.drop_last().filter(pred);
            if pred(s.last()) && i == sub.len() {
                assert(x == s.last());
                assert(s[s.len() - 1] == x);
            } else {
                assert(sub[i] == x);
                assert(sub.contains(x));
                assert(s.drop_last().contains(x));
                let j = choose|j: int|
                    0 <= j < s.drop_last().len() && s.drop_last()[j] == x;
                assert(s[j] == x);
            }
        }
    }
}

pub proof fn lemma_filter_preserves_distinct<A>(s: Seq<A>, pred: spec_fn(A) -> bool)
    requires
        forall|i: int, j: int| 0 <= i < j < s.len() ==> s[i] != s[j],
    ensures
        forall|i: int, j: int|
            0 <= i < j < s.filter(pred).len() ==> s.filter(pred)[i] != s.filter(pred)[j],
    decreases s.len(),
{
    reveal(Seq::filter);
    if s.len() > 0 {
        let d = s.drop_last();
        assert(forall|i: int, j: int| 0 <= i < j < d.len() ==> d[i] != d[j]);
        lemma_filter_preserves_distinct(d, pred);
        lemma_filter_subset(d, pred);
        let sub = d.filter(pred);
        let f = s.filter(pred);
        if pred(s.last()) {
            assert(f == sub.push(s.last()));
            if sub.contains(s.last()) {
                assert(d.contains(s.last()));
                let j = choose|j: int| 0 <= j < d.len() && d[j] == s.last();
                assert(s[j] == s[s.len() - 1]);
                assert(false);
            }
            assert forall|i: int, j: int| 0 <= i < j < f.len() implies f[i] != f[j] by {
                if j == f.len() - 1 {
                    assert(f[j] == s.last());
                    assert(f[i] == sub[i]);
                    assert(sub.contains(sub[i]));
                } else {
                    assert(f[i] == sub[i] && f[j] == sub[j]);
                }
            }
        }
    }
}

proof fn lemma_clean_push(parts: Seq<Seq<char>>, x: Seq<char>)
    ensures
        clean_spec(parts.push(x)) == if trim_spec(x).len() != 0 {
            clean_spec(parts).push(trim_spec(x))
        } else {
            clean_spec(parts)
        },
{
    assert(parts.push(x).map_values(|p: Seq<char>| trim_spec(p)) =~= parts.map_values(
        |p: Seq<char>| trim_spec(p),
    ).push(trim_spec(x)));
    lemma_filter_push(
        parts.map_values(|p: Seq<char>| trim_spec(p)),
        trim_spec(x),
        |p: Seq<char>| p.len() != 0,
    );
}

/// Trims every part and drops the parts that are empty afterwards.
pub fn trim_and_filter(parts: Vec<String>) -> (r: Vec<String>)
    ensures
        r.deep_view() == clean_spec(parts.deep_view()),
{
    let mut out: Vec<String> = Vec::new();
    let mut idx: usize = 0;
    proof {
        assert(parts.deep_view().take(0) =~= Seq::<Seq<char>>::empty());
        assert(Seq::<Seq<char>>::empty().map_values(|p: Seq<char>| trim_spec(p))
            =~= Seq::<Seq<char>>::empty());
        assert(clean_spec(parts.deep_view().take(0)) =~= Seq::<Seq<char>>::empty());
    }
    while idx < parts.len()
        invariant
            0 <= idx <= parts.len(),
            out.deep_view() == clean_spec(parts.deep_view().take(idx as int)),
        decreases parts.len() - idx,
    {
        let t = trim_str(parts[idx].as_str());
        let ghost prefix = parts.deep_view().take(idx as int);
        let ghost old_out = out.deep_view();
        if t.unicode_len() != 0 {
            let ghost t_view = t@;
            out.push(t);
            proof {
                assert(out.deep_view() =~= old_out.push(t_view));
            }
        }
        proof {
            assert(parts.deep_view().take(idx + 1) =~= prefix.push(parts.deep_view()[idx as int]));
            lemma_clean_push(prefix, parts.deep_view()[idx as int]);
        }
        idx = idx + 1;
    }
    proof {
        assert(parts.deep_view().take(parts.len() as int) =~= parts.deep_view());
    }
    out
}

/// Relies on std's `String::from_utf8`: it returns `Ok` exactly when the
/// bytes are a valid UTF-8 encoding, and the resulting string then holds
/// their decoding.
#[verifier::external_body]
pub(crate) fn decode_utf8_bytes(bytes: &Vec<u8>) -> (r: Option<String>)
    ensures
        r is Some <==> vstd::utf8::valid_utf8(bytes@),
        r is Some ==> r.unwrap()@ == vstd::utf8::decode_utf8(bytes@),
{
    match String::from_utf8(bytes.clone()) {
        Ok(s) => Some(s),
        Err(_) => None,
    }
}

/// The path relative to the watch root: `Some` exactly when `path` names the
/// root itself or something under it.  The remainder must be empty, follow a
/// path separator of its own, or follow a root that ends in one — a sibling
/// whose name merely extends the root's is foreign.
pub open spec fn strip_prefix_spec(root: Seq<char>, path: Seq<char>) -> Option<Seq<char>> {
    if path.len() >= root.len() && path.subrange(0, root.len() as int) == root {
        let rest = path.subrange(root.len() as int, path.len() as int);
        if rest.len() == 0 {
            Some(rest)
        } else if rest.first() == '/' {
            Some(rest.drop_first())
        } else if root.len() == 0 || root.last() == '/' {
            Some(rest)
        } else {
            None
        }
    } else {
        None
    }
}

/// Relativizes `path` against `root`, treating a path that does not start
/// with the root as foreign.
pub fn strip_path_prefix(root: &str, path: &str) -> (r: Option<String>)
    ensures
        (match r {
            Some(rel) => strip_prefix_spec(root@, path@) == Some(rel@),
            None => strip_prefix_spec(root@, path@) is None,
        }),
{
    let nr = root.unicode_len();
    let np = path.unicode_len();
    if np < nr {
        return None;
    }
    if !prefix_matches(path, root, nr, np) {
        return None;
    }
    let start: usize = if nr == np {
        nr
    } else if path.get_char(nr) == '/' {
        nr + 1
    } else if nr == 0 || root.get_char(nr - 1) == '/' {
        nr
    } else {
        return None;
    };
    let rel = String::from_str(path.substring_char(start, np));
    proof {
        let rest = path@.subrange(nr as int, np as int);
        if rest.len() > 0 && rest.first() == '/' {
            assert(rest.drop_first() =~= path@.subrange(nr + 1, np as int));
        }
    }
    Some(rel)
}

/// Whether `pre` is the prefix of `s` of length `m`.
fn prefix_matches(s: &str, pre: &str, m: usize, n: usize) -> (r: bool)
    requires
        n == s@.len(),
        m == pre@.len(),
        m <= n,
    ensures
        r == (s@.subrange(0, m as int) == pre@),
{
    let mut j: usize = 0;
    while j < m
        invariant
            0 <= j <= m,
            n == s@.len(),
            m == pre@.len(),
            m <= n,
            forall|k: int| 0 <= k < j ==> s@[k] == pre@[k],
        decreases m - j,
    {
        if s.get_char(j) != pre.get_char(j) {
            proof {
                assert(s@.subrange(0, m as int)[j as int] == s@[j as int]);
            }
            return false;
        }
        j = j + 1;
    }
    proof {
        assert(s@.subrange(0, m as int) =~= pre@);
    }
    true
}

} // verus!
