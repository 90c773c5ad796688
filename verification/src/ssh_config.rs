//! Discovery of SSH hosts from an OpenSSH client config and known_hosts.
use vstd::prelude::*;

use crate::paths::{is_relative_path, join_path, path_joined, path_relative};
use crate::text::{
    ascii_lower, ascii_lower_chars, chars_eq_str, chars_of, chars_range, eq_ignore_ascii_case, is_white,
    is_whitespace, string_of, string_views, trim, trim_bounds, views,
};

verus! {

pub open spec fn is_quote(c: char) -> bool {
    c == '\'' || c == '"'
}

// ------------------------------------------------------------ comments
/// State of the comment scan: kept text, open quote, pending escape, and
/// whether a comment has started.
pub open spec fn comment_step(
    st: (Seq<char>, Option<char>, bool, bool),
    c: char,
) -> (Seq<char>, Option<char>, bool, bool) {
    let (out, quote, escaped, done) = st;
    if done {
        st
    } else if escaped {
        (out.push(c), quote, false, false)
    } else if c == '\\' {
        (out.push(c), quote, true, false)
    } else if is_quote(c) {
        let q = if quote == Some(c) {
            None
        } else if quote is None {
            Some(c)
        } else {
            quote
        };
        (out.push(c), q, false, false)
    } else if c == '#' && quote is None {
        (out, quote, escaped, true)
    } else {
        (out.push(c), quote, false, false)
    }
}

pub open spec fn comment_fold(s: Seq<char>) -> (Seq<char>, Option<char>, bool, bool)
    decreases s.len(),
{
    if s.len() == 0 {
        (Seq::empty(), None, false, false)
    } else {
        comment_step(comment_fold(s.drop_last()), s.last())
    }
}

/// A config line cut at the first `#` outside quotes (a backslash escapes
/// the next character), then trimmed.
pub open spec fn strip_comment_spec(line: Seq<char>) -> Seq<char> {
    trim(comment_fold(line).0)
}

pub fn strip_comment(line: &Vec<char>) -> (r: Vec<char>)
    ensures
        r@ == strip_comment_spec(line@),
{
    let mut out: Vec<char> = Vec::new();
    let mut quote: Option<char> = None;
    let mut escaped = false;
    let mut i: usize = 0;
    while i < line.len()
        invariant
            i <= line@.len(),
            comment_fold(line@.take(i as int)) == (out@, quote, escaped, false),
        decreases line@.len() - i,
    {
        let c = line[i];
        proof {
            assert(line@.take(i + 1).drop_last() =~= line@.take(i as int));
        }
        if escaped {
            out.push(c);
            escaped = false;
        } else if c == '\\' {
            out.push(c);
            escaped = true;
        } else if c == '\'' || c == '"' {
            if quote == Some(c) {
                quote = None;
            } else if quote.is_none() {
                quote = Some(c);
            }
            out.push(c);
        } else if c == '#' && quote.is_none() {
            proof {
                lemma_comment_done(line@, i as int + 1);
            }
            let (lo, hi) = trim_bounds(&out, 0, out.len());
            assert(out@.subrange(0, out@.len() as int) =~= out@);
            return chars_range(&out, lo, hi);
        } else {
            out.push(c);
        }
        i += 1;
    }
    assert(line@.take(line@.len() as int) =~= line@);
    let (lo, hi) = trim_bounds(&out, 0, out.len());
    assert(out@.subrange(0, out@.len() as int) =~= out@);
    chars_range(&out, lo, hi)
}

/// Once the scan has reached a comment, later characters change nothing.
pub proof fn lemma_comment_done(s: Seq<char>, k: int)
    requires
        0 <= k <= s.len(),
        comment_fold(s.take(k)).3,
    ensures
        comment_fold(s) == comment_fold(s.take(k)),
    decreases s.len() - k,
{
    if k == s.len() {
        assert(s.take(k) =~= s);
    } else {
        assert(s.drop_last().take(k) =~= s.take(k));
        lemma_comment_done(s.drop_last(), k);
    }
}

proof fn lemma_comment_fold_prefix(s: Seq<char>)
    ensures
        comment_fold(s).0.len() <= s.len(),
        comment_fold(s).0 == s.take(comment_fold(s).0.len() as int),
        !comment_fold(s).3 ==> comment_fold(s).0 == s,
        !s.contains('#') ==> !comment_fold(s).3,
    decreases s.len(),
{
    if s.len() > 0 {
        let d = s.drop_last();
        lemma_comment_fold_prefix(d);
        let o = comment_fold(d).0;
        assert(d.take(o.len() as int) =~= s.take(o.len() as int));
        if !comment_fold(d).3 {
            assert(d.push(s.last()) =~= s);
            assert(s.take(d.len() as int) =~= d);
        }
        if !s.contains('#') {
            assert(!d.contains('#')) by {
                if d.contains('#') {
                    let k = choose|k: int| 0 <= k < d.len() && d[k] == '#';
                    assert(s[k] == '#');
                }
            }
            assert(s[s.len() - 1] != '#');
        }
    } else {
        assert(s.take(0) =~= s);
    }
}

/// Comment stripping keeps a trimmed prefix of the line, which is its own
/// trim, and only trims a line without `#`.
pub proof fn law_strip_comment_prefix(line: Seq<char>)
    ensures
        exists|k: int| 0 <= k <= line.len() && strip_comment_spec(line) == trim(#[trigger] line.take(k)),
        !line.contains('#') ==> strip_comment_spec(line) == trim(line),
        trim(strip_comment_spec(line)) == strip_comment_spec(line),
{
    crate::text::lemma_trim_idempotent(comment_fold(line).0);
    lemma_comment_fold_prefix(line);
    let k = comment_fold(line).0.len() as int;
    assert(strip_comment_spec(line) == trim(line.take(k)));
}

// ------------------------------------------------------------ directives
/// Position of the first white space or `=` in `s` (its length if none).
pub open spec fn first_separator(s: Seq<char>) -> int
    decreases s.len(),
{
    if s.len() == 0 {
        0
    } else if is_white(s[0]) || s[0] == '=' {
        0
    } else {
        1 + first_separator(s.drop_first())
    }
}

/// `s` without its leading run of white space and `=`.
pub open spec fn skip_separators(s: Seq<char>) -> Seq<char>
    decreases s.len(),
{
    if s.len() > 0 && (is_white(s[0]) || s[0] == '=') {
        skip_separators(s.drop_first())
    } else {
        s
    }
}

/// A directive `keyword value`, split at the first white space or `=`;
/// the value loses its leading white space and `=` signs and is trimmed.
/// Lines without a separator, or with an empty keyword or value, hold none.
pub open spec fn split_directive_spec(line: Seq<char>) -> Option<(Seq<char>, Seq<char>)> {
    let t = trim(line);
    let k = first_separator(t);
    if t.len() == 0 || k >= t.len() {
        None
    } else {
        let keyword = t.take(k);
        let value = trim(skip_separators(t.skip(k)));
        if keyword.len() > 0 && value.len() > 0 {
            Some((keyword, value))
        } else {
            None
        }
    }
}

pub proof fn lemma_first_separator(s: Seq<char>, k: int)
    requires
        0 <= k <= s.len(),
        forall|i: int| 0 <= i < k ==> !is_white(#[trigger] s[i]) && s[i] != '=',
    ensures
        first_separator(s) == k + first_separator(s.skip(k)),
    decreases k,
{
    if k == 0 {
        assert(s.skip(0) =~= s);
    } else {
        assert forall|i: int| 0 <= i < k - 1 implies !is_white(#[trigger] s.drop_first()[i])
            && s.drop_first()[i] != '=' by {
            assert(s.drop_first()[i] == s[i + 1]);
        }
        lemma_first_separator(s.drop_first(), k - 1);
        assert(s.drop_first().skip(k - 1) =~= s.skip(k));
    }
}

pub proof fn lemma_skip_separators(s: Seq<char>, k: int)
    requires
        0 <= k <= s.len(),
        forall|i: int| 0 <= i < k ==> is_white(#[trigger] s[i]) || s[i] == '=',
    ensures
        skip_separators(s) == skip_separators(s.skip(k)),
    decreases k,
{
    if k == 0 {
        assert(s.skip(0) =~= s);
    } else {
        assert forall|i: int| 0 <= i < k - 1 implies is_white(#[trigger] s.drop_first()[i])
            || s.drop_first()[i] == '=' by {
            assert(s.drop_first()[i] == s[i + 1]);
        }
        lemma_skip_separators(s.drop_first(), k - 1);
        assert(s.drop_first().skip(k - 1) =~= s.skip(k));
    }
}

proof fn lemma_first_separator_prefix(s: Seq<char>)
    ensures
        0 <= first_separator(s) <= s.len(),
        forall|i: int| 0 <= i < first_separator(s) ==> !is_white(#[trigger] s[i]) && s[i] != '=',
    decreases s.len(),
{
    if s.len() > 0 && !(is_white(s[0]) || s[0] == '=') {
        lemma_first_separator_prefix(s.drop_first());
        assert forall|i: int| 0 <= i < first_separator(s) implies !is_white(#[trigger] s[i]) && s[i] != '=' by {
            if i > 0 {
                assert(s[i] == s.drop_first()[i - 1]);
            }
        }
    }
}

proof fn lemma_skip_separators_head(s: Seq<char>)
    ensures
        skip_separators(s).len() > 0 ==> !is_white(skip_separators(s)[0]) && skip_separators(s)[0] != '=',
    decreases s.len(),
{
    if s.len() > 0 && (is_white(s[0]) || s[0] == '=') {
        lemma_skip_separators_head(s.drop_first());
    }
}

/// A directive splits into a non-empty keyword without white space or `=`,
/// and a non-empty value that starts with neither white space nor `=` and
/// does not end in white space; a blank line holds no directive.
pub proof fn law_split_directive_parts(line: Seq<char>)
    ensures
        split_directive_spec(line) matches Some((k, v)) ==> {
            &&& k.len() > 0
            &&& forall|i: int| 0 <= i < k.len() ==> !is_white(#[trigger] k[i]) && k[i] != '='
            &&& v.len() > 0
            &&& !is_white(v[0]) && v[0] != '='
            &&& !is_white(v.last())
        },
        trim(line).len() == 0 ==> split_directive_spec(line) is None,
{
    let t = trim(line);
    let k = first_separator(t);
    lemma_first_separator_prefix(t);
    if t.len() > 0 && k < t.len() {
        let rest = skip_separators(t.skip(k));
        lemma_skip_separators_head(t.skip(k));
        if rest.len() > 0 {
            assert(crate::text::trim_start(rest) == rest);
            crate::text::lemma_trim_end_prefix(rest);
            crate::text::lemma_trim_end_last(rest);
            let v = trim(rest);
            if v.len() > 0 {
                assert(v[0] == rest.take(v.len() as int)[0]);
            }
        }
        let kw = t.take(k);
        assert forall|i: int| 0 <= i < kw.len() implies !is_white(#[trigger] kw[i]) && kw[i] != '=' by {
            assert(kw[i] == t[i]);
        }
    }
}

/// White space or `=`: what separates a directive's keyword from its value.
pub open spec fn is_separator(c: char) -> bool {
    is_white(c) || c == '='
}

proof fn lemma_first_separator_at(s: Seq<char>)
    ensures
        first_separator(s) < s.len() ==> is_separator(s[first_separator(s)]),
    decreases s.len(),
{
    if s.len() > 0 && !is_separator(s[0]) {
        lemma_first_separator_at(s.drop_first());
        let d = s.drop_first();
        lemma_first_separator_prefix(d);
        assert(first_separator(s) == 1 + first_separator(d));
        if first_separator(s) < s.len() {
            assert(s[1 + first_separator(d)] == d[first_separator(d)]);
        }
    }
}

proof fn lemma_skip_separators_suffix(s: Seq<char>) -> (j: int)
    ensures
        0 <= j <= s.len(),
        skip_separators(s) == s.skip(j),
        forall|i: int| 0 <= i < j ==> is_separator(#[trigger] s[i]),
    decreases s.len(),
{
    if s.len() > 0 && is_separator(s[0]) {
        let j1 = lemma_skip_separators_suffix(s.drop_first());
        assert(s.drop_first().skip(j1) =~= s.skip(j1 + 1));
        assert forall|i: int| 0 <= i < j1 + 1 implies is_separator(#[trigger] s[i]) by {
            if i > 0 {
                assert(s[i] == s.drop_first()[i - 1]);
            }
        }
        j1 + 1
    } else {
        assert(s.skip(0) =~= s);
        0
    }
}

/// Exactly when a line holds a directive, and how it is made up. There is
/// none when the trimmed line is empty, holds no white space or `=`, starts
/// with one, or has only white space and `=` after its first word; else the
/// trimmed line is the keyword, a non-empty run of white space and `=`, and
/// the value.
pub proof fn law_split_directive_exact(line: Seq<char>)
    ensures
        ({
            let t = trim(line);
            split_directive_spec(line) is None <==> {
                ||| t.len() == 0
                ||| forall|i: int| 0 <= i < t.len() ==> !is_separator(#[trigger] t[i])
                ||| is_separator(t[0])
                ||| exists|k: int|
                    0 < k < t.len() && is_separator(t[k]) && (forall|i: int| 0 <= i < k ==> !is_separator(
                        #[trigger] t[i],
                    )) && (forall|i: int| k <= i < t.len() ==> is_separator(#[trigger] t[i]))
            }
        }),
        split_directive_spec(line) matches Some((k, v)) ==> exists|sep: Seq<char>|
            sep.len() > 0 && (forall|i: int| 0 <= i < sep.len() ==> is_separator(#[trigger] sep[i])) && trim(line)
                == k + sep + v,
{
    let t = trim(line);
    let k = first_separator(t);
    lemma_first_separator_prefix(t);
    lemma_first_separator_at(t);
    crate::text::lemma_trim_end_last(crate::text::trim_start(line));
    if t.len() > 0 && k < t.len() {
        let rest = t.skip(k);
        let j = lemma_skip_separators_suffix(rest);
        assert(rest[0] == t[k]);
        let u = rest.skip(j);
        assert(u =~= t.skip(k + j));
        lemma_skip_separators_head(rest);
        if u.len() > 0 {
            assert(u.last() == t.last());
            assert(crate::text::trim_start(u) == u);
            assert(crate::text::trim_end(u) == u);
        } else {
            assert(trim(u) =~= u);
        }
        let v = trim(u);
        assert(v == u);
        assert forall|i: int| k <= i < t.len() && u.len() == 0 implies is_separator(#[trigger] t[i]) by {
            assert(t[i] == rest[i - k]);
        }
        if u.len() > 0 {
            assert(!is_separator(t[k + j])) by {
                assert(t[k + j] == u[0]);
            }
        }
        if exists|k2: int|
            0 < k2 < t.len() && is_separator(t[k2]) && (forall|i: int| 0 <= i < k2 ==> !is_separator(#[trigger] t[i]))
                && (forall|i: int| k2 <= i < t.len() ==> is_separator(#[trigger] t[i])) {
            let k2 = choose|k2: int|
                0 < k2 < t.len() && is_separator(t[k2]) && (forall|i: int| 0 <= i < k2 ==> !is_separator(
                    #[trigger] t[i],
                )) && (forall|i: int| k2 <= i < t.len() ==> is_separator(#[trigger] t[i]));
            assert(k2 == k) by {
                if k2 < k {
                    assert(!is_separator(t[k2]));
                } else if k2 > k {
                    assert(!is_separator(t[k]));
                }
            }
            if u.len() > 0 {
                assert(is_separator(t[k + j]));
            }
        }
        let sep = t.subrange(k, k + j);
        assert forall|i: int| 0 <= i < sep.len() implies is_separator(#[trigger] sep[i]) by {
            assert(sep[i] == rest[i]);
        }
        assert(t =~= t.take(k) + sep + u);
        if k > 0 {
            assert(!is_separator(t[0]));
        }
    } else if t.len() > 0 {
        assert forall|i: int| 0 <= i < t.len() implies !is_separator(#[trigger] t[i]) by {}
    }
}

#[verifier::spinoff_prover]
#[verifier::rlimit(60)]
pub fn split_directive(line: &Vec<char>) -> (r: Option<(Vec<char>, Vec<char>)>)
    ensures
        match r {
            Some((k, v)) => split_directive_spec(line@) == Some((k@, v@)),
            None => split_directive_spec(line@) is None,
        },
{
    let (lo, hi) = trim_bounds(line, 0, line.len());
    let ghost t = line@.subrange(lo as int, hi as int);
    assert(line@.subrange(0, line@.len() as int) =~= line@);
    if lo == hi {
        return None;
    }
    let mut k = lo;
    while k < hi && !is_whitespace(line[k]) && line[k] != '='
        invariant
            lo <= k <= hi <= line@.len(),
            t == line@.subrange(lo as int, hi as int),
            forall|i: int| lo <= i < k ==> !is_white(#[trigger] line@[i]) && line@[i] != '=',
        decreases hi - k,
    {
        k += 1;
    }
    proof {
        assert forall|i: int| 0 <= i < k - lo implies !is_white(#[trigger] t[i]) && t[i] != '=' by {
            assert(t[i] == line@[lo + i]);
        }
        lemma_first_separator(t, k - lo);
        if k < hi {
            assert(t.skip(k - lo)[0] == line@[k as int]);
        } else {
            assert(t.skip(k - lo).len() == 0);
        }
    }
    if k == hi {
        return None;
    }
    let mut j = k;
    while j < hi && (is_whitespace(line[j]) || line[j] == '=')
        invariant
            k <= j <= hi <= line@.len(),
            forall|i: int| k <= i < j ==> is_white(#[trigger] line@[i]) || line@[i] == '=',
        decreases hi - j,
    {
        j += 1;
    }
    let ghost rest = t.skip(k - lo);
    proof {
        assert(rest =~= line@.subrange(k as int, hi as int));
        assert forall|i: int| 0 <= i < j - k implies is_white(#[trigger] rest[i]) || rest[i] == '=' by {
            assert(rest[i] == line@[k + i]);
        }
        lemma_skip_separators(rest, j - k);
        assert(rest.skip(j - k) =~= line@.subrange(j as int, hi as int));
        let u = line@.subrange(j as int, hi as int);
        if u.len() > 0 {
            assert(u[0] == line@[j as int]);
        }
    }
    let (vlo, vhi) = trim_bounds(line, j, hi);
    if k == lo || vlo == vhi {
        assert(t.take(k - lo).len() == k - lo);
        return None;
    }
    let keyword = chars_range(line, lo, k);
    let value = chars_range(line, vlo, vhi);
    assert(keyword@ =~= t.take(k - lo));
    Some((keyword, value))
}

// ------------------------------------------------------------ words
/// State of the word scan: finished words, the current word, open quote.
pub open spec fn words_step(
    st: (Seq<Seq<char>>, Seq<char>, Option<char>),
    c: char,
) -> (Seq<Seq<char>>, Seq<char>, Option<char>) {
    let (words, cur, quote) = st;
    if is_quote(c) {
        if quote == Some(c) {
            (words, cur, None)
        } else if quote is None {
            (words, cur, Some(c))
        } else {
            (words, cur.push(c), quote)
        }
    } else if is_white(c) && quote is None {
        if cur.len() > 0 {
            (words.push(cur), Seq::empty(), quote)
        } else {
            st
        }
    } else {
        (words, cur.push(c), quote)
    }
}

pub open spec fn words_fold(s: Seq<char>) -> (Seq<Seq<char>>, Seq<char>, Option<char>)
    decreases s.len(),
{
    if s.len() == 0 {
        (Seq::empty(), Seq::empty(), None)
    } else {
        words_step(words_fold(s.drop_last()), s.last())
    }
}

/// The words of a directive value: separated by white space outside quotes,
/// quotes removed (a quote of the other kind inside quotes is kept), and
/// backslashes kept as they are.
pub open spec fn parse_words_spec(s: Seq<char>) -> Seq<Seq<char>> {
    let st = words_fold(s);
    if st.1.len() > 0 {
        st.0.push(st.1)
    } else {
        st.0
    }
}

proof fn lemma_words_fold_plain(s: Seq<char>)
    requires
        forall|i: int| 0 <= i < s.len() ==> !is_quote(#[trigger] s[i]),
    ensures
        words_fold(s) == (crate::text::split_ws_fold(s).0, crate::text::split_ws_fold(s).1, None::<char>),
    decreases s.len(),
{
    if s.len() > 0 {
        let d = s.drop_last();
        assert forall|i: int| 0 <= i < d.len() implies !is_quote(#[trigger] d[i]) by {
            assert(d[i] == s[i]);
        }
        lemma_words_fold_plain(d);
        assert(!is_quote(s[s.len() - 1]));
    }
}

proof fn lemma_words_fold_nonempty(s: Seq<char>)
    ensures
        forall|i: int| 0 <= i < words_fold(s).0.len() ==> #[trigger] words_fold(s).0[i].len() > 0,
    decreases s.len(),
{
    if s.len() > 0 {
        let st = words_fold(s.drop_last());
        lemma_words_fold_nonempty(s.drop_last());
        let w = words_fold(s).0;
        assert forall|i: int| 0 <= i < w.len() implies #[trigger] w[i].len() > 0 by {
            if i < st.0.len() {
                assert(w[i] == st.0[i]);
            }
        }
    }
}

/// Directive values split into non-empty words; a value without quotes
/// splits exactly as `split_whitespace` splits it.
pub proof fn law_parse_words_plain(value: Seq<char>)
    ensures
        forall|i: int| 0 <= i < parse_words_spec(value).len() ==> #[trigger] parse_words_spec(value)[i].len() > 0,
        (forall|i: int| 0 <= i < value.len() ==> !is_quote(#[trigger] value[i])) ==> parse_words_spec(value)
            == crate::text::split_ws(value),
{
    lemma_words_fold_nonempty(value);
    if forall|i: int| 0 <= i < value.len() ==> !is_quote(#[trigger] value[i]) {
        lemma_words_fold_plain(value);
    }
}

pub fn parse_word_chars(v: &Vec<char>) -> (r: Vec<Vec<char>>)
    ensures
        views(r@) == parse_words_spec(v@),
{
    let mut words: Vec<Vec<char>> = Vec::new();
    let mut cur: Vec<char> = Vec::new();
    let mut quote: Option<char> = None;
    let mut i: usize = 0;
    while i < v.len()
        invariant
            i <= v@.len(),
            words_fold(v@.take(i as int)) == (views(words@), cur@, quote),
        decreases v@.len() - i,
    {
        let c = v[i];
        proof {
            assert(v@.take(i + 1).drop_last() =~= v@.take(i as int));
        }
        if c == '\'' || c == '"' {
            if quote == Some(c) {
                quote = None;
            } else if quote.is_none() {
                quote = Some(c);
            } else {
                cur.push(c);
            }
        } else if is_whitespace(c) && quote.is_none() {
            if cur.len() > 0 {
                let w = cur;
                cur = Vec::new();
                words.push(w);
                assert(views(words@) =~= words_fold(v@.take(i + 1)).0);
            }
        } else {
            cur.push(c);
        }
        i += 1;
    }
    assert(v@.take(v@.len() as int) =~= v@);
    if cur.len() > 0 {
        words.push(cur);
        assert(views(words@) =~= parse_words_spec(v@));
    }
    words
}

/// Splits a directive value into words, as the config parser reads it.
pub fn parse_words(value: &str) -> (r: Vec<String>)
    ensures
        string_views(r@) == parse_words_spec(value@),
{
    let ws = parse_word_chars(&chars_of(value));
    let mut r: Vec<String> = Vec::new();
    let mut i: usize = 0;
    while i < ws.len()
        invariant
            i <= ws@.len(),
            r@.len() == i,
            string_views(r@) == views(ws@).take(i as int),
        decreases ws@.len() - i,
    {
        let w = string_of(&ws[i]);
        assert(w@ == views(ws@)[i as int]);
        let ghost old_r = r@;
        r.push(w);
        i += 1;
        assert forall|j: int| 0 <= j < i implies string_views(r@)[j] == views(ws@).take(
            i as int,
        )[j] by {
            if j < i - 1 {
                assert(r@[j] == old_r[j]);
                assert(string_views(old_r)[j] == views(ws@).take(i - 1)[j]);
            }
        }
        assert(string_views(r@) =~= views(ws@).take(i as int));
    }
    assert(views(ws@).take(ws@.len() as int) =~= views(ws@));
    r
}

/// The first word of a value, if it has any.
pub open spec fn first_word_spec(s: Seq<char>) -> Option<Seq<char>> {
    let w = parse_words_spec(s);
    if w.len() > 0 {
        Some(w[0])
    } else {
        None
    }
}

pub fn first_word(v: &Vec<char>) -> (r: Option<Vec<char>>)
    ensures
        match r {
            Some(w) => first_word_spec(v@) == Some(w@),
            None => first_word_spec(v@) is None,
        },
{
    let mut ws = parse_word_chars(v);
    if ws.len() > 0 {
        let w = ws.swap_remove(0);
        Some(w)
    } else {
        None
    }
}

// ------------------------------------------------------------ home paths
/// A config path with `~`, `~/` or `~\` read against the home directory;
/// a path still relative after that is taken inside `home/.ssh`.
pub open spec fn expand_home_spec(value: Seq<char>, home: Seq<char>) -> Seq<char> {
    let expanded = if value == "~"@ {
        home
    } else if value.len() >= 2 && value[0] == '~' && (value[1] == '/' || value[1] == '\\') {
        path_joined(home, value.skip(2))
    } else {
        value
    };
    if path_relative(expanded) {
        path_joined(path_joined(home, ".ssh"@), expanded)
    } else {
        expanded
    }
}

pub fn expand_home(value: &Vec<char>, home: &str) -> (r: String)
    ensures
        r@ == expand_home_spec(value@, home@),
{
    proof {
        reveal_strlit("~");
    }
    let expanded: String = if chars_eq_str(value, "~") {
        home.to_owned()
    } else if value.len() >= 2 && value[0] == '~' && (value[1] == '/' || value[1] == '\\') {
        let rest = string_of(&chars_range(value, 2, value.len()));
        assert(value@.subrange(2, value@.len() as int) =~= value@.skip(2));
        join_path(home, rest.as_str())
    } else {
        string_of(value)
    };
    if is_relative_path(expanded.as_str()) {
        let ssh_dir = join_path(home, ".ssh");
        join_path(ssh_dir.as_str(), expanded.as_str())
    } else {
        expanded
    }
}


// ------------------------------------------------------------ models
/// A `Host` block while it is being read.
pub struct BlockModel {
    pub aliases: Seq<Seq<char>>,
    pub host_name: Option<Seq<char>>,
    pub username: Option<Seq<char>>,
    pub port: Option<u16>,
    pub identity_file: Option<Seq<char>>,
}

/// A host that could be imported.
pub struct CandidateModel {
    pub name: Seq<char>,
    pub host: Seq<char>,
    pub port: u16,
    pub username: Option<Seq<char>>,
    pub identity_file: Option<Seq<char>>,
    pub known_host_lines: Seq<Seq<char>>,
}

/// The outcome of discovery.
pub struct ReportModel {
    pub candidates: Seq<CandidateModel>,
    pub skipped_wildcards: nat,
    pub skipped_hashed_hosts: nat,
    pub skipped_standalone_hosts: nat,
    pub malformed_known_hosts: nat,
}

pub open spec fn opt_chars(o: Option<Vec<char>>) -> Option<Seq<char>> {
    match o {
        Some(v) => Some(v@),
        None => None,
    }
}

pub open spec fn opt_string(o: Option<String>) -> Option<Seq<char>> {
    match o {
        Some(v) => Some(v@),
        None => None,
    }
}

/// A host discovered in the SSH config that could be imported as a device.
#[derive(Debug, Clone)]
pub struct SshImportCandidate {
    pub name: String,
    pub host: String,
    pub port: u16,
    pub username: Option<String>,
    pub identity_file: Option<String>,
    pub known_host_lines: Vec<String>,
}

impl View for SshImportCandidate {
    type V = CandidateModel;

    open spec fn view(&self) -> CandidateModel {
        CandidateModel {
            name: self.name@,
            host: self.host@,
            port: self.port,
            username: opt_string(self.username),
            identity_file: opt_string(self.identity_file),
            known_host_lines: string_views(self.known_host_lines@),
        }
    }
}

pub open spec fn candidate_views(c: Seq<SshImportCandidate>) -> Seq<CandidateModel> {
    c.map_values(|x: SshImportCandidate| x@)
}

/// The candidates found and what discovery skipped.
#[derive(Debug)]
pub struct DiscoveryReport {
    pub candidates: Vec<SshImportCandidate>,
    pub skipped_wildcards: usize,
    pub skipped_hashed_hosts: usize,
    pub skipped_standalone_hosts: usize,
    pub malformed_known_hosts: usize,
}

impl View for DiscoveryReport {
    type V = ReportModel;

    open spec fn view(&self) -> ReportModel {
        ReportModel {
            candidates: candidate_views(self.candidates@),
            skipped_wildcards: self.skipped_wildcards as nat,
            skipped_hashed_hosts: self.skipped_hashed_hosts as nat,
            skipped_standalone_hosts: self.skipped_standalone_hosts as nat,
            malformed_known_hosts: self.malformed_known_hosts as nat,
        }
    }
}

impl DiscoveryReport {
    /// A report with nothing found or skipped.
    pub fn new() -> (r: DiscoveryReport)
        ensures
            r@ == empty_report(),
    {
        let r = DiscoveryReport {
            candidates: Vec::new(),
            skipped_wildcards: 0,
            skipped_hashed_hosts: 0,
            skipped_standalone_hosts: 0,
            malformed_known_hosts: 0,
        };
        assert(r@.candidates =~= Seq::<CandidateModel>::empty());
        r
    }
}

pub open spec fn empty_report() -> ReportModel {
    ReportModel {
        candidates: Seq::empty(),
        skipped_wildcards: 0,
        skipped_hashed_hosts: 0,
        skipped_standalone_hosts: 0,
        malformed_known_hosts: 0,
    }
}

struct HostBlock {
    aliases: Vec<Vec<char>>,
    host_name: Option<Vec<char>>,
    username: Option<Vec<char>>,
    port: Option<u16>,
    identity_file: Option<Vec<char>>,
}

impl View for HostBlock {
    type V = BlockModel;

    closed spec fn view(&self) -> BlockModel {
        BlockModel {
            aliases: views(self.aliases@),
            host_name: opt_chars(self.host_name),
            username: opt_chars(self.username),
            port: self.port,
            identity_file: opt_chars(self.identity_file),
        }
    }
}

// ------------------------------------------------------------ config
/// The candidate that one alias of a block yields.
pub open spec fn candidate_for(b: BlockModel, alias: Seq<char>, home: Seq<char>) -> CandidateModel {
    CandidateModel {
        name: alias,
        host: match b.host_name {
            Some(h) => h,
            None => alias,
        },
        port: match b.port {
            Some(p) => p,
            None => 22u16,
        },
        username: b.username,
        identity_file: match b.identity_file {
            Some(p) => Some(expand_home_spec(p, home)),
            None => None,
        },
        known_host_lines: Seq::empty(),
    }
}

pub open spec fn block_candidates(b: BlockModel, home: Seq<char>) -> Seq<CandidateModel> {
    b.aliases.map_values(|a: Seq<char>| candidate_for(b, a, home))
}

pub open spec fn is_wildcard(w: Seq<char>) -> bool {
    w.contains('*') || w.contains('?') || w.contains('!')
}

pub open spec fn alias_step(st: (Seq<Seq<char>>, nat), w: Seq<char>) -> (Seq<Seq<char>>, nat) {
    if is_wildcard(w) {
        (st.0, st.1 + 1)
    } else if w.len() > 0 {
        (st.0.push(w), st.1)
    } else {
        st
    }
}

/// The literal aliases of a `Host` line, and how many patterns it skips.
pub open spec fn alias_fold(ws: Seq<Seq<char>>) -> (Seq<Seq<char>>, nat)
    decreases ws.len(),
{
    if ws.len() == 0 {
        (Seq::empty(), 0)
    } else {
        alias_step(alias_fold(ws.drop_last()), ws.last())
    }
}

pub open spec fn flush_block(r: ReportModel, cur: Option<BlockModel>, home: Seq<char>) -> ReportModel {
    match cur {
        Some(b) => ReportModel { candidates: r.candidates + block_candidates(b, home), ..r },
        None => r,
    }
}

pub open spec fn set_first_spec(field: Option<Seq<char>>, value: Seq<char>) -> Option<Seq<char>> {
    if field is Some {
        field
    } else {
        first_word_spec(value)
    }
}

pub open spec fn port_first_spec(field: Option<u16>, value: Seq<char>) -> Option<u16> {
    if field is Some {
        field
    } else {
        match first_word_spec(value) {
            Some(w) => crate::text::parse_u16_spec(w),
            None => None,
        }
    }
}

/// The effect of one config line on the report and the open block.
pub open spec fn config_step(
    st: (ReportModel, Option<BlockModel>),
    raw: Seq<char>,
    home: Seq<char>,
) -> (ReportModel, Option<BlockModel>) {
    let (r, cur) = st;
    match split_directive_spec(strip_comment_spec(raw)) {
        None => st,
        Some((kw, value)) => {
            let k = ascii_lower(kw);
            if k == "host"@ {
                let f = flush_block(r, cur, home);
                let (aliases, n) = alias_fold(parse_words_spec(value));
                (
                    ReportModel { skipped_wildcards: f.skipped_wildcards + n, ..f },
                    Some(
                        BlockModel {
                            aliases,
                            host_name: None,
                            username: None,
                            port: None,
                            identity_file: None,
                        },
                    ),
                )
            } else if k == "match"@ {
                (flush_block(r, cur, home), None)
            } else if k == "hostname"@ {
                (r, match cur { Some(b) => Some(BlockModel { host_name: set_first_spec(b.host_name, value), ..b }), None => None })
            } else if k == "user"@ {
                (r, match cur { Some(b) => Some(BlockModel { username: set_first_spec(b.username, value), ..b }), None => None })
            } else if k == "port"@ {
                (r, match cur { Some(b) => Some(BlockModel { port: port_first_spec(b.port, value), ..b }), None => None })
            } else if k == "identityfile"@ {
                (r, match cur { Some(b) => Some(BlockModel { identity_file: set_first_spec(b.identity_file, value), ..b }), None => None })
            } else {
                st
            }
        },
    }
}

/// Config keywords are matched ignoring ASCII case: two lines whose
/// directives carry the same value, with keywords equal up to ASCII case,
/// have the same effect on the discovery.
pub proof fn law_config_keywords_ignore_case(
    st: (ReportModel, Option<BlockModel>),
    line1: Seq<char>,
    line2: Seq<char>,
    home: Seq<char>,
)
    requires
        split_directive_spec(strip_comment_spec(line1)) is Some,
        split_directive_spec(strip_comment_spec(line2)) is Some,
        eq_ignore_ascii_case(
            split_directive_spec(strip_comment_spec(line1)).unwrap().0,
            split_directive_spec(strip_comment_spec(line2)).unwrap().0,
        ),
        split_directive_spec(strip_comment_spec(line1)).unwrap().1 == split_directive_spec(
            strip_comment_spec(line2),
        ).unwrap().1,
    ensures
        config_step(st, line1, home) == config_step(st, line2, home),
{
}

/// A `HostName` line, with its keyword in any letter case, gives a block
/// that has no host name yet the first word of its value as host name, and
/// changes nothing else; a block that has one keeps it.
pub proof fn law_config_hostname_sets_host(r: ReportModel, b: BlockModel, line: Seq<char>, home: Seq<char>)
    requires
        split_directive_spec(strip_comment_spec(line)) is Some,
        eq_ignore_ascii_case(split_directive_spec(strip_comment_spec(line)).unwrap().0, "HostName"@),
    ensures
        config_step((r, Some(b)), line, home) == (r, Some(BlockModel {
            host_name: if b.host_name is Some {
                b.host_name
            } else {
                first_word_spec(split_directive_spec(strip_comment_spec(line)).unwrap().1)
            },
            ..b
        })),
{
    reveal_strlit("HostName");
    reveal_strlit("hostname");
    reveal_strlit("host");
    reveal_strlit("match");
    let kw = split_directive_spec(strip_comment_spec(line)).unwrap().0;
    assert(ascii_lower("HostName"@) =~= "hostname"@);
    assert(ascii_lower(kw) == "hostname"@);
    assert("hostname"@ != "host"@ && "hostname"@ != "match"@) by {
        assert("hostname"@.len() != "host"@.len());
        assert("hostname"@.len() != "match"@.len());
    }
}

/// A `User` line, with its keyword in any letter case, gives a block that
/// has no user yet the first word of its value as user; a block that has
/// one keeps it; nothing else changes.
pub proof fn law_config_user_sets_user(r: ReportModel, b: BlockModel, line: Seq<char>, home: Seq<char>)
    requires
        split_directive_spec(strip_comment_spec(line)) is Some,
        eq_ignore_ascii_case(split_directive_spec(strip_comment_spec(line)).unwrap().0, "User"@),
    ensures
        config_step((r, Some(b)), line, home) == (r, Some(BlockModel {
            username: if b.username is Some {
                b.username
            } else {
                first_word_spec(split_directive_spec(strip_comment_spec(line)).unwrap().1)
            },
            ..b
        })),
{
    reveal_strlit("User");
    reveal_strlit("user");
    reveal_strlit("host");
    reveal_strlit("match");
    reveal_strlit("hostname");
    let kw = split_directive_spec(strip_comment_spec(line)).unwrap().0;
    assert(ascii_lower("User"@) =~= "user"@);
    assert(ascii_lower(kw) == "user"@);
    assert("user"@ != "host"@ && "user"@ != "match"@ && "user"@ != "hostname"@) by {
        assert("user"@[0] != "host"@[0]);
        assert("user"@.len() != "match"@.len());
        assert("user"@.len() != "hostname"@.len());
    }
}

/// A `Port` line, with its keyword in any letter case, gives a block that
/// has no port yet the first word of its value, read as a port number (none
/// when it is not one); a block that has one keeps it; nothing else changes.
pub proof fn law_config_port_sets_port(r: ReportModel, b: BlockModel, line: Seq<char>, home: Seq<char>)
    requires
        split_directive_spec(strip_comment_spec(line)) is Some,
        eq_ignore_ascii_case(split_directive_spec(strip_comment_spec(line)).unwrap().0, "Port"@),
    ensures
        config_step((r, Some(b)), line, home) == (r, Some(BlockModel {
            port: if b.port is Some {
                b.port
            } else {
                match first_word_spec(split_directive_spec(strip_comment_spec(line)).unwrap().1) {
                    Some(w) => crate::text::parse_u16_spec(w),
                    None => None,
                }
            },
            ..b
        })),
{
    reveal_strlit("Port");
    reveal_strlit("port");
    reveal_strlit("host");
    reveal_strlit("match");
    reveal_strlit("hostname");
    reveal_strlit("user");
    let kw = split_directive_spec(strip_comment_spec(line)).unwrap().0;
    assert(ascii_lower("Port"@) =~= "port"@);
    assert(ascii_lower(kw) == "port"@);
    assert("port"@ != "host"@ && "port"@ != "match"@ && "port"@ != "hostname"@ && "port"@ != "user"@) by {
        assert("port"@[0] != "host"@[0]);
        assert("port"@.len() != "match"@.len());
        assert("port"@.len() != "hostname"@.len());
        assert("port"@[0] != "user"@[0]);
    }
}

/// An `IdentityFile` line, with its keyword in any letter case, gives a
/// block that has no identity file yet the first word of its value; a block
/// that has one keeps it; nothing else changes.
pub proof fn law_config_identity_file_sets_key(r: ReportModel, b: BlockModel, line: Seq<char>, home: Seq<char>)
    requires
        split_directive_spec(strip_comment_spec(line)) is Some,
        eq_ignore_ascii_case(split_directive_spec(strip_comment_spec(line)).unwrap().0, "IdentityFile"@),
    ensures
        config_step((r, Some(b)), line, home) == (r, Some(BlockModel {
            identity_file: if b.identity_file is Some {
                b.identity_file
            } else {
                first_word_spec(split_directive_spec(strip_comment_spec(line)).unwrap().1)
            },
            ..b
        })),
{
    reveal_strlit("IdentityFile");
    reveal_strlit("identityfile");
    reveal_strlit("host");
    reveal_strlit("match");
    reveal_strlit("hostname");
    reveal_strlit("user");
    reveal_strlit("port");
    let kw = split_directive_spec(strip_comment_spec(line)).unwrap().0;
    assert(ascii_lower("IdentityFile"@) =~= "identityfile"@);
    assert(ascii_lower(kw) == "identityfile"@);
    assert("identityfile"@ != "host"@ && "identityfile"@ != "match"@ && "identityfile"@ != "hostname"@
        && "identityfile"@ != "user"@ && "identityfile"@ != "port"@) by {
        assert("identityfile"@.len() != "host"@.len());
        assert("identityfile"@.len() != "match"@.len());
        assert("identityfile"@.len() != "hostname"@.len());
        assert("identityfile"@.len() != "user"@.len());
        assert("identityfile"@.len() != "port"@.len());
    }
}

/// A candidate of a `Host` block is named by its alias, reached at the
/// block's host name (the alias when there is none) on the block's port
/// (22 when there is none), as the block's user with its identity file
/// read against the home directory, and trusted by no known_hosts line yet.
pub proof fn law_config_candidate_defaults(b: BlockModel, alias: Seq<char>, home: Seq<char>)
    ensures
        candidate_for(b, alias, home).name == alias,
        candidate_for(b, alias, home).host == (if b.host_name is Some { b.host_name.unwrap() } else { alias }),
        candidate_for(b, alias, home).port == (if b.port is Some { b.port.unwrap() } else { 22u16 }),
        candidate_for(b, alias, home).username == b.username,
        b.identity_file is None ==> candidate_for(b, alias, home).identity_file is None,
        b.identity_file is Some ==> candidate_for(b, alias, home).identity_file == Some(
            expand_home_spec(b.identity_file.unwrap(), home),
        ),
        candidate_for(b, alias, home).known_host_lines.len() == 0,
{
}

pub open spec fn config_fold(ls: Seq<Seq<char>>, home: Seq<char>) -> (ReportModel, Option<BlockModel>)
    decreases ls.len(),
{
    if ls.len() == 0 {
        (empty_report(), None)
    } else {
        config_step(config_fold(ls.drop_last(), home), ls.last(), home)
    }
}

/// The report that an SSH config yields: one candidate per literal alias of
/// each `Host` block, in order, with the block's first `HostName`, `User`,
/// `Port` and `IdentityFile`; `Match` closes a block; patterns are counted.
pub open spec fn parse_ssh_config_spec(content: Seq<char>, home: Seq<char>) -> ReportModel {
    let st = config_fold(crate::text::lines(content), home);
    flush_block(st.0, st.1, home)
}

pub proof fn lemma_alias_fold_count(ws: Seq<Seq<char>>, i: int)
    requires
        0 <= i <= ws.len(),
    ensures
        alias_fold(ws.take(i)).1 <= alias_fold(ws).1,
    decreases ws.len() - i,
{
    if i < ws.len() {
        assert(ws.drop_last().take(i) =~= ws.take(i)) by {
            if i == ws.len() {
            }
        }
        if i <= ws.len() - 1 {
            lemma_alias_fold_count(ws.drop_last(), i);
        }
    } else {
        assert(ws.take(i) =~= ws);
    }
}

pub proof fn lemma_config_fold_count(ls: Seq<Seq<char>>, home: Seq<char>, i: int)
    requires
        0 <= i <= ls.len(),
    ensures
        config_fold(ls.take(i), home).0.skipped_wildcards <= config_fold(ls, home).0.skipped_wildcards,
    decreases ls.len() - i,
{
    if i < ls.len() {
        assert(ls.drop_last().take(i) =~= ls.take(i));
        lemma_config_fold_count(ls.drop_last(), home, i);
    } else {
        assert(ls.take(i) =~= ls);
    }
}

fn chars_contains(w: &Vec<char>, c: char) -> (b: bool)
    ensures
        b == w@.contains(c),
{
    let mut i: usize = 0;
    while i < w.len()
        invariant
            i <= w@.len(),
            forall|j: int| 0 <= j < i ==> w@[j] != c,
        decreases w@.len() - i,
    {
        if w[i] == c {
            assert(w@[i as int] == c);
            return true;
        }
        i += 1;
    }
    false
}

fn opt_chars_to_string(o: &Option<Vec<char>>) -> (r: Option<String>)
    ensures
        opt_string(r) == opt_chars(*o),
{
    match o {
        Some(v) => Some(string_of(v)),
        None => None,
    }
}

fn append_block(b: HostBlock, home: &str, candidates: &mut Vec<SshImportCandidate>)
    ensures
        candidate_views(final(candidates)@) == candidate_views(old(candidates)@) + block_candidates(
            b@,
            home@,
        ),
{
    let identity_file: Option<String> = match &b.identity_file {
        Some(p) => Some(expand_home(p, home)),
        None => None,
    };
    let username = opt_chars_to_string(&b.username);
    let host_name = opt_chars_to_string(&b.host_name);
    let ghost start = candidate_views(candidates@);
    let mut i: usize = 0;
    while i < b.aliases.len()
        invariant
            i <= b.aliases@.len(),
            opt_string(username) == b@.username,
            opt_string(host_name) == b@.host_name,
            opt_string(identity_file) == (match b@.identity_file {
                Some(p) => Some(expand_home_spec(p, home@)),
                None => None,
            }),
            candidate_views(candidates@) == start + block_candidates(b@, home@).take(i as int),
        decreases b.aliases@.len() - i,
    {
        let alias = string_of(&b.aliases[i]);
        let host = match &host_name {
            Some(h) => h.clone(),
            None => alias.clone(),
        };
        let c = SshImportCandidate {
            name: alias,
            host,
            port: match b.port {
                Some(p) => p,
                None => 22,
            },
            username: crate::credentials::copy_opt_string(&username),
            identity_file: crate::credentials::copy_opt_string(&identity_file),
            known_host_lines: Vec::new(),
        };
        proof {
            assert(c@.known_host_lines =~= Seq::<Seq<char>>::empty());
            assert(c@ == candidate_for(b@, b@.aliases[i as int], home@));
        }
        let ghost before = candidates@;
        candidates.push(c);
        i += 1;
        proof {
            assert forall|j: int| 0 <= j < candidates@.len() - 1 implies #[trigger] candidates@[j]
                == before[j] by {}
            assert(candidate_views(candidates@) =~= candidate_views(before).push(c@));
            assert(block_candidates(b@, home@)[i - 1] == c@);
            assert(block_candidates(b@, home@).take(i as int) =~= block_candidates(b@, home@).take(
                i - 1,
            ).push(c@));
            assert(candidate_views(candidates@) =~= start + block_candidates(b@, home@).take(
                i as int,
            ));
        }
    }
    assert(block_candidates(b@, home@).take(b.aliases@.len() as int) =~= block_candidates(
        b@,
        home@,
    ));
}


spec fn opt_block(o: Option<HostBlock>) -> Option<BlockModel> {
    match o {
        Some(b) => Some(b@),
        None => None,
    }
}

fn flush(report: &mut DiscoveryReport, cur: Option<HostBlock>, home: &str)
    ensures
        final(report)@ == flush_block(old(report)@, opt_block(cur), home@),
{
    match cur {
        Some(b) => {
            append_block(b, home, &mut report.candidates);
        },
        None => {},
    }
}

/// A block field keeps its first value: an unset field takes the first
/// word of a directive's value.
fn set_first(field: Option<Vec<char>>, value: &Vec<char>) -> (r: Option<Vec<char>>)
    ensures
        opt_chars(r) == set_first_spec(opt_chars(field), value@),
{
    match field {
        Some(v) => Some(v),
        None => first_word(value),
    }
}

fn config_line(report: &mut DiscoveryReport, current: Option<HostBlock>, raw: &Vec<char>, home: &str) -> (next: Option<HostBlock>)
    requires
        config_step((old(report)@, opt_block(current)), raw@, home@).0.skipped_wildcards <= usize::MAX,
    ensures
        (final(report)@, opt_block(next)) == config_step((old(report)@, opt_block(current)), raw@, home@),
{
    let line = strip_comment(raw);
    let (kw, value) = match split_directive(&line) {
        None => {
            return current;
        },
        Some(p) => p,
    };
    let k = ascii_lower_chars(&kw);
    proof {
        reveal_strlit("host");
        reveal_strlit("match");
        reveal_strlit("hostname");
        reveal_strlit("user");
        reveal_strlit("port");
        reveal_strlit("identityfile");
    }
    if chars_eq_str(&k, "host") {
        flush(report, current, home);
        let words = parse_word_chars(&value);
        let ghost ws = views(words@);
        let ghost base = report.skipped_wildcards as nat;
        let mut aliases: Vec<Vec<char>> = Vec::new();
        let mut i: usize = 0;
        while i < words.len()
            invariant
                i <= words@.len(),
                ws == views(words@),
                ws == parse_words_spec(value@),
                base + alias_fold(ws).1 <= usize::MAX,
                (views(aliases@), (report.skipped_wildcards - base) as nat) == alias_fold(ws.take(i as int)),
                report.skipped_wildcards >= base,
                report@.candidates == old(report)@.candidates + (match opt_block(current) {
                    Some(b) => block_candidates(b, home@),
                    None => Seq::empty(),
                }),
                report.skipped_hashed_hosts == old(report).skipped_hashed_hosts,
                report.skipped_standalone_hosts == old(report).skipped_standalone_hosts,
                report.malformed_known_hosts == old(report).malformed_known_hosts,
                base == old(report).skipped_wildcards,
            decreases words@.len() - i,
        {
            proof {
                assert(ws.take(i + 1).drop_last() =~= ws.take(i as int));
                lemma_alias_fold_count(ws, i + 1);
                assert(ws[i as int] == words@[i as int]@);
            }
            let w = &words[i];
            if chars_contains(w, '*') || chars_contains(w, '?') || chars_contains(w, '!') {
                report.skipped_wildcards = report.skipped_wildcards + 1;
            } else if w.len() > 0 {
                let ghost before = aliases@;
                aliases.push(words[i].clone());
                assert(views(aliases@) =~= views(before).push(ws[i as int]));
            }
            i += 1;
        }
        assert(ws.take(words@.len() as int) =~= ws);
        let b = HostBlock { aliases, host_name: None, username: None, port: None, identity_file: None };
        proof {
            match opt_block(current) {
                Some(cb) => {},
                None => {
                    assert(report@.candidates =~= old(report)@.candidates);
                },
            }
        }
        return Some(b);
    } else if chars_eq_str(&k, "match") {
        flush(report, current, home);
        return None;
    } else if chars_eq_str(&k, "hostname") {
        return match current {
            Some(mut b) => {
                b.host_name = set_first(b.host_name, &value);
                Some(b)
            },
            None => None,
        };
    } else if chars_eq_str(&k, "user") {
        return match current {
            Some(mut b) => {
                b.username = set_first(b.username, &value);
                Some(b)
            },
            None => None,
        };
    } else if chars_eq_str(&k, "port") {
        return match current {
            Some(mut b) => {
                if b.port.is_none() {
                    b.port = match first_word(&value) {
                        Some(w) => crate::text::parse_u16_chars(&w),
                        None => None,
                    };
                }
                Some(b)
            },
            None => None,
        };
    } else if chars_eq_str(&k, "identityfile") {
        return match current {
            Some(mut b) => {
                b.identity_file = set_first(b.identity_file, &value);
                Some(b)
            },
            None => None,
        };
    }
    current
}

/// The number of patterns that the `Host` lines among `ls` skip.
pub open spec fn wildcard_fold(ls: Seq<Seq<char>>) -> nat
    decreases ls.len(),
{
    if ls.len() == 0 {
        0
    } else {
        let n = wildcard_fold(ls.drop_last());
        match split_directive_spec(strip_comment_spec(ls.last())) {
            Some((kw, value)) => if ascii_lower(kw) == "host"@ {
                n + alias_fold(parse_words_spec(value)).1
            } else {
                n
            },
            None => n,
        }
    }
}

/// The number of `Host` patterns (with `*`, `?` or `!`) in an SSH config.
pub open spec fn config_wildcards(content: Seq<char>) -> nat {
    wildcard_fold(crate::text::lines(content))
}

pub proof fn lemma_wildcard_fold(ls: Seq<Seq<char>>, home: Seq<char>)
    ensures
        config_fold(ls, home).0.skipped_wildcards == wildcard_fold(ls),
    decreases ls.len(),
{
    if ls.len() > 0 {
        lemma_wildcard_fold(ls.drop_last(), home);
    }
}

/// Whether an alias is literal: not empty and without pattern characters.
pub open spec fn literal_alias(w: Seq<char>) -> bool {
    w.len() > 0 && !is_wildcard(w)
}

pub open spec fn names_literal(cs: Seq<CandidateModel>) -> bool {
    forall|i: int| 0 <= i < cs.len() ==> literal_alias(#[trigger] cs[i].name)
}

pub open spec fn block_literal(cur: Option<BlockModel>) -> bool {
    match cur {
        Some(b) => forall|i: int| 0 <= i < b.aliases.len() ==> literal_alias(#[trigger] b.aliases[i]),
        None => true,
    }
}

proof fn lemma_alias_fold_literal(ws: Seq<Seq<char>>)
    ensures
        forall|i: int| 0 <= i < alias_fold(ws).0.len() ==> literal_alias(#[trigger] alias_fold(ws).0[i]),
    decreases ws.len(),
{
    if ws.len() > 0 {
        lemma_alias_fold_literal(ws.drop_last());
        let prev = alias_fold(ws.drop_last()).0;
        let w = ws.last();
        if !is_wildcard(w) && w.len() > 0 {
            assert forall|i: int| 0 <= i < prev.push(w).len() implies literal_alias(#[trigger] prev.push(w)[i]) by {
                if i < prev.len() {
                    assert(prev.push(w)[i] == prev[i]);
                }
            }
        }
    }
}

proof fn lemma_flush_literal(r: ReportModel, cur: Option<BlockModel>, home: Seq<char>)
    requires
        names_literal(r.candidates),
        block_literal(cur),
    ensures
        names_literal(flush_block(r, cur, home).candidates),
{
    if let Some(b) = cur {
        let cs = r.candidates + block_candidates(b, home);
        assert forall|i: int| 0 <= i < cs.len() implies literal_alias(#[trigger] cs[i].name) by {
            if i >= r.candidates.len() {
                let k = i - r.candidates.len();
                assert(block_candidates(b, home)[k].name == b.aliases[k]);
            }
        }
    }
}

proof fn lemma_config_fold_literal(ls: Seq<Seq<char>>, home: Seq<char>)
    ensures
        names_literal(config_fold(ls, home).0.candidates),
        block_literal(config_fold(ls, home).1),
    decreases ls.len(),
{
    if ls.len() > 0 {
        let prev = ls.drop_last();
        lemma_config_fold_literal(prev, home);
        let (r, cur) = config_fold(prev, home);
        lemma_flush_literal(r, cur, home);
        match split_directive_spec(strip_comment_spec(ls.last())) {
            None => {},
            Some((kw, value)) => {
                if ascii_lower(kw) == "host"@ {
                    lemma_alias_fold_literal(parse_words_spec(value));
                }
            },
        }
    }
}

/// Discovery never offers a pattern: every candidate that an SSH config
/// yields is named by a literal alias, with no `*`, `?` or `!`.
pub proof fn law_config_candidates_are_literal(content: Seq<char>, home: Seq<char>)
    ensures
        names_literal(parse_ssh_config_spec(content, home).candidates),
{
    let ls = crate::text::lines(content);
    lemma_config_fold_literal(ls, home);
    lemma_flush_literal(config_fold(ls, home).0, config_fold(ls, home).1, home);
}

/// Reading an SSH config counts every skipped `Host` pattern (one with
/// `*`, `?` or `!`) and skips no known_hosts line of any kind.
pub proof fn law_config_counts_patterns(content: Seq<char>, home: Seq<char>)
    ensures
        parse_ssh_config_spec(content, home).skipped_wildcards == config_wildcards(content),
        parse_ssh_config_spec(content, home).skipped_hashed_hosts == 0,
        parse_ssh_config_spec(content, home).skipped_standalone_hosts == 0,
        parse_ssh_config_spec(content, home).malformed_known_hosts == 0,
{
    lemma_wildcard_fold(crate::text::lines(content), home);
    lemma_config_no_skips(content, home);
}

proof fn lemma_comment_fold_len(s: Seq<char>)
    ensures
        comment_fold(s).0.len() <= s.len(),
    decreases s.len(),
{
    if s.len() > 0 {
        lemma_comment_fold_len(s.drop_last());
    }
}

proof fn lemma_skip_separators_len(s: Seq<char>)
    ensures
        skip_separators(s).len() <= s.len(),
    decreases s.len(),
{
    if s.len() > 0 && (is_white(s[0]) || s[0] == '=') {
        lemma_skip_separators_len(s.drop_first());
    }
}

/// A directive's value is no longer than its line.
proof fn lemma_directive_value_len(raw: Seq<char>)
    ensures
        split_directive_spec(strip_comment_spec(raw)) matches Some((_, v)) ==> v.len() <= raw.len(),
{
    let stripped = strip_comment_spec(raw);
    lemma_comment_fold_len(raw);
    crate::text::lemma_trim_len(comment_fold(raw).0);
    let t = trim(stripped);
    crate::text::lemma_trim_len(stripped);
    let k = first_separator(t);
    if t.len() > 0 && k < t.len() {
        lemma_first_separator_bounds(t);
        lemma_skip_separators_len(t.skip(k));
        crate::text::lemma_trim_len(skip_separators(t.skip(k)));
    }
}

proof fn lemma_first_separator_bounds(s: Seq<char>)
    ensures
        0 <= first_separator(s) <= s.len(),
    decreases s.len(),
{
    if s.len() > 0 && !(is_white(s[0]) || s[0] == '=') {
        lemma_first_separator_bounds(s.drop_first());
    }
}

proof fn lemma_words_fold_size(s: Seq<char>)
    ensures
        words_fold(s).0.len() + words_fold(s).1.len() <= s.len(),
    decreases s.len(),
{
    if s.len() > 0 {
        lemma_words_fold_size(s.drop_last());
    }
}

/// A value has no more words than characters.
proof fn lemma_words_len(s: Seq<char>)
    ensures
        parse_words_spec(s).len() <= s.len(),
{
    lemma_words_fold_size(s);
}

proof fn lemma_alias_fold_bound(ws: Seq<Seq<char>>)
    ensures
        alias_fold(ws).1 <= ws.len(),
    decreases ws.len(),
{
    if ws.len() > 0 {
        lemma_alias_fold_bound(ws.drop_last());
    }
}

proof fn lemma_wildcard_fold_bound(ls: Seq<Seq<char>>)
    ensures
        wildcard_fold(ls) <= crate::text::sum_lens(ls),
    decreases ls.len(),
{
    if ls.len() > 0 {
        lemma_wildcard_fold_bound(ls.drop_last());
        let raw = ls.last();
        lemma_directive_value_len(raw);
        match split_directive_spec(strip_comment_spec(raw)) {
            Some((kw, value)) => {
                lemma_words_len(value);
                lemma_alias_fold_bound(parse_words_spec(value));
            },
            None => {},
        }
    }
}

/// An SSH config has no more patterns than characters.
pub proof fn lemma_config_wildcards_bound(content: Seq<char>)
    ensures
        config_wildcards(content) <= content.len(),
{
    crate::text::lemma_lines_size(content);
    lemma_wildcard_fold_bound(crate::text::lines(content));
}

/// Reads the `Host` blocks of an SSH config into import candidates.
pub fn parse_ssh_config(content: &str, home: &str) -> (r: DiscoveryReport)
    ensures
        r@ == parse_ssh_config_spec(content@, home@),
{
    let cv = chars_of(content);
    let _length: usize = cv.len();
    proof {
        lemma_config_wildcards_bound(content@);
    }
    let ls = crate::text::lines_of(&cv);
    let ghost lv = views(ls@);
    let mut report = DiscoveryReport::new();
    let mut current: Option<HostBlock> = None;
    let mut i: usize = 0;
    proof {
        lemma_wildcard_fold(lv, home@);
        assert(lv.take(0) =~= Seq::<Seq<char>>::empty());
    }
    while i < ls.len()
        invariant
            i <= ls@.len(),
            lv == views(ls@),
            lv == crate::text::lines(content@),
            config_fold(lv, home@).0.skipped_wildcards <= usize::MAX,
            (report@, opt_block(current)) == config_fold(lv.take(i as int), home@),
        decreases ls@.len() - i,
    {
        proof {
            assert(lv.take(i + 1).drop_last() =~= lv.take(i as int));
            lemma_config_fold_count(lv, home@, i + 1);
            assert(lv[i as int] == ls@[i as int]@);
        }
        current = config_line(&mut report, current, &ls[i], home);
        i += 1;
    }
    assert(lv.take(ls@.len() as int) =~= lv);
    flush(&mut report, current, home);
    report
}


// ------------------------------------------------------------ known_hosts
pub open spec fn bracket_colon_at(s: Seq<char>, i: int) -> bool {
    0 <= i && i + 1 < s.len() && s[i] == ']' && s[i + 1] == ':'
}

/// The last position below `n` where `]:` starts in `s`.
pub open spec fn last_bracket_colon(s: Seq<char>, n: int) -> Option<int>
    decreases n,
{
    if n <= 0 {
        None
    } else if bracket_colon_at(s, n - 1) {
        Some(n - 1)
    } else {
        last_bracket_colon(s, n - 1)
    }
}

/// A known_hosts host entry: `[host]:port` (split at the last `]:`), or a
/// bare host on port 22; empty entries and bad ports give none.
pub open spec fn parse_known_host_spec(v: Seq<char>) -> Option<(Seq<char>, u16)> {
    if v.len() > 0 && v[0] == '[' {
        let rest = v.drop_first();
        match last_bracket_colon(rest, rest.len() as int) {
            None => None,
            Some(i) => match crate::text::parse_u16_spec(rest.skip(i + 2)) {
                Some(p) => Some((rest.take(i), p)),
                None => None,
            },
        }
    } else if v.len() == 0 {
        None
    } else {
        Some((v, 22u16))
    }
}

pub fn parse_known_host(v: &Vec<char>) -> (r: Option<(Vec<char>, u16)>)
    ensures
        match r {
            Some((h, p)) => parse_known_host_spec(v@) == Some((h@, p)),
            None => parse_known_host_spec(v@) is None,
        },
{
    if v.len() > 0 && v[0] == '[' {
        let rest = chars_range(v, 1, v.len());
        assert(rest@ =~= v@.drop_first());
        let mut k = rest.len();
        while k > 0
            invariant
                k <= rest@.len(),
                rest@ == v@.drop_first(),
                v@.len() > 0 && v@[0] == '[',
                last_bracket_colon(rest@, rest@.len() as int) == last_bracket_colon(rest@, k as int),
            decreases k,
        {
            if k < rest.len() && rest[k - 1] == ']' && rest[k] == ':' {
                assert(bracket_colon_at(rest@, k - 1));
                assert(last_bracket_colon(rest@, k as int) == Some(k - 1));
                let host = chars_range(&rest, 0, k - 1);
                let port_text = chars_range(&rest, k + 1, rest.len());
                assert(port_text@ =~= rest@.skip(k + 1));
                assert(host@ =~= rest@.take(k - 1));
                return match crate::text::parse_u16_chars(&port_text) {
                    Some(p) => Some((host, p)),
                    None => None,
                };
            }
            k -= 1;
        }
        None
    } else if v.len() == 0 {
        None
    } else {
        Some((chars_range(v, 0, v.len()), 22))
    }
}

pub open spec fn host_matches(c: CandidateModel, host: Seq<char>, port: u16) -> bool {
    (eq_ignore_ascii_case(c.name, host) || eq_ignore_ascii_case(c.host, host)) && c.port == port
}

/// A known_hosts host entry names a candidate whose alias or host name
/// equals it ignoring ASCII case, on the same port; changing the letter
/// case of the entry, of the alias or of the host name changes nothing.
pub proof fn law_known_host_match_ignores_case(
    c: CandidateModel,
    host: Seq<char>,
    port: u16,
    c2: CandidateModel,
    host2: Seq<char>,
)
    requires
        eq_ignore_ascii_case(host, host2),
        eq_ignore_ascii_case(c.name, c2.name),
        eq_ignore_ascii_case(c.host, c2.host),
        c.port == c2.port,
    ensures
        host_matches(c, host, port) == host_matches(c2, host2, port),
        (c.name == host || c.host == host) && c.port == port ==> host_matches(c, host, port),
        host_matches(c, host, port) ==> c.port == port,
{
}

pub open spec fn add_known_line(c: CandidateModel, line: Seq<char>) -> CandidateModel {
    if c.known_host_lines.contains(line) {
        c
    } else {
        CandidateModel { known_host_lines: c.known_host_lines.push(line), ..c }
    }
}

pub open spec fn apply_host(cs: Seq<CandidateModel>, host: Seq<char>, port: u16, line: Seq<char>) -> Seq<CandidateModel> {
    cs.map_values(|c: CandidateModel| if host_matches(c, host, port) { add_known_line(c, line) } else { c })
}

pub open spec fn any_matches(cs: Seq<CandidateModel>, host: Seq<char>, port: u16) -> bool {
    exists|i: int| 0 <= i < cs.len() && host_matches(#[trigger] cs[i], host, port)
}

pub open spec fn token_step(st: (ReportModel, bool), token: Seq<char>, line: Seq<char>) -> (ReportModel, bool) {
    let (r, matched) = st;
    match parse_known_host_spec(token) {
        None => (ReportModel { malformed_known_hosts: r.malformed_known_hosts + 1, ..r }, matched),
        Some((h, p)) => (
            ReportModel { candidates: apply_host(r.candidates, h, p, line), ..r },
            matched || any_matches(r.candidates, h, p),
        ),
    }
}

pub open spec fn token_fold(toks: Seq<Seq<char>>, r: ReportModel, line: Seq<char>) -> (ReportModel, bool)
    decreases toks.len(),
{
    if toks.len() == 0 {
        (r, false)
    } else {
        token_step(token_fold(toks.drop_last(), r, line), toks.last(), line)
    }
}

pub open spec fn has_hashed(toks: Seq<Seq<char>>) -> bool {
    exists|i: int| 0 <= i < toks.len() && crate::text::starts_with(#[trigger] toks[i], "|1|"@)
}

/// The effect of one known_hosts line: blank and comment lines are ignored;
/// lines with fewer than three fields (after an `@` marker) are malformed;
/// hashed host lists are skipped; each listed host adds the line to the
/// candidates with that name or host name (ASCII case ignored) and port;
/// a line that matches none is a standalone host.
pub open spec fn known_hosts_step(r: ReportModel, raw: Seq<char>) -> ReportModel {
    let line = trim(raw);
    if line.len() == 0 || line[0] == '#' {
        r
    } else {
        let fields = crate::text::split_ws(line);
        let hi: int = if fields.len() > 0 && fields[0].len() > 0 && fields[0][0] == '@' {
            1
        } else {
            0
        };
        if fields.len() < hi + 3 {
            ReportModel { malformed_known_hosts: r.malformed_known_hosts + 1, ..r }
        } else {
            let toks = crate::text::split_char(fields[hi], ',');
            if has_hashed(toks) {
                ReportModel { skipped_hashed_hosts: r.skipped_hashed_hosts + 1, ..r }
            } else {
                let (r2, matched) = token_fold(toks, r, line);
                if matched {
                    r2
                } else {
                    ReportModel { skipped_standalone_hosts: r2.skipped_standalone_hosts + 1, ..r2 }
                }
            }
        }
    }
}

pub open spec fn known_hosts_fold(ls: Seq<Seq<char>>, r: ReportModel) -> ReportModel
    decreases ls.len(),
{
    if ls.len() == 0 {
        r
    } else {
        known_hosts_step(known_hosts_fold(ls.drop_last(), r), ls.last())
    }
}

/// `s` with repeated elements removed, first occurrences kept.
pub open spec fn dedup<A>(s: Seq<A>) -> Seq<A>
    decreases s.len(),
{
    if s.len() == 0 {
        s
    } else {
        let d = dedup(s.drop_last());
        if d.contains(s.last()) {
            d
        } else {
            d.push(s.last())
        }
    }
}

pub open spec fn dedup_candidates(r: ReportModel) -> ReportModel {
    ReportModel {
        candidates: r.candidates.map_values(|c: CandidateModel| CandidateModel { known_host_lines: dedup(c.known_host_lines), ..c }),
        ..r
    }
}

/// The report after reading known_hosts into it.
pub open spec fn enrich_spec(r: ReportModel, content: Seq<char>) -> ReportModel {
    dedup_candidates(known_hosts_fold(crate::text::lines(content), r))
}

pub open spec fn counters_le(a: ReportModel, b: ReportModel) -> bool {
    &&& a.skipped_wildcards <= b.skipped_wildcards
    &&& a.skipped_hashed_hosts <= b.skipped_hashed_hosts
    &&& a.skipped_standalone_hosts <= b.skipped_standalone_hosts
    &&& a.malformed_known_hosts <= b.malformed_known_hosts
}

pub proof fn lemma_token_fold_mono(toks: Seq<Seq<char>>, r: ReportModel, line: Seq<char>, i: int)
    requires
        0 <= i <= toks.len(),
    ensures
        counters_le(token_fold(toks.take(i), r, line).0, token_fold(toks, r, line).0),
        counters_le(r, token_fold(toks.take(i), r, line).0),
        token_fold(toks, r, line).0.skipped_hashed_hosts == r.skipped_hashed_hosts,
        token_fold(toks, r, line).0.skipped_standalone_hosts == r.skipped_standalone_hosts,
        token_fold(toks, r, line).0.skipped_wildcards == r.skipped_wildcards,
    decreases toks.len(),
{
    if i < toks.len() {
        assert(toks.drop_last().take(i) =~= toks.take(i));
        lemma_token_fold_mono(toks.drop_last(), r, line, i);
    } else {
        assert(toks.take(i) =~= toks);
        if toks.len() > 0 {
            lemma_token_fold_mono(toks.drop_last(), r, line, 0);
            assert(toks.drop_last().take(0) =~= Seq::<Seq<char>>::empty());
            lemma_token_fold_mono(toks.drop_last(), r, line, toks.len() - 1);
            assert(toks.drop_last().take(toks.len() - 1) =~= toks.drop_last());
        }
    }
}

pub proof fn lemma_known_hosts_step_mono(r: ReportModel, raw: Seq<char>)
    ensures
        counters_le(r, known_hosts_step(r, raw)),
{
    let line = trim(raw);
    if !(line.len() == 0 || line[0] == '#') {
        let fields = crate::text::split_ws(line);
        let hi: int = if fields.len() > 0 && fields[0].len() > 0 && fields[0][0] == '@' {
            1
        } else {
            0
        };
        if fields.len() >= hi + 3 {
            let toks = crate::text::split_char(fields[hi], ',');
            lemma_token_fold_mono(toks, r, line, toks.len() as int);
            assert(toks.take(toks.len() as int) =~= toks);
        }
    }
}

pub proof fn lemma_known_hosts_fold_mono(ls: Seq<Seq<char>>, r: ReportModel, i: int)
    requires
        0 <= i <= ls.len(),
    ensures
        counters_le(known_hosts_fold(ls.take(i), r), known_hosts_fold(ls, r)),
    decreases ls.len() - i,
{
    if i < ls.len() {
        assert(ls.drop_last().take(i) =~= ls.take(i));
        lemma_known_hosts_fold_mono(ls.drop_last(), r, i);
        lemma_known_hosts_step_mono(known_hosts_fold(ls.drop_last(), r), ls.last());
    } else {
        assert(ls.take(i) =~= ls);
    }
}


pub(crate) fn strings_contain(v: &Vec<String>, line: &str) -> (b: bool)
    ensures
        b == string_views(v@).contains(line@),
{
    let mut i: usize = 0;
    while i < v.len()
        invariant
            i <= v@.len(),
            forall|j: int| 0 <= j < i ==> v@[j]@ != line@,
        decreases v@.len() - i,
    {
        if crate::text::str_equal(v[i].as_str(), line) {
            assert(string_views(v@)[i as int] == line@);
            return true;
        }
        i += 1;
    }
    assert forall|j: int| 0 <= j < string_views(v@).len() implies string_views(v@)[j] != line@ by {
        assert(string_views(v@)[j] == v@[j]@);
    }
    false
}

/// Whether a (trimmed) known_hosts line is skipped as hashed: not blank,
/// not a comment, with enough fields, and with a hashed host list entry.
pub open spec fn line_is_hashed(line: Seq<char>) -> bool {
    let fields = crate::text::split_ws(line);
    let hi = host_field_index(fields);
    &&& line.len() > 0
    &&& line[0] != '#'
    &&& fields.len() >= hi + 3
    &&& has_hashed(crate::text::split_char(fields[hi], ','))
}

/// The number of lines among `ls` that are skipped as hashed.
pub open spec fn hashed_lines(ls: Seq<Seq<char>>) -> nat
    decreases ls.len(),
{
    if ls.len() == 0 {
        0
    } else {
        hashed_lines(ls.drop_last()) + if line_is_hashed(trim(ls.last())) {
            1nat
        } else {
            0nat
        }
    }
}

proof fn lemma_token_fold_counts(toks: Seq<Seq<char>>, r: ReportModel, line: Seq<char>)
    ensures
        token_fold(toks, r, line).0.skipped_wildcards == r.skipped_wildcards,
        token_fold(toks, r, line).0.skipped_hashed_hosts == r.skipped_hashed_hosts,
    decreases toks.len(),
{
    if toks.len() > 0 {
        lemma_token_fold_counts(toks.drop_last(), r, line);
    }
}

proof fn lemma_known_hosts_fold_counts(ls: Seq<Seq<char>>, r: ReportModel)
    ensures
        known_hosts_fold(ls, r).skipped_wildcards == r.skipped_wildcards,
        known_hosts_fold(ls, r).skipped_hashed_hosts == r.skipped_hashed_hosts + hashed_lines(ls),
    decreases ls.len(),
{
    if ls.len() > 0 {
        lemma_known_hosts_fold_counts(ls.drop_last(), r);
        let prev = known_hosts_fold(ls.drop_last(), r);
        let line = trim(ls.last());
        let fields = crate::text::split_ws(line);
        let hi = host_field_index(fields);
        if line.len() > 0 && line[0] != '#' && fields.len() >= hi + 3 {
            lemma_token_fold_counts(crate::text::split_char(fields[hi], ','), prev, line);
        }
    }
}

/// Reading known_hosts leaves the count of skipped `Host` patterns as it
/// was, and adds to the count of hashed entries exactly the number of lines
/// skipped as hashed.
pub proof fn law_known_hosts_counts_hashed(r: ReportModel, content: Seq<char>)
    ensures
        enrich_spec(r, content).skipped_wildcards == r.skipped_wildcards,
        enrich_spec(r, content).skipped_hashed_hosts == r.skipped_hashed_hosts + hashed_lines(
            crate::text::lines(content),
        ),
{
    lemma_known_hosts_fold_counts(crate::text::lines(content), r);
}

/// Reading known_hosts never lowers a count of skipped or malformed lines.
pub proof fn law_known_hosts_counters_grow(r: ReportModel, content: Seq<char>)
    ensures
        counters_le(r, enrich_spec(r, content)),
{
    let ls = crate::text::lines(content);
    lemma_known_hosts_fold_mono(ls, r, 0);
    assert(ls.take(0) =~= Seq::<Seq<char>>::empty());
}

/// The lines that known_hosts reading skipped, of all kinds.
pub open spec fn skip_total(r: ReportModel) -> nat {
    r.skipped_hashed_hosts + r.skipped_standalone_hosts + r.malformed_known_hosts
}

proof fn lemma_token_fold_total(toks: Seq<Seq<char>>, r: ReportModel, line: Seq<char>)
    ensures
        skip_total(token_fold(toks, r, line).0) <= skip_total(r) + toks.len(),
        token_fold(toks, r, line).0.skipped_hashed_hosts == r.skipped_hashed_hosts,
        token_fold(toks, r, line).0.skipped_standalone_hosts == r.skipped_standalone_hosts,
    decreases toks.len(),
{
    if toks.len() > 0 {
        lemma_token_fold_total(toks.drop_last(), r, line);
    }
}

proof fn lemma_known_hosts_step_total(r: ReportModel, raw: Seq<char>)
    ensures
        skip_total(known_hosts_step(r, raw)) <= skip_total(r) + raw.len(),
{
    let line = trim(raw);
    crate::text::lemma_trim_len(raw);
    if !(line.len() == 0 || line[0] == '#') {
        let fields = crate::text::split_ws(line);
        let hi = host_field_index(fields);
        if fields.len() >= hi + 3 {
            let toks = crate::text::split_char(fields[hi], ',');
            if !has_hashed(toks) {
                crate::text::lemma_split_ws_size(line);
                crate::text::lemma_sum_lens_lower(fields, hi);
                crate::text::lemma_split_char_len(fields[hi], ',');
                lemma_token_fold_total(toks, r, line);
            }
        }
    }
}

proof fn lemma_known_hosts_fold_total(ls: Seq<Seq<char>>, r: ReportModel)
    ensures
        skip_total(known_hosts_fold(ls, r)) <= skip_total(r) + crate::text::sum_lens(ls),
    decreases ls.len(),
{
    if ls.len() > 0 {
        lemma_known_hosts_fold_total(ls.drop_last(), r);
        lemma_known_hosts_step_total(known_hosts_fold(ls.drop_last(), r), ls.last());
    }
}

/// Reading known_hosts skips no more lines, of all kinds together, than the
/// file has characters.
pub proof fn lemma_enrich_skips_bound(r: ReportModel, content: Seq<char>)
    ensures
        skip_total(enrich_spec(r, content)) <= skip_total(r) + content.len(),
{
    crate::text::lemma_lines_size(content);
    lemma_known_hosts_fold_total(crate::text::lines(content), r);
}

proof fn lemma_config_fold_no_skips(ls: Seq<Seq<char>>, home: Seq<char>)
    ensures
        skip_total(config_fold(ls, home).0) == 0,
    decreases ls.len(),
{
    if ls.len() > 0 {
        lemma_config_fold_no_skips(ls.drop_last(), home);
    }
}

/// Reading an SSH config skips no known_hosts lines.
pub proof fn lemma_config_no_skips(content: Seq<char>, home: Seq<char>)
    ensures
        skip_total(parse_ssh_config_spec(content, home)) == 0,
{
    lemma_config_fold_no_skips(crate::text::lines(content), home);
}

/// Whether two candidates are the same host entry: equal in everything
/// but their known_hosts lines.
pub open spec fn same_host_entry(a: CandidateModel, b: CandidateModel) -> bool {
    &&& a.name == b.name
    &&& a.host == b.host
    &&& a.port == b.port
    &&& a.username == b.username
    &&& a.identity_file == b.identity_file
}

pub open spec fn same_entries(a: Seq<CandidateModel>, b: Seq<CandidateModel>) -> bool {
    a.len() == b.len() && forall|i: int| 0 <= i < a.len() ==> same_host_entry(#[trigger] a[i], b[i])
}

proof fn lemma_token_fold_entries(toks: Seq<Seq<char>>, r: ReportModel, line: Seq<char>)
    ensures
        same_entries(token_fold(toks, r, line).0.candidates, r.candidates),
    decreases toks.len(),
{
    if toks.len() > 0 {
        lemma_token_fold_entries(toks.drop_last(), r, line);
        let prev = token_fold(toks.drop_last(), r, line).0.candidates;
        let now = token_fold(toks, r, line).0.candidates;
        assert forall|i: int| 0 <= i < now.len() implies same_host_entry(#[trigger] now[i], r.candidates[i]) by {
            assert(same_host_entry(prev[i], r.candidates[i]));
        }
    }
}

proof fn lemma_known_hosts_fold_entries(ls: Seq<Seq<char>>, r: ReportModel)
    ensures
        same_entries(known_hosts_fold(ls, r).candidates, r.candidates),
    decreases ls.len(),
{
    if ls.len() > 0 {
        let prev = known_hosts_fold(ls.drop_last(), r);
        lemma_known_hosts_fold_entries(ls.drop_last(), r);
        let line = trim(ls.last());
        let fields = crate::text::split_ws(line);
        let hi: int = if fields.len() > 0 && fields[0].len() > 0 && fields[0][0] == '@' {
            1
        } else {
            0
        };
        if line.len() > 0 && line[0] != '#' && fields.len() >= hi + 3 {
            let toks = crate::text::split_char(fields[hi], ',');
            lemma_token_fold_entries(toks, prev, line);
        }
        let now = known_hosts_fold(ls, r).candidates;
        assert forall|i: int| 0 <= i < now.len() implies same_host_entry(#[trigger] now[i], r.candidates[i]) by {
            assert(same_host_entry(prev.candidates[i], r.candidates[i]));
        }
    }
}

/// known_hosts only adds trust to the config's candidates: after reading it,
/// the same candidates stand in the same order with the same name, host,
/// port, user and identity file.
pub proof fn law_known_hosts_keeps_candidates(r: ReportModel, content: Seq<char>)
    ensures
        same_entries(enrich_spec(r, content).candidates, r.candidates),
{
    lemma_known_hosts_fold_entries(crate::text::lines(content), r);
    let f = known_hosts_fold(crate::text::lines(content), r);
    let e = enrich_spec(r, content).candidates;
    assert forall|i: int| 0 <= i < e.len() implies same_host_entry(#[trigger] e[i], r.candidates[i]) by {
        assert(same_host_entry(f.candidates[i], r.candidates[i]));
    }
}

/// The host list of a known_hosts line: the first field, or the second
/// after an `@` marker.
pub open spec fn host_field_index(fields: Seq<Seq<char>>) -> int {
    if fields.len() > 0 && fields[0].len() > 0 && fields[0][0] == '@' {
        1
    } else {
        0
    }
}

/// Whether a token of a host list names `c`'s host and port.
pub open spec fn token_names(tok: Seq<char>, c: CandidateModel) -> bool {
    match parse_known_host_spec(tok) {
        Some((h, p)) => host_matches(c, h, p),
        None => false,
    }
}

/// Whether a (trimmed) known_hosts line lists a host that names `c`.
pub open spec fn line_vouches_for(line: Seq<char>, c: CandidateModel) -> bool {
    let fields = crate::text::split_ws(line);
    let hi = host_field_index(fields);
    &&& fields.len() >= hi + 3
    &&& exists|k: int|
        0 <= k < crate::text::split_char(fields[hi], ',').len() && token_names(
            #[trigger] crate::text::split_char(fields[hi], ',')[k],
            c,
        )
}

proof fn lemma_dedup_subset<A>(s: Seq<A>, x: A)
    requires
        dedup(s).contains(x),
    ensures
        s.contains(x),
    decreases s.len(),
{
    if s.len() > 0 {
        let d = dedup(s.drop_last());
        if d.contains(x) {
            lemma_dedup_subset(s.drop_last(), x);
            let j = choose|j: int| 0 <= j < s.drop_last().len() && s.drop_last()[j] == x;
            assert(s[j] == x);
        } else {
            assert(x == s.last());
            assert(s[s.len() - 1] == x);
        }
    }
}

proof fn lemma_token_fold_vouched(toks: Seq<Seq<char>>, r: ReportModel, line: Seq<char>, i: int, l: Seq<char>)
    requires
        0 <= i < r.candidates.len(),
        token_fold(toks, r, line).0.candidates[i].known_host_lines.contains(l),
    ensures
        r.candidates[i].known_host_lines.contains(l) || (l == line && exists|k: int|
            0 <= k < toks.len() && token_names(#[trigger] toks[k], r.candidates[i])),
    decreases toks.len(),
{
    if toks.len() > 0 {
        let prev_toks = toks.drop_last();
        let prev = token_fold(prev_toks, r, line).0;
        lemma_token_fold_entries(prev_toks, r, line);
        assert(same_host_entry(prev.candidates[i], r.candidates[i]));
        let c = prev.candidates[i];
        if c.known_host_lines.contains(l) {
            lemma_token_fold_vouched(prev_toks, r, line, i, l);
            if !r.candidates[i].known_host_lines.contains(l) {
                let k = choose|k: int| 0 <= k < prev_toks.len() && token_names(#[trigger] prev_toks[k], r.candidates[i]);
                assert(toks[k] == prev_toks[k]);
            }
        } else {
            let tok = toks.last();
            match parse_known_host_spec(tok) {
                None => {},
                Some((h, p)) => {
                    let now = apply_host(prev.candidates, h, p, line);
                    assert(now[i] == (if host_matches(c, h, p) { add_known_line(c, line) } else { c }));
                    if host_matches(c, h, p) && !c.known_host_lines.contains(line) {
                        let khl = c.known_host_lines.push(line);
                        let j = choose|j: int| 0 <= j < khl.len() && khl[j] == l;
                        if j < c.known_host_lines.len() {
                            assert(c.known_host_lines[j] == l);
                        }
                    }
                    assert(token_names(toks[toks.len() - 1], r.candidates[i]));
                },
            }
        }
    }
}

proof fn lemma_known_hosts_fold_vouched(ls: Seq<Seq<char>>, r: ReportModel, i: int, l: Seq<char>)
    requires
        0 <= i < r.candidates.len(),
        known_hosts_fold(ls, r).candidates[i].known_host_lines.contains(l),
    ensures
        r.candidates[i].known_host_lines.contains(l) || exists|j: int|
            0 <= j < ls.len() && trim(#[trigger] ls[j]) == l && line_is_read(l) && line_vouches_for(
                l,
                r.candidates[i],
            ),
    decreases ls.len(),
{
    if ls.len() > 0 {
        let prev_ls = ls.drop_last();
        let prev = known_hosts_fold(prev_ls, r);
        lemma_known_hosts_fold_entries(prev_ls, r);
        assert(same_host_entry(prev.candidates[i], r.candidates[i]));
        let line = trim(ls.last());
        let fields = crate::text::split_ws(line);
        let hi = host_field_index(fields);
        let lifted = prev.candidates[i].known_host_lines.contains(l);
        if !lifted {
            assert(line.len() > 0 && line[0] != '#' && fields.len() >= hi + 3);
            let toks = crate::text::split_char(fields[hi], ',');
            assert(!has_hashed(toks));
            let (r2, matched) = token_fold(toks, prev, line);
            assert(r2.candidates[i].known_host_lines.contains(l));
            lemma_token_fold_vouched(toks, prev, line, i, l);
            let k = choose|k: int| 0 <= k < toks.len() && token_names(#[trigger] toks[k], prev.candidates[i]);
            assert(token_names(toks[k], r.candidates[i]));
            assert(line_vouches_for(l, r.candidates[i]));
            assert(line_is_read(l));
            assert(trim(ls[ls.len() - 1]) == l);
        } else {
            lemma_known_hosts_fold_vouched(prev_ls, r, i, l);
            if !r.candidates[i].known_host_lines.contains(l) {
                let j = choose|j: int|
                    0 <= j < prev_ls.len() && trim(#[trigger] prev_ls[j]) == l && line_is_read(l)
                        && line_vouches_for(l, r.candidates[i]);
                assert(ls[j] == prev_ls[j]);
            }
        }
    }
}

/// known_hosts lends a candidate only its own lines: every line that reading
/// it adds to a candidate is a (trimmed) line of the file whose host list
/// names that candidate's alias or host name (ASCII case ignored) and port.
pub proof fn law_known_hosts_vouch_for_candidates(r: ReportModel, content: Seq<char>, i: int, l: Seq<char>)
    requires
        0 <= i < r.candidates.len(),
        enrich_spec(r, content).candidates[i].known_host_lines.contains(l),
        !r.candidates[i].known_host_lines.contains(l),
    ensures
        exists|j: int|
            0 <= j < crate::text::lines(content).len() && trim(#[trigger] crate::text::lines(content)[j]) == l
                && line_is_read(l) && line_vouches_for(l, r.candidates[i]),
{
    let ls = crate::text::lines(content);
    let f = known_hosts_fold(ls, r);
    lemma_known_hosts_fold_entries(ls, r);
    lemma_dedup_subset(f.candidates[i].known_host_lines, l);
    lemma_known_hosts_fold_vouched(ls, r, i, l);
}

proof fn lemma_apply_host_keeps(cs: Seq<CandidateModel>, h: Seq<char>, p: u16, line: Seq<char>, i: int, l: Seq<char>)
    requires
        0 <= i < cs.len(),
        cs[i].known_host_lines.contains(l),
    ensures
        apply_host(cs, h, p, line)[i].known_host_lines.contains(l),
{
    let c = cs[i];
    if host_matches(c, h, p) && !c.known_host_lines.contains(line) {
        let j = choose|j: int| 0 <= j < c.known_host_lines.len() && c.known_host_lines[j] == l;
        assert(c.known_host_lines.push(line)[j] == l);
    }
}

proof fn lemma_token_fold_keeps(toks: Seq<Seq<char>>, r: ReportModel, line: Seq<char>, i: int, l: Seq<char>)
    requires
        0 <= i < r.candidates.len(),
        r.candidates[i].known_host_lines.contains(l),
    ensures
        token_fold(toks, r, line).0.candidates[i].known_host_lines.contains(l),
    decreases toks.len(),
{
    if toks.len() > 0 {
        lemma_token_fold_keeps(toks.drop_last(), r, line, i, l);
        lemma_token_fold_entries(toks.drop_last(), r, line);
        let prev = token_fold(toks.drop_last(), r, line).0;
        match parse_known_host_spec(toks.last()) {
            None => {},
            Some((h, p)) => {
                lemma_apply_host_keeps(prev.candidates, h, p, line, i, l);
            },
        }
    }
}

proof fn lemma_token_fold_adds(toks: Seq<Seq<char>>, r: ReportModel, line: Seq<char>, i: int, k: int)
    requires
        0 <= i < r.candidates.len(),
        0 <= k < toks.len(),
        token_names(toks[k], r.candidates[i]),
    ensures
        token_fold(toks, r, line).0.candidates[i].known_host_lines.contains(line),
    decreases toks.len(),
{
    let prev_toks = toks.drop_last();
    let prev = token_fold(prev_toks, r, line).0;
    lemma_token_fold_entries(prev_toks, r, line);
    assert(same_host_entry(prev.candidates[i], r.candidates[i]));
    if k == toks.len() - 1 {
        let c = prev.candidates[i];
        let (h, p) = parse_known_host_spec(toks.last()).unwrap();
        assert(host_matches(c, h, p));
        if !c.known_host_lines.contains(line) {
            assert(c.known_host_lines.push(line)[c.known_host_lines.len() as int] == line);
        }
    } else {
        assert(prev_toks[k] == toks[k]);
        lemma_token_fold_adds(prev_toks, r, line, i, k);
        match parse_known_host_spec(toks.last()) {
            None => {},
            Some((h, p)) => {
                lemma_apply_host_keeps(prev.candidates, h, p, line, i, line);
            },
        }
    }
}

proof fn lemma_known_hosts_step_keeps(r: ReportModel, raw: Seq<char>, i: int, l: Seq<char>)
    requires
        0 <= i < r.candidates.len(),
        r.candidates[i].known_host_lines.contains(l),
    ensures
        known_hosts_step(r, raw).candidates[i].known_host_lines.contains(l),
{
    let line = trim(raw);
    let fields = crate::text::split_ws(line);
    let hi = host_field_index(fields);
    if line.len() > 0 && line[0] != '#' && fields.len() >= hi + 3 {
        let toks = crate::text::split_char(fields[hi], ',');
        lemma_token_fold_keeps(toks, r, line, i, l);
    }
}

proof fn lemma_known_hosts_fold_keeps(ls: Seq<Seq<char>>, r: ReportModel, i: int, l: Seq<char>)
    requires
        0 <= i < r.candidates.len(),
        r.candidates[i].known_host_lines.contains(l),
    ensures
        known_hosts_fold(ls, r).candidates[i].known_host_lines.contains(l),
    decreases ls.len(),
{
    if ls.len() > 0 {
        lemma_known_hosts_fold_keeps(ls.drop_last(), r, i, l);
        lemma_known_hosts_fold_entries(ls.drop_last(), r);
        lemma_known_hosts_step_keeps(known_hosts_fold(ls.drop_last(), r), ls.last(), i, l);
    }
}

/// Whether a (trimmed) known_hosts line is one that reading adds to the
/// candidates it names: not blank, not a comment, and with a host list that
/// holds no hashed entry.
pub open spec fn line_is_read(line: Seq<char>) -> bool {
    let fields = crate::text::split_ws(line);
    let hi = host_field_index(fields);
    &&& line.len() > 0
    &&& line[0] != '#'
    &&& fields.len() >= hi + 3
    &&& !has_hashed(crate::text::split_char(fields[hi], ','))
}

proof fn lemma_known_hosts_fold_adds(ls: Seq<Seq<char>>, r: ReportModel, i: int, j: int)
    requires
        0 <= i < r.candidates.len(),
        0 <= j < ls.len(),
        line_is_read(trim(ls[j])),
        line_vouches_for(trim(ls[j]), r.candidates[i]),
    ensures
        known_hosts_fold(ls, r).candidates[i].known_host_lines.contains(trim(ls[j])),
    decreases ls.len(),
{
    let prev_ls = ls.drop_last();
    let prev = known_hosts_fold(prev_ls, r);
    lemma_known_hosts_fold_entries(prev_ls, r);
    assert(same_host_entry(prev.candidates[i], r.candidates[i]));
    if j == ls.len() - 1 {
        let line = trim(ls.last());
        let fields = crate::text::split_ws(line);
        let hi = host_field_index(fields);
        let toks = crate::text::split_char(fields[hi], ',');
        let k = choose|k: int| 0 <= k < toks.len() && token_names(#[trigger] toks[k], r.candidates[i]);
        assert(token_names(toks[k], prev.candidates[i]));
        lemma_token_fold_adds(toks, prev, line, i, k);
        let (r2, matched) = token_fold(toks, prev, line);
        assert(known_hosts_step(prev, ls.last()).candidates == r2.candidates);
    } else {
        assert(prev_ls[j] == ls[j]);
        lemma_known_hosts_fold_adds(prev_ls, r, i, j);
        lemma_known_hosts_step_keeps(prev, ls.last(), i, trim(ls[j]));
    }
}

proof fn lemma_dedup_keeps<A>(s: Seq<A>, x: A)
    requires
        s.contains(x),
    ensures
        dedup(s).contains(x),
    decreases s.len(),
{
    let d = dedup(s.drop_last());
    if s.last() == x {
        if !d.contains(x) {
            assert(d.push(x)[d.len() as int] == x);
        }
    } else {
        let j = choose|j: int| 0 <= j < s.len() && s[j] == x;
        assert(s.drop_last()[j] == x);
        lemma_dedup_keeps(s.drop_last(), x);
        if !d.contains(s.last()) {
            let k = choose|k: int| 0 <= k < d.len() && d[k] == x;
            assert(d.push(s.last())[k] == x);
        }
    }
}

/// known_hosts vouches for every candidate it names: each (trimmed) line
/// of the file that is read, and whose host list names a candidate's alias
/// or host name (ASCII case ignored) and port, is among that candidate's
/// trusted lines afterwards.
pub proof fn law_known_hosts_adds_vouching_lines(r: ReportModel, content: Seq<char>, i: int, j: int)
    requires
        0 <= i < r.candidates.len(),
        0 <= j < crate::text::lines(content).len(),
        line_is_read(trim(crate::text::lines(content)[j])),
        line_vouches_for(trim(crate::text::lines(content)[j]), r.candidates[i]),
    ensures
        enrich_spec(r, content).candidates[i].known_host_lines.contains(trim(crate::text::lines(content)[j])),
{
    let ls = crate::text::lines(content);
    lemma_known_hosts_fold_adds(ls, r, i, j);
    lemma_known_hosts_fold_entries(ls, r);
    let f = known_hosts_fold(ls, r);
    lemma_dedup_keeps(f.candidates[i].known_host_lines, trim(ls[j]));
}

/// After reading known_hosts, a candidate's trusted lines are exactly its
/// old ones together with the (trimmed) lines of the file that are read and
/// whose host list names it.
pub proof fn law_known_hosts_line_set(r: ReportModel, content: Seq<char>, i: int, l: Seq<char>)
    requires
        0 <= i < r.candidates.len(),
    ensures
        enrich_spec(r, content).candidates[i].known_host_lines.contains(l) <==> (r.candidates[i].known_host_lines.contains(
            l,
        ) || exists|j: int|
            0 <= j < crate::text::lines(content).len() && trim(#[trigger] crate::text::lines(content)[j]) == l
                && line_is_read(l) && line_vouches_for(l, r.candidates[i])),
{
    let ls = crate::text::lines(content);
    let f = known_hosts_fold(ls, r);
    lemma_known_hosts_fold_entries(ls, r);
    if enrich_spec(r, content).candidates[i].known_host_lines.contains(l) {
        lemma_dedup_subset(f.candidates[i].known_host_lines, l);
        lemma_known_hosts_fold_vouched(ls, r, i, l);
    }
    if r.candidates[i].known_host_lines.contains(l) {
        lemma_known_hosts_fold_keeps(ls, r, i, l);
        lemma_dedup_keeps(f.candidates[i].known_host_lines, l);
    } else if exists|j: int|
        0 <= j < ls.len() && trim(#[trigger] ls[j]) == l && line_is_read(l) && line_vouches_for(l, r.candidates[i]) {
        let j = choose|j: int|
            0 <= j < ls.len() && trim(#[trigger] ls[j]) == l && line_is_read(l) && line_vouches_for(l, r.candidates[i]);
        law_known_hosts_adds_vouching_lines(r, content, i, j);
    }
}

proof fn lemma_dedup_distinct<A>(s: Seq<A>)
    ensures
        dedup(s).no_duplicates(),
    decreases s.len(),
{
    if s.len() > 0 {
        lemma_dedup_distinct(s.drop_last());
        let d = dedup(s.drop_last());
        if !d.contains(s.last()) {
            let e = d.push(s.last());
            assert forall|a: int, b: int| 0 <= a < e.len() && 0 <= b < e.len() && a != b implies e[a] != e[b] by {
                if a < d.len() && b < d.len() {
                    assert(e[a] == d[a] && e[b] == d[b]);
                } else if a < d.len() {
                    assert(e[a] == d[a]);
                } else {
                    assert(e[b] == d[b]);
                }
            }
        }
    }
}

proof fn lemma_dedup_of_distinct<A>(s: Seq<A>)
    requires
        s.no_duplicates(),
    ensures
        dedup(s) == s,
    decreases s.len(),
{
    if s.len() > 0 {
        let d = s.drop_last();
        assert(d.no_duplicates()) by {
            assert forall|a: int, b: int| 0 <= a < d.len() && 0 <= b < d.len() && a != b implies d[a] != d[b] by {
                assert(d[a] == s[a] && d[b] == s[b]);
            }
        }
        lemma_dedup_of_distinct(d);
        assert(!d.contains(s.last())) by {
            if d.contains(s.last()) {
                let k = choose|k: int| 0 <= k < d.len() && d[k] == s.last();
                assert(s[k] == s[s.len() - 1]);
            }
        }
        assert(d.push(s.last()) =~= s);
    }
}

proof fn lemma_token_fold_stable(toks: Seq<Seq<char>>, r: ReportModel, line: Seq<char>, i: int)
    requires
        0 <= i < r.candidates.len(),
        forall|k: int|
            0 <= k < toks.len() && token_names(#[trigger] toks[k], r.candidates[i])
                ==> r.candidates[i].known_host_lines.contains(line),
    ensures
        token_fold(toks, r, line).0.candidates[i].known_host_lines == r.candidates[i].known_host_lines,
    decreases toks.len(),
{
    if toks.len() > 0 {
        let prev_toks = toks.drop_last();
        assert forall|k: int|
            0 <= k < prev_toks.len() && token_names(#[trigger] prev_toks[k], r.candidates[i])
                implies r.candidates[i].known_host_lines.contains(line) by {
            assert(prev_toks[k] == toks[k]);
        }
        lemma_token_fold_stable(prev_toks, r, line, i);
        lemma_token_fold_entries(prev_toks, r, line);
        let prev = token_fold(prev_toks, r, line).0;
        assert(same_host_entry(prev.candidates[i], r.candidates[i]));
        match parse_known_host_spec(toks.last()) {
            None => {},
            Some((h, p)) => {
                if host_matches(prev.candidates[i], h, p) {
                    assert(token_names(toks[toks.len() - 1], r.candidates[i]));
                }
            },
        }
    }
}

proof fn lemma_known_hosts_fold_stable(ls: Seq<Seq<char>>, r: ReportModel, i: int)
    requires
        0 <= i < r.candidates.len(),
        forall|j: int|
            0 <= j < ls.len() && line_is_read(trim(#[trigger] ls[j])) && line_vouches_for(trim(ls[j]), r.candidates[i])
                ==> r.candidates[i].known_host_lines.contains(trim(ls[j])),
    ensures
        known_hosts_fold(ls, r).candidates[i].known_host_lines == r.candidates[i].known_host_lines,
    decreases ls.len(),
{
    if ls.len() > 0 {
        let prev_ls = ls.drop_last();
        assert forall|j: int|
            0 <= j < prev_ls.len() && line_is_read(trim(#[trigger] prev_ls[j])) && line_vouches_for(
                trim(prev_ls[j]),
                r.candidates[i],
            ) implies r.candidates[i].known_host_lines.contains(trim(prev_ls[j])) by {
            assert(prev_ls[j] == ls[j]);
        }
        lemma_known_hosts_fold_stable(prev_ls, r, i);
        lemma_known_hosts_fold_entries(prev_ls, r);
        let prev = known_hosts_fold(prev_ls, r);
        assert(same_host_entry(prev.candidates[i], r.candidates[i]));
        let line = trim(ls.last());
        let fields = crate::text::split_ws(line);
        let hi = host_field_index(fields);
        if line.len() > 0 && line[0] != '#' && fields.len() >= hi + 3 {
            let toks = crate::text::split_char(fields[hi], ',');
            if !has_hashed(toks) {
                assert forall|k: int|
                    0 <= k < toks.len() && token_names(#[trigger] toks[k], prev.candidates[i])
                        implies prev.candidates[i].known_host_lines.contains(line) by {
                    assert(token_names(toks[k], r.candidates[i]));
                    assert(line_vouches_for(line, r.candidates[i]));
                    assert(line_is_read(line));
                    assert(trim(ls[ls.len() - 1]) == line);
                }
                lemma_token_fold_stable(toks, prev, line, i);
            }
        }
    }
}

/// Reading the same known_hosts file a second time adds nothing: each
/// candidate's trusted lines hold no line twice, and a second reading
/// leaves them as the first left them.
pub proof fn law_known_hosts_second_pass(r: ReportModel, content: Seq<char>, i: int)
    requires
        0 <= i < r.candidates.len(),
    ensures
        enrich_spec(r, content).candidates[i].known_host_lines.no_duplicates(),
        enrich_spec(enrich_spec(r, content), content).candidates[i].known_host_lines
            == enrich_spec(r, content).candidates[i].known_host_lines,
{
    let ls = crate::text::lines(content);
    let r1 = enrich_spec(r, content);
    law_known_hosts_keeps_candidates(r, content);
    assert(same_host_entry(r1.candidates[i], r.candidates[i]));
    lemma_known_hosts_fold_entries(ls, r);
    lemma_dedup_distinct(known_hosts_fold(ls, r).candidates[i].known_host_lines);
    assert forall|j: int|
        0 <= j < ls.len() && line_is_read(trim(#[trigger] ls[j])) && line_vouches_for(trim(ls[j]), r1.candidates[i])
            implies r1.candidates[i].known_host_lines.contains(trim(ls[j])) by {
        let l = trim(ls[j]);
        let fields = crate::text::split_ws(l);
        let hi = host_field_index(fields);
        let toks = crate::text::split_char(fields[hi], ',');
        let k = choose|k: int| 0 <= k < toks.len() && token_names(#[trigger] toks[k], r1.candidates[i]);
        assert(token_names(toks[k], r.candidates[i]));
        law_known_hosts_adds_vouching_lines(r, content, i, j);
    }
    lemma_known_hosts_fold_stable(ls, r1, i);
    lemma_known_hosts_fold_entries(ls, r1);
    lemma_dedup_of_distinct(r1.candidates[i].known_host_lines);
}

/// `acc` with `l` appended unless it already holds it.
pub open spec fn add_line(acc: Seq<Seq<char>>, l: Seq<char>) -> Seq<Seq<char>> {
    if acc.contains(l) {
        acc
    } else {
        acc.push(l)
    }
}

/// The trusted lines of a candidate like `c` that start as `acc`, after the
/// lines `ls` are read in order: each (trimmed) line that is read and names
/// the candidate is appended, unless it is already there.
pub open spec fn merge_vouching(acc: Seq<Seq<char>>, ls: Seq<Seq<char>>, c: CandidateModel) -> Seq<Seq<char>>
    decreases ls.len(),
{
    if ls.len() == 0 {
        acc
    } else {
        let prev = merge_vouching(acc, ls.drop_last(), c);
        let l = trim(ls.last());
        if line_is_read(l) && line_vouches_for(l, c) {
            add_line(prev, l)
        } else {
            prev
        }
    }
}

proof fn lemma_vouches_same_entry(l: Seq<char>, a: CandidateModel, b: CandidateModel)
    requires
        same_host_entry(a, b),
    ensures
        line_vouches_for(l, a) == line_vouches_for(l, b),
{
    let fields = crate::text::split_ws(l);
    let hi = host_field_index(fields);
    if fields.len() >= hi + 3 {
        let toks = crate::text::split_char(fields[hi], ',');
        if line_vouches_for(l, a) {
            let k = choose|k: int| 0 <= k < toks.len() && token_names(#[trigger] toks[k], a);
            assert(token_names(toks[k], b));
        }
        if line_vouches_for(l, b) {
            let k = choose|k: int| 0 <= k < toks.len() && token_names(#[trigger] toks[k], b);
            assert(token_names(toks[k], a));
        }
    }
}

proof fn lemma_token_fold_effect(toks: Seq<Seq<char>>, r: ReportModel, line: Seq<char>, i: int)
    requires
        0 <= i < r.candidates.len(),
    ensures
        token_fold(toks, r, line).0.candidates[i].known_host_lines == (if exists|k: int|
            0 <= k < toks.len() && token_names(#[trigger] toks[k], r.candidates[i]) {
            add_line(r.candidates[i].known_host_lines, line)
        } else {
            r.candidates[i].known_host_lines
        }),
    decreases toks.len(),
{
    if toks.len() > 0 {
        let prev_toks = toks.drop_last();
        lemma_token_fold_effect(prev_toks, r, line, i);
        lemma_token_fold_entries(prev_toks, r, line);
        let prev = token_fold(prev_toks, r, line).0;
        let c = r.candidates[i];
        assert(same_host_entry(prev.candidates[i], c));
        let named_before = exists|k: int| 0 <= k < prev_toks.len() && token_names(#[trigger] prev_toks[k], c);
        let named_now = exists|k: int| 0 <= k < toks.len() && token_names(#[trigger] toks[k], c);
        if named_before {
            let k = choose|k: int| 0 <= k < prev_toks.len() && token_names(#[trigger] prev_toks[k], c);
            assert(toks[k] == prev_toks[k]);
        }
        let last_names = token_names(toks[toks.len() - 1], c);
        if named_now && !named_before {
            let k = choose|k: int| 0 <= k < toks.len() && token_names(#[trigger] toks[k], c);
            if k < prev_toks.len() {
                assert(prev_toks[k] == toks[k]);
            }
            assert(last_names);
        }
        if last_names {
            assert(named_now);
        }
        let pk = prev.candidates[i].known_host_lines;
        assert(add_line(pk, line).contains(line)) by {
            if !pk.contains(line) {
                assert(pk.push(line)[pk.len() as int] == line);
            }
        }
        match parse_known_host_spec(toks.last()) {
            None => {
                assert(!last_names);
            },
            Some((h, p)) => {
                assert(host_matches(prev.candidates[i], h, p) == last_names);
                let now = apply_host(prev.candidates, h, p, line);
                let pc = prev.candidates[i];
                assert(now[i] == (if host_matches(pc, h, p) {
                    add_known_line(pc, line)
                } else {
                    pc
                }));
                assert(add_known_line(pc, line).known_host_lines == add_line(pk, line));
            },
        }
        if named_before {
            let kl = c.known_host_lines;
            assert(add_line(kl, line).contains(line)) by {
                if !kl.contains(line) {
                    assert(kl.push(line)[kl.len() as int] == line);
                }
            }
        }
    }
}

proof fn lemma_known_hosts_step_effect(r: ReportModel, raw: Seq<char>, i: int)
    requires
        0 <= i < r.candidates.len(),
    ensures
        known_hosts_step(r, raw).candidates[i].known_host_lines == (if line_is_read(trim(raw)) && line_vouches_for(
            trim(raw),
            r.candidates[i],
        ) {
            add_line(r.candidates[i].known_host_lines, trim(raw))
        } else {
            r.candidates[i].known_host_lines
        }),
{
    let line = trim(raw);
    let fields = crate::text::split_ws(line);
    let hi = host_field_index(fields);
    if line.len() > 0 && line[0] != '#' && fields.len() >= hi + 3 {
        let toks = crate::text::split_char(fields[hi], ',');
        if !has_hashed(toks) {
            lemma_token_fold_effect(toks, r, line, i);
        }
    }
}

proof fn lemma_known_hosts_fold_effect(ls: Seq<Seq<char>>, r: ReportModel, i: int)
    requires
        0 <= i < r.candidates.len(),
    ensures
        known_hosts_fold(ls, r).candidates[i].known_host_lines == merge_vouching(
            r.candidates[i].known_host_lines,
            ls,
            r.candidates[i],
        ),
    decreases ls.len(),
{
    if ls.len() > 0 {
        lemma_known_hosts_fold_effect(ls.drop_last(), r, i);
        lemma_known_hosts_fold_entries(ls.drop_last(), r);
        let prev = known_hosts_fold(ls.drop_last(), r);
        assert(same_host_entry(prev.candidates[i], r.candidates[i]));
        lemma_known_hosts_step_effect(prev, ls.last(), i);
        lemma_vouches_same_entry(trim(ls.last()), prev.candidates[i], r.candidates[i]);
    }
}

proof fn lemma_merge_appends(acc: Seq<Seq<char>>, ls: Seq<Seq<char>>, c: CandidateModel)
    ensures
        merge_vouching(acc, ls, c).len() >= acc.len(),
        merge_vouching(acc, ls, c) == acc + merge_vouching(acc, ls, c).skip(acc.len() as int),
        merge_vouching(acc, ls, c).skip(acc.len() as int).no_duplicates(),
        forall|x: Seq<char>| #[trigger] merge_vouching(acc, ls, c).skip(acc.len() as int).contains(x) ==> !acc.contains(x),
    decreases ls.len(),
{
    let m = merge_vouching(acc, ls, c);
    let n = m.skip(acc.len() as int);
    if ls.len() == 0 {
        assert(n =~= Seq::<Seq<char>>::empty());
        assert(acc + n =~= acc);
    } else {
        lemma_merge_appends(acc, ls.drop_last(), c);
        let prev = merge_vouching(acc, ls.drop_last(), c);
        let pn = prev.skip(acc.len() as int);
        let l = trim(ls.last());
        if m == prev {
        } else {
            assert(m == prev.push(l));
            assert(!prev.contains(l));
            assert(n =~= pn.push(l));
            assert(m =~= acc + n);
            assert(!acc.contains(l)) by {
                if acc.contains(l) {
                    let k = choose|k: int| 0 <= k < acc.len() && acc[k] == l;
                    assert(prev[k] == l);
                }
            }
            assert(!pn.contains(l)) by {
                if pn.contains(l) {
                    let k = choose|k: int| 0 <= k < pn.len() && pn[k] == l;
                    assert(prev[acc.len() + k] == l);
                }
            }
            assert forall|a: int, b: int| 0 <= a < n.len() && 0 <= b < n.len() && a != b implies n[a] != n[b] by {
                if a < pn.len() && b < pn.len() {
                    assert(n[a] == pn[a] && n[b] == pn[b]);
                } else if a < pn.len() {
                    assert(n[a] == pn[a]);
                    assert(pn.contains(pn[a]));
                } else {
                    assert(n[b] == pn[b]);
                    assert(pn.contains(pn[b]));
                }
            }
            assert forall|x: Seq<char>| #[trigger] n.contains(x) implies !acc.contains(x) by {
                let k = choose|k: int| 0 <= k < n.len() && n[k] == x;
                if k < pn.len() {
                    assert(pn[k] == x);
                    assert(pn.contains(x));
                }
            }
        }
    }
}

proof fn lemma_dedup_append_fresh(acc: Seq<Seq<char>>, n: Seq<Seq<char>>)
    requires
        n.no_duplicates(),
        forall|x: Seq<char>| #[trigger] n.contains(x) ==> !acc.contains(x),
    ensures
        dedup(acc + n) == dedup(acc) + n,
    decreases n.len(),
{
    if n.len() == 0 {
        assert(acc + n =~= acc);
        assert(dedup(acc) + n =~= dedup(acc));
    } else {
        let n1 = n.drop_last();
        let x = n.last();
        assert(n1.no_duplicates()) by {
            assert forall|a: int, b: int| 0 <= a < n1.len() && 0 <= b < n1.len() && a != b implies n1[a] != n1[b] by {
                assert(n1[a] == n[a] && n1[b] == n[b]);
            }
        }
        assert forall|y: Seq<char>| #[trigger] n1.contains(y) implies !acc.contains(y) by {
            let k = choose|k: int| 0 <= k < n1.len() && n1[k] == y;
            assert(n[k] == y);
            assert(n.contains(y));
        }
        lemma_dedup_append_fresh(acc, n1);
        assert((acc + n).drop_last() =~= acc + n1);
        assert((acc + n).last() == x);
        assert(n.contains(x)) by {
            assert(n[n.len() - 1] == x);
        }
        assert(!dedup(acc + n1).contains(x)) by {
            if dedup(acc + n1).contains(x) {
                lemma_dedup_subset(acc + n1, x);
                let k = choose|k: int| 0 <= k < (acc + n1).len() && (acc + n1)[k] == x;
                if k < acc.len() {
                    assert(acc[k] == x);
                } else {
                    assert(n[k - acc.len()] == x);
                    assert(n[n.len() - 1] == x);
                }
            }
        }
        assert(dedup(acc) + n =~= (dedup(acc) + n1).push(x));
    }
}

/// The order of a candidate's trusted lines after reading known_hosts: its
/// old lines with later repeats dropped, then the (trimmed) lines of the
/// file that are read and name it, in file order, each once and none of
/// them among the old lines.
pub proof fn law_known_hosts_line_order(r: ReportModel, content: Seq<char>, i: int)
    requires
        0 <= i < r.candidates.len(),
    ensures
        ({
            let old_lines = r.candidates[i].known_host_lines;
            let added = merge_vouching(old_lines, crate::text::lines(content), r.candidates[i]).skip(
                old_lines.len() as int,
            );
            &&& enrich_spec(r, content).candidates[i].known_host_lines == dedup(old_lines) + added
            &&& added.no_duplicates()
            &&& forall|x: Seq<char>| #[trigger] added.contains(x) ==> !old_lines.contains(x)
        }),
{
    let ls = crate::text::lines(content);
    let old_lines = r.candidates[i].known_host_lines;
    lemma_known_hosts_fold_entries(ls, r);
    lemma_known_hosts_fold_effect(ls, r, i);
    lemma_merge_appends(old_lines, ls, r.candidates[i]);
    let added = merge_vouching(old_lines, ls, r.candidates[i]).skip(old_lines.len() as int);
    lemma_dedup_append_fresh(old_lines, added);
}

/// `v` with repeated lines removed, first occurrences kept.
pub fn dedup_strings(v: &Vec<String>) -> (r: Vec<String>)
    ensures
        string_views(r@) == dedup(string_views(v@)),
{
    let mut r: Vec<String> = Vec::new();
    let mut i: usize = 0;
    while i < v.len()
        invariant
            i <= v@.len(),
            string_views(r@) == dedup(string_views(v@).take(i as int)),
        decreases v@.len() - i,
    {
        let ghost t = string_views(v@).take(i + 1);
        proof {
            assert(t.drop_last() =~= string_views(v@).take(i as int));
            assert(t.last() == v@[i as int]@);
        }
        if !strings_contain(&r, v[i].as_str()) {
            let ghost before = r@;
            r.push(v[i].clone());
            assert(string_views(r@) =~= string_views(before).push(v@[i as int]@));
        }
        i += 1;
    }
    assert(string_views(v@).take(v@.len() as int) =~= string_views(v@));
    r
}

fn update_candidates(cands: &mut Vec<SshImportCandidate>, h: &Vec<char>, p: u16, line: &String) -> (matched: bool)
    ensures
        candidate_views(final(cands)@) == apply_host(candidate_views(old(cands)@), h@, p, line@),
        matched == any_matches(candidate_views(old(cands)@), h@, p),
{
    let ghost orig = candidate_views(cands@);
    let ghost target = apply_host(orig, h@, p, line@);
    let mut matched = false;
    let mut j: usize = 0;
    while j < cands.len()
        invariant
            j <= cands@.len(),
            orig.len() == cands@.len(),
            target == apply_host(orig, h@, p, line@),
            forall|k: int| 0 <= k < j ==> #[trigger] cands@[k]@ == target[k],
            forall|k: int| j <= k < cands@.len() ==> #[trigger] cands@[k]@ == orig[k],
            matched == exists|k: int| 0 <= k < j && host_matches(#[trigger] orig[k], h@, p),
        decreases cands@.len() - j,
    {
        let name = chars_of(cands[j].name.as_str());
        let host = chars_of(cands[j].host.as_str());
        let m = (crate::text::eq_ignore_ascii_case_chars(&name, h)
            || crate::text::eq_ignore_ascii_case_chars(&host, h)) && cands[j].port == p;
        assert(orig[j as int] == cands@[j as int]@);
        assert(m == host_matches(orig[j as int], h@, p));
        if m {
            if !strings_contain(&cands[j].known_host_lines, line.as_str()) {
                let ghost before = cands@[j as int].known_host_lines@;
                cands[j].known_host_lines.push(line.clone());
                assert(string_views(cands@[j as int].known_host_lines@) =~= string_views(before).push(line@));
            }
            matched = true;
        }
        assert(cands@[j as int]@ == target[j as int]);
        j += 1;
    }
    assert(candidate_views(cands@) =~= target);
    matched
}

#[verifier::loop_isolation(false)]
fn known_hosts_line(report: &mut DiscoveryReport, raw: &Vec<char>)
    requires
        known_hosts_step(old(report)@, raw@).skipped_hashed_hosts <= usize::MAX,
        known_hosts_step(old(report)@, raw@).skipped_standalone_hosts <= usize::MAX,
        known_hosts_step(old(report)@, raw@).malformed_known_hosts <= usize::MAX,
    ensures
        final(report)@ == known_hosts_step(old(report)@, raw@),
{
    let (lo, hi) = trim_bounds(raw, 0, raw.len());
    assert(raw@.subrange(0, raw@.len() as int) =~= raw@);
    let line_chars = chars_range(raw, lo, hi);
    if line_chars.len() == 0 || line_chars[0] == '#' {
        return;
    }
    let fields = crate::text::split_whitespace_chars(&line_chars);
    let host_index: usize = if fields.len() > 0 && fields[0].len() > 0 && fields[0][0] == '@' {
        1
    } else {
        0
    };
    proof {
        if fields@.len() > 0 {
            assert(views(fields@)[0] == fields@[0]@);
        }
    }
    if fields.len() < host_index + 3 {
        report.malformed_known_hosts = report.malformed_known_hosts + 1;
        return;
    }
    assert(views(fields@)[host_index as int] == fields@[host_index as int]@);
    let toks = crate::text::split_chars_at(&fields[host_index], ',');
    let ghost tv = views(toks@);
    let hashed_prefix = chars_of("|1|");
    let mut t: usize = 0;
    while t < toks.len()
        invariant
            t <= toks@.len(),
            tv == views(toks@),
            hashed_prefix@ == "|1|"@,
            forall|k: int| 0 <= k < t ==> !crate::text::starts_with(#[trigger] tv[k], "|1|"@),
            report@ == old(report)@,
        decreases toks@.len() - t,
    {
        assert(tv[t as int] == toks@[t as int]@);
        if crate::text::starts_with_chars(&toks[t], &hashed_prefix) {
            proof {
                assert(line_chars@ == trim(raw@));
                assert(views(fields@) == crate::text::split_ws(line_chars@));
                assert(tv == crate::text::split_char(views(fields@)[host_index as int], ','));
                assert(has_hashed(tv));
            }
            report.skipped_hashed_hosts = report.skipped_hashed_hosts + 1;
            return;
        }
        t += 1;
    }
    let line = string_of(&line_chars);
    let ghost r0 = report@;
    proof {
        assert(line@ == trim(raw@));
        assert(views(fields@) == crate::text::split_ws(line@));
        assert(tv == crate::text::split_char(views(fields@)[host_index as int], ','));
        assert(!has_hashed(tv));
        assert(r0 == old(report)@);
        let (r2, m) = token_fold(tv, r0, line@);
        assert(known_hosts_step(r0, raw@).malformed_known_hosts == r2.malformed_known_hosts);
        assert(known_hosts_step(r0, raw@) == (if m {
            r2
        } else {
            ReportModel { skipped_standalone_hosts: r2.skipped_standalone_hosts + 1, ..r2 }
        }));
    }
    let mut matched = false;
    let mut i: usize = 0;
    proof {
        lemma_token_fold_mono(tv, r0, line@, tv.len() as int);
        assert(tv.take(0) =~= Seq::<Seq<char>>::empty());
    }
    while i < toks.len()
        invariant
            i <= toks@.len(),
            tv == views(toks@),
            line@ == trim(raw@),
            token_fold(tv, r0, line@).0.malformed_known_hosts <= usize::MAX,
            (report@, matched) == token_fold(tv.take(i as int), r0, line@),
        decreases toks@.len() - i,
    {
        proof {
            assert(tv.take(i + 1).drop_last() =~= tv.take(i as int));
            lemma_token_fold_mono(tv, r0, line@, i + 1);
            assert(tv[i as int] == toks@[i as int]@);
        }
        match parse_known_host(&toks[i]) {
            None => {
                report.malformed_known_hosts = report.malformed_known_hosts + 1;
            },
            Some((h, p)) => {
                let m = update_candidates(&mut report.candidates, &h, p, &line);
                matched = matched || m;
            },
        }
        i += 1;
    }
    assert(tv.take(toks@.len() as int) =~= tv);
    if !matched {
        report.skipped_standalone_hosts = report.skipped_standalone_hosts + 1;
    }
}

/// Adds to each candidate the known_hosts lines that name its alias or host
/// name with its port, and counts the lines it skips.
pub fn enrich_from_known_hosts(report: &mut DiscoveryReport, content: &str)
    requires
        enrich_spec(old(report)@, content@).skipped_hashed_hosts <= usize::MAX,
        enrich_spec(old(report)@, content@).skipped_standalone_hosts <= usize::MAX,
        enrich_spec(old(report)@, content@).malformed_known_hosts <= usize::MAX,
    ensures
        final(report)@ == enrich_spec(old(report)@, content@),
{
    let ls = crate::text::lines_of(&chars_of(content));
    let ghost lv = views(ls@);
    let ghost r0 = report@;
    let mut i: usize = 0;
    proof {
        assert(lv.take(0) =~= Seq::<Seq<char>>::empty());
    }
    while i < ls.len()
        invariant
            i <= ls@.len(),
            lv == views(ls@),
            lv == crate::text::lines(content@),
            known_hosts_fold(lv, r0).skipped_hashed_hosts <= usize::MAX,
            known_hosts_fold(lv, r0).skipped_standalone_hosts <= usize::MAX,
            known_hosts_fold(lv, r0).malformed_known_hosts <= usize::MAX,
            report@ == known_hosts_fold(lv.take(i as int), r0),
        decreases ls@.len() - i,
    {
        proof {
            assert(lv.take(i + 1).drop_last() =~= lv.take(i as int));
            lemma_known_hosts_fold_mono(lv, r0, i + 1);
            assert(lv[i as int] == ls@[i as int]@);
        }
        known_hosts_line(report, &ls[i]);
        i += 1;
    }
    assert(lv.take(ls@.len() as int) =~= lv);
    let ghost folded = report@;
    let mut j: usize = 0;
    while j < report.candidates.len()
        invariant
            j <= report.candidates@.len(),
            report.candidates@.len() == folded.candidates.len(),
            report.skipped_wildcards == folded.skipped_wildcards,
            report.skipped_hashed_hosts == folded.skipped_hashed_hosts,
            report.skipped_standalone_hosts == folded.skipped_standalone_hosts,
            report.malformed_known_hosts == folded.malformed_known_hosts,
            forall|k: int| 0 <= k < j ==> #[trigger] report.candidates@[k]@ == dedup_candidates(folded).candidates[k],
            forall|k: int| j <= k < report.candidates@.len() ==> #[trigger] report.candidates@[k]@ == folded.candidates[k],
        decreases report.candidates@.len() - j,
    {
        let d = dedup_strings(&report.candidates[j].known_host_lines);
        let ghost before = report.candidates@;
        report.candidates[j].known_host_lines = d;
        proof {
            assert(before[j as int]@ == folded.candidates[j as int]);
            assert(report.candidates@[j as int]@ =~= dedup_candidates(folded).candidates[j as int]);
            assert forall|k: int| 0 <= k < report.candidates@.len() && k != j implies #[trigger] report.candidates@[k] == before[k] by {}
        }
        j += 1;
    }
    assert(report@.candidates =~= dedup_candidates(folded).candidates);
}

/// The default private key files, in the order they are preferred.
pub open spec fn default_identity_names() -> Seq<Seq<char>> {
    seq!["id_ed25519"@, "id_ecdsa"@, "id_rsa"@]
}

/// Discovery over the texts of `~/.ssh/config` and `~/.ssh/known_hosts`
/// (empty where a file is missing): the config's candidates, enriched with
/// their known_hosts lines.
pub fn discover_ssh_hosts(home: &str, config: &str, known_hosts: &str) -> (r: DiscoveryReport)
    ensures
        r@ == enrich_spec(parse_ssh_config_spec(config@, home@), known_hosts@),
{
    let _length: usize = known_hosts.unicode_len();
    let mut report = parse_ssh_config(config, home);
    proof {
        lemma_config_no_skips(config@, home@);
        lemma_enrich_skips_bound(report@, known_hosts@);
    }
    enrich_from_known_hosts(&mut report, known_hosts);
    report
}

/// The first of `home/.ssh/id_ed25519`, `id_ecdsa`, `id_rsa` that is a
/// regular file, where `is_file[i]` tells whether the `i`-th one is.
pub fn first_default_identity(home: &str, is_file: &Vec<bool>) -> (r: Option<String>)
    requires
        is_file@.len() == 3,
    ensures
        match r {
            Some(p) => exists|i: int|
                0 <= i < 3 && is_file@[i] && (forall|j: int| 0 <= j < i ==> !is_file@[j]) && p@
                    == path_joined(path_joined(home@, ".ssh"@), default_identity_names()[i]),
            None => forall|i: int| 0 <= i < 3 ==> !is_file@[i],
        },
{
    let ssh_dir = join_path(home, ".ssh");
    if is_file[0] {
        let p = join_path(ssh_dir.as_str(), "id_ed25519");
        assert(default_identity_names()[0] == "id_ed25519"@);
        return Some(p);
    }
    if is_file[1] {
        let p = join_path(ssh_dir.as_str(), "id_ecdsa");
        assert(default_identity_names()[1] == "id_ecdsa"@);
        return Some(p);
    }
    if is_file[2] {
        let p = join_path(ssh_dir.as_str(), "id_rsa");
        assert(default_identity_names()[2] == "id_rsa"@);
        return Some(p);
    }
    None
}

/// The paths of the default private key files, in the order they are
/// preferred; `first_default_identity` is told which of them are files.
pub fn default_identity_paths(home: &str) -> (r: Vec<String>)
    ensures
        r@.len() == 3,
        forall|i: int| 0 <= i < 3 ==> #[trigger] r@[i]@ == path_joined(path_joined(home@, ".ssh"@), default_identity_names()[i]),
{
    let ssh_dir = join_path(home, ".ssh");
    let mut r: Vec<String> = Vec::new();
    r.push(join_path(ssh_dir.as_str(), "id_ed25519"));
    r.push(join_path(ssh_dir.as_str(), "id_ecdsa"));
    r.push(join_path(ssh_dir.as_str(), "id_rsa"));
    r
}

} // verus!
