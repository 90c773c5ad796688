//! The Telnet side of a session: option negotiation, line endings, prompt
//! detection and the login and command exchange.
use vstd::prelude::*;

use crate::error::TelepromptError;
use crate::ssh::sudo_prompt_in;
use crate::text::{chars_of, contains_chars, trim_end, unicode_lowercase, to_lowercase};

verus! {

/// Telnet command bytes (RFC 854).
pub const IAC: u8 = 255;
pub const DONT: u8 = 254;
pub const DO: u8 = 253;
pub const WONT: u8 = 252;
pub const WILL: u8 = 251;
pub const SB: u8 = 250;
pub const SE: u8 = 240;

/// Whether text shows a password prompt (`password for`, `[sudo]` or
/// `password:`, in any letter case).
pub fn contains_sudo_prompt(s: &str) -> (b: bool)
    ensures
        b == sudo_prompt_in(unicode_lowercase(s@)),
{
    let lower = chars_of(to_lowercase(s).as_str());
    contains_chars(&lower, &chars_of("password for")) || contains_chars(&lower, &chars_of("[sudo]"))
        || contains_chars(&lower, &chars_of("password:"))
}

/// Whether text, without trailing white space, ends with one of the prompts.
pub open spec fn ends_with_prompt_spec(s: Seq<char>, prompts: Seq<Seq<char>>) -> bool {
    exists|i: int| 0 <= i < prompts.len() && crate::text::ends_with(trim_end(s), #[trigger] prompts[i])
}

pub open spec fn str_views(p: Seq<&str>) -> Seq<Seq<char>> {
    p.map_values(|x: &str| x@)
}

pub fn trim_end_chars(v: &Vec<char>) -> (r: Vec<char>)
    ensures
        r@ == trim_end(v@),
{
    let mut hi = v.len();
    while hi > 0 && crate::text::is_whitespace(v[hi - 1])
        invariant
            hi <= v@.len(),
            forall|i: int| hi <= i < v@.len() ==> crate::text::is_white(#[trigger] v@[i]),
        decreases hi,
    {
        hi -= 1;
    }
    proof {
        crate::text::lemma_trim_end_take(v@, hi as int);
        let u = v@.take(hi as int);
        if u.len() > 0 {
            assert(u.last() == v@[hi - 1]);
        }
    }
    let r = crate::text::chars_range(v, 0, hi);
    assert(r@ =~= v@.take(hi as int));
    r
}

/// Whether a shell prompt ends the text.
pub fn ends_with_any_prompt(s: &str, prompts: &[&str]) -> (b: bool)
    ensures
        b == ends_with_prompt_spec(s@, str_views(prompts@)),
{
    let t = trim_end_chars(&chars_of(s));
    let mut i: usize = 0;
    while i < prompts.len()
        invariant
            i <= prompts@.len(),
            t@ == trim_end(s@),
            forall|j: int| 0 <= j < i ==> !crate::text::ends_with(t@, #[trigger] str_views(prompts@)[j]),
        decreases prompts@.len() - i,
    {
        let p = chars_of(prompts[i]);
        assert(p@ == str_views(prompts@)[i as int]);
        if crate::text::ends_with_chars(&t, &p) {
            return true;
        }
        i += 1;
    }
    false
}

// ------------------------------------------------------------ line endings
/// Bytes with each `\r\n` turned into `\n`.
pub open spec fn clean_newlines_spec(b: Seq<u8>) -> Seq<u8>
    decreases b.len(),
{
    if b.len() == 0 {
        b
    } else if b.len() >= 2 && b[0] == 13 && b[1] == 10 {
        seq![10u8] + clean_newlines_spec(b.skip(2))
    } else {
        seq![b[0]] + clean_newlines_spec(b.skip(1))
    }
}

/// The number of `\r\n` pairs that `clean_newlines` replaces, matched
/// left to right without overlap.
pub open spec fn crlf_pairs(b: Seq<u8>) -> nat
    decreases b.len(),
{
    if b.len() == 0 {
        0
    } else if b.len() >= 2 && b[0] == 13 && b[1] == 10 {
        1 + crlf_pairs(b.skip(2))
    } else {
        crlf_pairs(b.skip(1))
    }
}

/// Replacing `\r\n` by `\n` shortens the bytes by one per replaced pair,
/// and leaves bytes without `\r` unchanged.
pub proof fn law_clean_newlines_length(b: Seq<u8>)
    ensures
        clean_newlines_spec(b).len() + crlf_pairs(b) == b.len(),
        !b.contains(13) ==> clean_newlines_spec(b) == b,
    decreases b.len(),
{
    if b.len() > 0 {
        if b.len() >= 2 && b[0] == 13 && b[1] == 10 {
            law_clean_newlines_length(b.skip(2));
        } else {
            law_clean_newlines_length(b.skip(1));
            if !b.contains(13) {
                assert(!b.skip(1).contains(13)) by {
                    if b.skip(1).contains(13) {
                        let k = choose|k: int| 0 <= k < b.skip(1).len() && b.skip(1)[k] == 13;
                        assert(b[k + 1] == 13);
                    }
                }
                assert(seq![b[0]] + b.skip(1) =~= b);
            }
        }
    }
}

pub fn clean_newlines(bytes: Vec<u8>) -> (r: Vec<u8>)
    ensures
        r@ == clean_newlines_spec(bytes@),
{
    let mut out: Vec<u8> = Vec::new();
    let mut i: usize = 0;
    assert(bytes@.skip(0) =~= bytes@);
    while i < bytes.len()
        invariant
            i <= bytes@.len(),
            out@ + clean_newlines_spec(bytes@.skip(i as int)) == clean_newlines_spec(bytes@),
        decreases bytes@.len() - i,
    {
        let ghost rest = bytes@.skip(i as int);
        if bytes[i] == 13 && i + 1 < bytes.len() && bytes[i + 1] == 10 {
            out.push(10);
            proof {
                assert(rest.skip(2) =~= bytes@.skip(i + 2));
                assert(rest[0] == 13 && rest[1] == 10);
            }
            i += 2;
        } else {
            out.push(bytes[i]);
            proof {
                assert(rest.skip(1) =~= bytes@.skip(i + 1));
                assert(rest[0] == bytes@[i as int]);
            }
            i += 1;
        }
        assert(out@ + clean_newlines_spec(bytes@.skip(i as int)) =~= clean_newlines_spec(bytes@));
    }
    assert(bytes@.skip(i as int) =~= Seq::<u8>::empty());
    assert(out@ =~= clean_newlines_spec(bytes@));
    out
}

// ------------------------------------------------------------ negotiation
/// Where a subnegotiation that is open at `j` ends: just after `IAC SE`, or
/// at the end of the data.
pub open spec fn subnegotiation_end(d: Seq<u8>, j: int) -> int
    decreases d.len() - j,
{
    if j >= d.len() {
        j
    } else if d[j] == IAC && j + 1 < d.len() && d[j + 1] == SE {
        j + 2
    } else {
        subnegotiation_end(d, j + 1)
    }
}

/// The text bytes from position `i` on and the replies that negotiation
/// asks for: `WILL x` is answered `DONT x`, `DO x` is answered `WONT x`,
/// `WONT`/`DONT` get no answer, subnegotiations and other commands are
/// dropped, and an incomplete command at the end is dropped.
pub open spec fn telnet_parse(d: Seq<u8>, i: int) -> (Seq<u8>, Seq<u8>)
    decreases d.len() - i,
{
    if i < 0 || i >= d.len() {
        (Seq::empty(), Seq::empty())
    } else if d[i] == IAC {
        if i + 1 >= d.len() {
            (Seq::empty(), Seq::empty())
        } else {
            let cmd = d[i + 1];
            if cmd == WILL || cmd == WONT || cmd == DO || cmd == DONT {
                if i + 2 >= d.len() {
                    (Seq::empty(), Seq::empty())
                } else {
                    let opt = d[i + 2];
                    let resp: Seq<u8> = if cmd == WILL {
                        seq![IAC, DONT, opt]
                    } else if cmd == DO {
                        seq![IAC, WONT, opt]
                    } else {
                        Seq::empty()
                    };
                    let rest = telnet_parse(d, i + 3);
                    (rest.0, resp + rest.1)
                }
            } else if cmd == SB {
                proof {
                    lemma_subnegotiation_end(d, i + 2);
                }
                telnet_parse(d, subnegotiation_end(d, i + 2))
            } else {
                telnet_parse(d, i + 2)
            }
        }
    } else {
        let rest = telnet_parse(d, i + 1);
        (seq![d[i]] + rest.0, rest.1)
    }
}

pub proof fn lemma_subnegotiation_end(d: Seq<u8>, j: int)
    requires
        0 <= j,
    ensures
        j <= subnegotiation_end(d, j),
        subnegotiation_end(d, j) <= d.len() || subnegotiation_end(d, j) == j,
    decreases d.len() - j,
{
    if j < d.len() && !(d[j] == IAC && j + 1 < d.len() && d[j + 1] == SE) {
        lemma_subnegotiation_end(d, j + 1);
    }
}

fn find_subnegotiation_end(data: &[u8], j: usize) -> (r: usize)
    ensures
        r == subnegotiation_end(data@, j as int),
{
    let mut k = j;
    while k < data.len()
        invariant
            j <= k,
            subnegotiation_end(data@, j as int) == subnegotiation_end(data@, k as int),
        decreases data@.len() - k,
    {
        if data[k] == IAC && k + 1 < data.len() && data[k + 1] == SE {
            return k + 2;
        }
        k += 1;
    }
    k
}

/// Text bytes and negotiation replies of a chunk of Telnet data.
pub struct TelnetChunk {
    pub text: Vec<u8>,
    pub replies: Vec<u8>,
}

/// Separates the text of received Telnet data from its option negotiation,
/// and gives the replies that decline every option.
pub fn handle_telnet_options(data: &[u8]) -> (r: TelnetChunk)
    ensures
        (r.text@, r.replies@) == telnet_parse(data@, 0),
{
    let mut text: Vec<u8> = Vec::new();
    let mut replies: Vec<u8> = Vec::new();
    let mut i: usize = 0;
    let mut done = false;
    while i < data.len() && !done
        invariant
            (text@ + telnet_parse(data@, i as int).0, replies@ + telnet_parse(data@, i as int).1)
                == telnet_parse(data@, 0),
            done ==> telnet_parse(data@, i as int) == (Seq::<u8>::empty(), Seq::<u8>::empty()),
            i <= data@.len(),
        decreases data@.len() - i + (if done {
            0int
        } else {
            1int
        }),
    {
        let ghost ti = telnet_parse(data@, i as int);
        if data[i] == IAC {
            if i + 1 >= data.len() {
                done = true;
            } else {
                let command = data[i + 1];
                if command == WILL || command == WONT || command == DO || command == DONT {
                    if i + 2 >= data.len() {
                        done = true;
                    } else {
                        let option = data[i + 2];
                        let ghost before = replies@;
                        if command == WILL {
                            replies.push(IAC);
                            replies.push(DONT);
                            replies.push(option);
                        } else if command == DO {
                            replies.push(IAC);
                            replies.push(WONT);
                            replies.push(option);
                        }
                        proof {
                            let rest = telnet_parse(data@, i + 3);
                            assert(ti.1 == (replies@.skip(before.len() as int)) + rest.1) by {
                                assert(replies@.skip(before.len() as int) =~= (if command == WILL {
                                    seq![IAC, DONT, option]
                                } else if command == DO {
                                    seq![IAC, WONT, option]
                                } else {
                                    Seq::<u8>::empty()
                                }));
                            }
                            assert(replies@ =~= before + replies@.skip(before.len() as int));
                            assert(replies@ + rest.1 =~= before + ti.1);
                            assert(ti.0 == rest.0);
                        }
                        i += 3;
                    }
                } else if command == SB {
                    let j = find_subnegotiation_end(data, i + 2);
                    proof {
                        lemma_subnegotiation_end(data@, i + 2);
                    }
                    i = j;
                } else {
                    i += 2;
                }
            }
        } else {
            let ghost before = text@;
            text.push(data[i]);
            proof {
                let rest = telnet_parse(data@, i + 1);
                assert(text@ + rest.0 =~= before + ti.0);
            }
            i += 1;
        }
    }
    proof {
        if !done {
            assert(telnet_parse(data@, i as int).0 =~= Seq::<u8>::empty());
        }
    }
    assert(text@ =~= text@ + telnet_parse(data@, i as int).0);
    assert(replies@ =~= replies@ + telnet_parse(data@, i as int).1);
    TelnetChunk { text, replies }
}


/// Whether `replies` is a run of refusals: `IAC DONT x` or `IAC WONT x`.
pub open spec fn only_refusals(replies: Seq<u8>) -> bool {
    &&& replies.len() % 3 == 0
    &&& forall|k: int| 0 <= k < replies.len() / 3 ==> #[trigger] replies[3 * k] == IAC && (replies[3 * k + 1]
        == DONT || replies[3 * k + 1] == WONT)
}

proof fn lemma_refusals_prepend(resp: Seq<u8>, rest: Seq<u8>)
    requires
        resp.len() == 0 || (resp.len() == 3 && resp[0] == IAC && (resp[1] == DONT || resp[1] == WONT)),
        only_refusals(rest),
    ensures
        only_refusals(resp + rest),
{
    let all = resp + rest;
    if resp.len() == 3 {
        assert forall|k: int| 0 <= k < all.len() / 3 implies #[trigger] all[3 * k] == IAC && (all[3 * k + 1]
            == DONT || all[3 * k + 1] == WONT) by {
            if k > 0 {
                let k1 = k - 1;
                assert(all[3 * k] == rest[3 * k1]);
                assert(all[3 * k + 1] == rest[3 * k1 + 1]);
            }
        }
    } else {
        assert(all =~= rest);
    }
}

/// Negotiation never agrees to an option: the text it passes on holds no
/// `IAC` byte, and every reply it asks for is `IAC DONT x` or `IAC WONT x`.
pub proof fn law_telnet_declines_options(d: Seq<u8>, i: int)
    ensures
        !telnet_parse(d, i).0.contains(IAC),
        only_refusals(telnet_parse(d, i).1),
    decreases d.len() - i,
{
    if i < 0 || i >= d.len() {
        assert(telnet_parse(d, i).1 =~= Seq::<u8>::empty());
    } else if d[i] == IAC {
        if i + 1 >= d.len() {
            assert(telnet_parse(d, i).1 =~= Seq::<u8>::empty());
        } else {
            let cmd = d[i + 1];
            if cmd == WILL || cmd == WONT || cmd == DO || cmd == DONT {
                if i + 2 >= d.len() {
                    assert(telnet_parse(d, i).1 =~= Seq::<u8>::empty());
                } else {
                    law_telnet_declines_options(d, i + 3);
                    let opt = d[i + 2];
                    let resp: Seq<u8> = if cmd == WILL {
                        seq![IAC, DONT, opt]
                    } else if cmd == DO {
                        seq![IAC, WONT, opt]
                    } else {
                        Seq::empty()
                    };
                    lemma_refusals_prepend(resp, telnet_parse(d, i + 3).1);
                }
            } else if cmd == SB {
                lemma_subnegotiation_end(d, i + 2);
                law_telnet_declines_options(d, subnegotiation_end(d, i + 2));
            } else {
                law_telnet_declines_options(d, i + 2);
            }
        }
    } else {
        law_telnet_declines_options(d, i + 1);
        let rest = telnet_parse(d, i + 1);
        let t = seq![d[i]] + rest.0;
        assert(!t.contains(IAC)) by {
            if t.contains(IAC) {
                let k = choose|k: int| 0 <= k < t.len() && t[k] == IAC;
                if k > 0 {
                    assert(rest.0[k - 1] == IAC);
                }
            }
        }
    }
}

/// Whether `idx` picks, in increasing order and from position `i` on, the
/// positions of `d` whose bytes make up `t`.
pub open spec fn picks_bytes(t: Seq<u8>, d: Seq<u8>, i: int, idx: Seq<int>) -> bool {
    &&& idx.len() == t.len()
    &&& forall|k: int| 0 <= k < idx.len() ==> i <= #[trigger] idx[k] < d.len() && t[k] == d[idx[k]]
    &&& forall|k: int, m: int| 0 <= k < m < idx.len() ==> #[trigger] idx[k] < #[trigger] idx[m]
}

proof fn lemma_picks_from_later(t: Seq<u8>, d: Seq<u8>, i: int, j: int, idx: Seq<int>)
    requires
        i <= j,
        picks_bytes(t, d, j, idx),
    ensures
        picks_bytes(t, d, i, idx),
{
}

proof fn lemma_telnet_text_picks(d: Seq<u8>, i: int) -> (idx: Seq<int>)
    requires
        0 <= i,
    ensures
        picks_bytes(telnet_parse(d, i).0, d, i, idx),
    decreases d.len() - i,
{
    if i >= d.len() {
        Seq::empty()
    } else if d[i] == IAC {
        if i + 1 >= d.len() {
            Seq::empty()
        } else {
            let cmd = d[i + 1];
            if cmd == WILL || cmd == WONT || cmd == DO || cmd == DONT {
                if i + 2 >= d.len() {
                    Seq::empty()
                } else {
                    let idx = lemma_telnet_text_picks(d, i + 3);
                    lemma_picks_from_later(telnet_parse(d, i + 3).0, d, i, i + 3, idx);
                    idx
                }
            } else if cmd == SB {
                lemma_subnegotiation_end(d, i + 2);
                let e = subnegotiation_end(d, i + 2);
                let idx = lemma_telnet_text_picks(d, e);
                lemma_picks_from_later(telnet_parse(d, e).0, d, i, e, idx);
                idx
            } else {
                let idx = lemma_telnet_text_picks(d, i + 2);
                lemma_picks_from_later(telnet_parse(d, i + 2).0, d, i, i + 2, idx);
                idx
            }
        }
    } else {
        let rest = lemma_telnet_text_picks(d, i + 1);
        let t = telnet_parse(d, i).0;
        let idx = seq![i] + rest;
        assert forall|k: int| 0 <= k < idx.len() implies i <= #[trigger] idx[k] < d.len() && t[k] == d[idx[k]] by {
            if k > 0 {
                assert(idx[k] == rest[k - 1]);
            }
        }
        assert forall|k: int, m: int| 0 <= k < m < idx.len() implies #[trigger] idx[k] < #[trigger] idx[m] by {
            if k > 0 {
                assert(idx[k] == rest[k - 1]);
            }
            assert(idx[m] == rest[m - 1]);
        }
        idx
    }
}

/// The text that negotiation passes on is an in-order selection of the
/// received bytes.
pub proof fn law_telnet_text_is_subsequence(d: Seq<u8>)
    ensures
        exists|idx: Seq<int>| picks_bytes(telnet_parse(d, 0).0, d, 0, idx),
{
    let idx = lemma_telnet_text_picks(d, 0);
}

/// Data without an `IAC` byte passes through negotiation unchanged and
/// asks for no reply.
pub proof fn law_telnet_plain_data(d: Seq<u8>, i: int)
    requires
        0 <= i <= d.len(),
        forall|j: int| i <= j < d.len() ==> d[j] != IAC,
    ensures
        telnet_parse(d, i) == (d.skip(i), Seq::<u8>::empty()),
    decreases d.len() - i,
{
    if i < d.len() {
        law_telnet_plain_data(d, i + 1);
        assert(seq![d[i]] + d.skip(i + 1) =~= d.skip(i));
    } else {
        assert(d.skip(i) =~= Seq::<u8>::empty());
    }
}

// ------------------------------------------------------------ prompts
/// The last position at which `pat` occurs in `s` below `n`.
pub open spec fn last_occ_below(s: Seq<char>, pat: Seq<char>, n: int) -> Option<int>
    decreases n,
{
    if n <= 0 {
        None
    } else if crate::text::occurs_at(s, pat, n - 1) {
        Some(n - 1)
    } else {
        last_occ_below(s, pat, n - 1)
    }
}

/// The last position at which `pat` occurs in `s`, as `str::rfind` finds it.
pub open spec fn last_occurrence(s: Seq<char>, pat: Seq<char>) -> Option<int> {
    last_occ_below(s, pat, s.len() - pat.len() + 1)
}

/// The UTF-8 byte offset of character position `k` in `s`.
pub open spec fn byte_offset(s: Seq<char>, k: int) -> int {
    vstd::utf8::encode_utf8(s.take(k)).len() as int
}

/// The first prompt, from index `i` on, found in lower-cased text, with the
/// byte offset of its last occurrence.
pub open spec fn prompt_search_from(lower: Seq<char>, prompts: Seq<Seq<char>>, i: int) -> Option<(int, int)>
    decreases prompts.len() - i,
{
    if i < 0 || i >= prompts.len() {
        None
    } else {
        match last_occurrence(lower, unicode_lowercase(prompts[i])) {
            Some(k) => Some((i, byte_offset(lower, k))),
            None => prompt_search_from(lower, prompts, i + 1),
        }
    }
}

/// Which prompt (by its index in `prompts`) occurs in the received bytes,
/// ignoring letter case, and the byte offset of its last occurrence.
pub open spec fn prompt_search(buffer: Seq<u8>, prompts: Seq<Seq<char>>) -> Option<(int, int)> {
    prompt_search_from(unicode_lowercase(crate::text::utf8_lossy(buffer)), prompts, 0)
}

fn last_occurrence_exec(s: &Vec<char>, pat: &Vec<char>) -> (r: Option<usize>)
    ensures
        match r {
            Some(k) => last_occurrence(s@, pat@) == Some(k as int) && k <= s@.len(),
            None => last_occurrence(s@, pat@) is None,
        },
{
    if pat.len() > s.len() {
        return None;
    }
    if pat.len() == 0 {
        assert(s@.subrange(s@.len() as int, s@.len() as int) =~= pat@);
        assert(crate::text::occurs_at(s@, pat@, s@.len() as int));
        return Some(s.len());
    }
    let mut n: usize = s.len() - pat.len() + 1;
    while n > 0
        invariant
            n <= s@.len() - pat@.len() + 1,
            pat@.len() <= s@.len(),
            last_occurrence(s@, pat@) == last_occ_below(s@, pat@, n as int),
        decreases n,
    {
        if crate::text::matches_at(s, pat, n - 1) {
            return Some(n - 1);
        }
        n -= 1;
    }
    None
}

fn utf8_len_of_prefix(s: &Vec<char>, k: usize) -> (n: usize)
    requires
        k <= s@.len(),
    ensures
        n == byte_offset(s@, k as int),
{
    let prefix = crate::text::string_of_range(s, 0, k);
    assert(prefix@ =~= s@.take(k as int));
    let b = crate::text::utf8_bytes(prefix.as_str());
    b.len()
}

/// The prompt found in the buffer, if any: its index and byte offset.
pub fn find_prompt(buffer: &[u8], prompts: &[&str]) -> (r: Option<(usize, usize)>)
    ensures
        match r {
            Some((i, k)) => prompt_search(buffer@, str_views(prompts@)) == Some((i as int, k as int)),
            None => prompt_search(buffer@, str_views(prompts@)) is None,
        },
{
    let text = crate::text::decode_lossy(buffer);
    let lower = chars_of(to_lowercase(text.as_str()).as_str());
    let mut i: usize = 0;
    while i < prompts.len()
        invariant
            i <= prompts@.len(),
            lower@ == unicode_lowercase(crate::text::utf8_lossy(buffer@)),
            prompt_search(buffer@, str_views(prompts@)) == prompt_search_from(lower@, str_views(prompts@), i as int),
        decreases prompts@.len() - i,
    {
        let pat = chars_of(to_lowercase(prompts[i]).as_str());
        assert(str_views(prompts@)[i as int] == prompts@[i as int]@);
        match last_occurrence_exec(&lower, &pat) {
            Some(k) => {
                let off = utf8_len_of_prefix(&lower, k);
                return Some((i, off));
            },
            None => {},
        }
        i += 1;
    }
    None
}


// ------------------------------------------------------------ session
/// The prompts that ask for the user name.
pub open spec fn login_prompts() -> Seq<Seq<char>> {
    seq!["login:"@, "username:"@, "user:"@]
}

/// The prompt that asks for the password.
pub open spec fn password_prompts() -> Seq<Seq<char>> {
    seq!["password:"@]
}

/// The shell prompt endings, each one byte long.
pub open spec fn shell_prompts() -> Seq<Seq<char>> {
    seq!["$"@, "#"@, ">"@]
}

/// `text` followed by a carriage return and a line feed, as bytes.
pub open spec fn crlf_line(text: Seq<char>) -> Seq<u8> {
    vstd::utf8::encode_utf8(text + seq!['\r', '\n'])
}

/// Where the Telnet exchange stands.
#[derive(Debug, Clone, Copy, PartialEq, Eq, Structural)]
pub enum TelnetPhase {
    /// Waiting for the login prompt.
    Login,
    /// Waiting for the password prompt.
    Password,
    /// Waiting for the shell prompt.
    Shell,
    /// The command runs; its output is being read.
    Output,
    /// The shell prompt came back; the command is done.
    Finished,
}

/// A Telnet login and command run, driven by the bytes received.
pub struct TelnetSession {
    pub phase: TelnetPhase,
    /// Text received before the command was sent.
    pub buffer: Vec<u8>,
    /// Command output not yet passed on.
    pub output: Vec<u8>,
    pub username: String,
    pub password: String,
    pub command: String,
    pub is_sudo: bool,
    pub sudo_password_required: bool,
    pub sudo_prompt_handled: bool,
}

/// What polling a waiting session gives.
pub enum TelnetPoll {
    /// No prompt yet: more data must be read.
    Waiting,
    /// A prompt was answered: send these bytes.
    Send(Vec<u8>),
    /// The shell prompt lies past the end of the received bytes (the
    /// lower-cased text is longer than the bytes), which the exchange does
    /// not survive.
    PromptPastBuffer,
}

/// What one chunk of received data asks for.
pub struct TelnetStep {
    /// Option negotiation replies to send first.
    pub replies: Vec<u8>,
    /// A line to send after them (the sudo password).
    pub send: Option<Vec<u8>>,
    /// Output to pass on, in order.
    pub emits: Vec<Vec<u8>>,
}

pub open spec fn sends(r: TelnetPoll, bytes: Seq<u8>) -> bool {
    match r {
        TelnetPoll::Send(b) => b@ == bytes,
        _ => false,
    }
}

pub open spec fn bytes_views(v: Seq<Vec<u8>>) -> Seq<Seq<u8>> {
    v.map_values(|x: Vec<u8>| x@)
}

/// The last position of a `\n` or `\r` in `b` below `n`.
pub open spec fn last_break_below(b: Seq<u8>, n: int) -> Option<int>
    decreases n,
{
    if n <= 0 {
        None
    } else if b[n - 1] == 10 || b[n - 1] == 13 {
        Some(n - 1)
    } else {
        last_break_below(b, n - 1)
    }
}

/// A chunk passed on unless it is empty after line-ending cleanup.
pub open spec fn emit_if_nonempty(b: Seq<u8>) -> Seq<Seq<u8>> {
    let c = clean_newlines_spec(b);
    if c.len() > 0 {
        seq![c]
    } else {
        Seq::empty()
    }
}

/// Streaming of command output that has not ended: everything up to the
/// last line break is passed on, then everything but the last 32 bytes if
/// more than 256 remain.
pub open spec fn stream_output(out: Seq<u8>) -> (Seq<Seq<u8>>, Seq<u8>) {
    let (e1, rest) = match last_break_below(out, out.len() as int) {
        Some(p) => (emit_if_nonempty(out.take(p + 1)), out.skip(p + 1)),
        None => (Seq::empty(), out),
    };
    if rest.len() > 256 {
        (e1 + emit_if_nonempty(rest.take(rest.len() - 32)), rest.skip(rest.len() - 32))
    } else {
        (e1, rest)
    }
}

/// The output that remains when the shell prompt ends it: the prompt and
/// the white space after it cut off (if the output is that long), line
/// endings cleaned.
pub open spec fn final_output(out: Seq<u8>) -> Seq<Seq<u8>> {
    let s = crate::text::utf8_lossy(out);
    let prompt_len = 1 + (vstd::utf8::encode_utf8(s).len() - vstd::utf8::encode_utf8(trim_end(s)).len());
    let kept = if out.len() >= prompt_len {
        out.take(out.len() - prompt_len)
    } else {
        out
    };
    emit_if_nonempty(kept)
}

/// When command output ends with a shell prompt character and white space
/// after it, what is passed on is the output before the prompt character:
/// the prompt and the white space are cut, and nothing before them.
pub proof fn law_final_output_cuts_prompt(out: Seq<u8>, text: Seq<char>, prompt: char, white: Seq<char>)
    requires
        prompt == '$' || prompt == '#' || prompt == '>',
        forall|i: int| 0 <= i < white.len() ==> crate::text::is_white(#[trigger] white[i]),
        crate::text::utf8_lossy(out) == text + seq![prompt] + white,
        out == vstd::utf8::encode_utf8(text + seq![prompt] + white),
    ensures
        final_output(out) == emit_if_nonempty(vstd::utf8::encode_utf8(text)),
{
    let head = text + seq![prompt];
    let s = head + white;
    let k = head.len() as int;
    assert(s.take(k) =~= head);
    crate::text::lemma_trim_end_take(s, k);
    assert(!crate::text::is_white(head.last()));
    assert(trim_end(head) == head);
    assert(trim_end(s) == head);
    crate::text::lemma_encode_concat(head, white);
    crate::text::lemma_encode_concat(text, seq![prompt]);
    assert(vstd::utf8::is_ascii_chars(seq![prompt]));
    vstd::utf8::is_ascii_chars_encode_utf8(seq![prompt]);
    let et = vstd::utf8::encode_utf8(text);
    assert(out.take(out.len() - (1 + (vstd::utf8::encode_utf8(s).len() - vstd::utf8::encode_utf8(head).len())))
        =~= et);
}

impl TelnetSession {
    /// A session that logs in as `username` with `password` (empty when none
    /// is stored) and runs `command`.
    pub fn new(username: &str, password: &Option<String>, command: &str, sudo_password_required: bool) -> (s: TelnetSession)
        ensures
            s.phase == TelnetPhase::Login,
            s.buffer@.len() == 0,
            s.output@.len() == 0,
            s.username@ == username@,
            s.password@ == crate::ssh::password_or_empty(*password),
            s.command@ == command@,
            s.is_sudo == crate::ssh::is_sudo_spec(command@),
            s.sudo_password_required == sudo_password_required,
            !s.sudo_prompt_handled,
    {
        proof {
            reveal_strlit("");
        }
        let pw: String = match password {
            Some(p) => p.clone(),
            None => "".to_owned(),
        };
        assert(pw@ =~= crate::ssh::password_or_empty(*password));
        TelnetSession {
            phase: TelnetPhase::Login,
            buffer: Vec::new(),
            output: Vec::new(),
            username: username.to_owned(),
            password: pw,
            command: command.to_owned(),
            is_sudo: crate::ssh::is_sudo_command(command),
            sudo_password_required,
            sudo_prompt_handled: false,
        }
    }

    /// Answers the prompt that the session waits for, if it has arrived:
    /// the user name at a login prompt, the password at a password prompt,
    /// and the command at a shell prompt (after which output is read).
    pub fn poll(&mut self) -> (r: TelnetPoll)
        ensures
            final(self).username == old(self).username,
            final(self).password == old(self).password,
            final(self).command == old(self).command,
            final(self).is_sudo == old(self).is_sudo,
            final(self).sudo_password_required == old(self).sudo_password_required,
            final(self).sudo_prompt_handled == old(self).sudo_prompt_handled,
            final(self).output@ == old(self).output@,
            match old(self).phase {
                TelnetPhase::Login => match prompt_search(old(self).buffer@, login_prompts()) {
                    Some(_) => final(self).phase == TelnetPhase::Password && final(self).buffer@
                        == old(self).buffer@ && sends(r, crlf_line(old(self).username@)),
                    None => r is Waiting && final(self).phase == old(self).phase && final(self).buffer@ == old(self).buffer@,
                },
                TelnetPhase::Password => match prompt_search(old(self).buffer@, password_prompts()) {
                    Some(_) => final(self).phase == TelnetPhase::Shell && final(self).buffer@
                        == old(self).buffer@ && sends(r, crlf_line(old(self).password@)),
                    None => r is Waiting && final(self).phase == old(self).phase && final(self).buffer@ == old(self).buffer@,
                },
                TelnetPhase::Shell => match prompt_search(old(self).buffer@, shell_prompts()) {
                    Some((_, k)) => if k + 1 <= old(self).buffer@.len() {
                        final(self).phase == TelnetPhase::Output && final(self).buffer@
                            == old(self).buffer@.skip(k + 1) && sends(r, crlf_line(old(self).command@))
                    } else {
                        r is PromptPastBuffer && final(self).phase == old(self).phase && final(self).buffer@ == old(self).buffer@
                    },
                    None => r is Waiting && final(self).phase == old(self).phase && final(self).buffer@ == old(self).buffer@,
                },
                _ => r is Waiting && final(self).phase == old(self).phase && final(self).buffer@ == old(self).buffer@,
            },
    {
        proof {
            reveal_strlit("login:");
            reveal_strlit("username:");
            reveal_strlit("user:");
            reveal_strlit("password:");
            reveal_strlit("$");
            reveal_strlit("#");
            reveal_strlit(">");
        }
        match self.phase {
            TelnetPhase::Login => {
                let prompts: [&str; 3] = ["login:", "username:", "user:"];
                let ps = prompts.as_slice();
                assert(str_views(ps@) =~= login_prompts());
                match find_prompt(self.buffer.as_slice(), ps) {
                    Some(_) => {
                        self.phase = TelnetPhase::Password;
                        TelnetPoll::Send(crlf_bytes(self.username.as_str()))
                    },
                    None => TelnetPoll::Waiting,
                }
            },
            TelnetPhase::Password => {
                let prompts: [&str; 1] = ["password:"];
                let ps = prompts.as_slice();
                assert(str_views(ps@) =~= password_prompts());
                match find_prompt(self.buffer.as_slice(), ps) {
                    Some(_) => {
                        self.phase = TelnetPhase::Shell;
                        TelnetPoll::Send(crlf_bytes(self.password.as_str()))
                    },
                    None => TelnetPoll::Waiting,
                }
            },
            TelnetPhase::Shell => {
                let prompts: [&str; 3] = ["$", "#", ">"];
                let ps = prompts.as_slice();
                assert(str_views(ps@) =~= shell_prompts());
                match find_prompt(self.buffer.as_slice(), ps) {
                    Some((_, k)) => {
                        if k < self.buffer.len() {
                            let rest = skip_bytes(&self.buffer, k + 1);
                            self.buffer = rest;
                            self.phase = TelnetPhase::Output;
                            TelnetPoll::Send(crlf_bytes(self.command.as_str()))
                        } else {
                            TelnetPoll::PromptPastBuffer
                        }
                    },
                    None => TelnetPoll::Waiting,
                }
            },
            _ => TelnetPoll::Waiting,
        }
    }
}

fn crlf_bytes(text: &str) -> (b: Vec<u8>)
    ensures
        b@ == crlf_line(text@),
{
    let mut line = text.to_owned();
    line.push('\r');
    line.push('\n');
    assert(line@ =~= text@ + seq!['\r', '\n']);
    crate::text::utf8_bytes(line.as_str())
}

fn skip_bytes(v: &Vec<u8>, k: usize) -> (r: Vec<u8>)
    requires
        k <= v@.len(),
    ensures
        r@ == v@.skip(k as int),
{
    let mut r: Vec<u8> = Vec::new();
    let mut i = k;
    while i < v.len()
        invariant
            k <= i <= v@.len(),
            r@ == v@.subrange(k as int, i as int),
        decreases v@.len() - i,
    {
        r.push(v[i]);
        i += 1;
        assert(r@ =~= v@.subrange(k as int, i as int));
    }
    assert(r@ =~= v@.skip(k as int));
    r
}

fn take_bytes(v: &Vec<u8>, k: usize) -> (r: Vec<u8>)
    requires
        k <= v@.len(),
    ensures
        r@ == v@.take(k as int),
{
    let mut r: Vec<u8> = Vec::new();
    let mut i: usize = 0;
    while i < k
        invariant
            i <= k <= v@.len(),
            r@ == v@.take(i as int),
        decreases k - i,
    {
        r.push(v[i]);
        i += 1;
        assert(r@ =~= v@.take(i as int));
    }
    r
}


fn last_break(b: &Vec<u8>) -> (r: Option<usize>)
    ensures
        match r {
            Some(p) => last_break_below(b@, b@.len() as int) == Some(p as int) && p < b@.len(),
            None => last_break_below(b@, b@.len() as int) is None,
        },
{
    let mut n = b.len();
    while n > 0
        invariant
            n <= b@.len(),
            last_break_below(b@, b@.len() as int) == last_break_below(b@, n as int),
        decreases n,
    {
        if b[n - 1] == 10 || b[n - 1] == 13 {
            return Some(n - 1);
        }
        n -= 1;
    }
    None
}

fn push_if_nonempty(emits: &mut Vec<Vec<u8>>, part: Vec<u8>)
    ensures
        bytes_views(final(emits)@) == bytes_views(old(emits)@) + emit_if_nonempty(part@),
{
    let cleaned = clean_newlines(part);
    let ghost before = emits@;
    if cleaned.len() > 0 {
        emits.push(cleaned);
        assert(bytes_views(emits@) =~= bytes_views(before) + emit_if_nonempty(part@));
    } else {
        assert(bytes_views(emits@) =~= bytes_views(before) + emit_if_nonempty(part@));
    }
}

impl TelnetSession {
    /// Handles received data. Negotiation is always answered. Before the
    /// command runs, the text is kept for prompt matching. While it runs, a
    /// sudo prompt (for a sudo command on a device that needs a sudo
    /// password, once) is answered with the password and the output so far
    /// dropped; a shell prompt at the end finishes the command and passes
    /// on the output before it; otherwise the output is streamed.
    pub fn receive(&mut self, data: &[u8]) -> (r: TelnetStep)
        ensures
            r.replies@ == telnet_parse(data@, 0).1,
            final(self).username == old(self).username,
            final(self).password == old(self).password,
            final(self).command == old(self).command,
            final(self).is_sudo == old(self).is_sudo,
            final(self).sudo_password_required == old(self).sudo_password_required,
            ({
                let text = telnet_parse(data@, 0).0;
                match old(self).phase {
                    TelnetPhase::Output => {
                        let out = old(self).output@ + text;
                        let s = crate::text::utf8_lossy(out);
                        final(self).buffer@ == old(self).buffer@ && if old(self).is_sudo
                            && !old(self).sudo_prompt_handled && old(self).sudo_password_required
                            && sudo_prompt_in(unicode_lowercase(s)) {
                            &&& r.send matches Some(b) && b@ == crlf_line(old(self).password@)
                            &&& final(self).sudo_prompt_handled
                            &&& final(self).output@.len() == 0
                            &&& r.emits@.len() == 0
                            &&& final(self).phase == TelnetPhase::Output
                        } else if ends_with_prompt_spec(s, shell_prompts()) {
                            &&& r.send is None
                            &&& bytes_views(r.emits@) == final_output(out)
                            &&& final(self).phase == TelnetPhase::Finished
                            &&& final(self).output@.len() == 0
                            &&& final(self).sudo_prompt_handled == old(self).sudo_prompt_handled
                        } else {
                            &&& r.send is None
                            &&& (bytes_views(r.emits@), final(self).output@) == stream_output(out)
                            &&& final(self).phase == TelnetPhase::Output
                            &&& final(self).sudo_prompt_handled == old(self).sudo_prompt_handled
                        }
                    },
                    TelnetPhase::Finished => {
                        &&& r.send is None
                        &&& r.emits@.len() == 0
                        &&& final(self).phase == old(self).phase
                        &&& final(self).buffer@ == old(self).buffer@
                        &&& final(self).output@ == old(self).output@
                        &&& final(self).sudo_prompt_handled == old(self).sudo_prompt_handled
                    },
                    _ => {
                        &&& r.send is None
                        &&& r.emits@.len() == 0
                        &&& final(self).phase == old(self).phase
                        &&& final(self).buffer@ == old(self).buffer@ + text
                        &&& final(self).output@ == old(self).output@
                        &&& final(self).sudo_prompt_handled == old(self).sudo_prompt_handled
                    },
                }
            }),
    {
        let chunk = handle_telnet_options(data);
        let replies = chunk.replies;
        let text = chunk.text;
        let mut emits: Vec<Vec<u8>> = Vec::new();
        match self.phase {
            TelnetPhase::Finished => {
                return TelnetStep { replies, send: None, emits };
            },
            TelnetPhase::Output => {},
            _ => {
                crate::ssh::append_bytes(&mut self.buffer, text.as_slice());
                return TelnetStep { replies, send: None, emits };
            },
        }
        crate::ssh::append_bytes(&mut self.output, text.as_slice());
        let s = crate::text::decode_lossy(self.output.as_slice());
        if self.is_sudo && !self.sudo_prompt_handled && self.sudo_password_required
            && contains_sudo_prompt(s.as_str()) {
            let line = crlf_bytes(self.password.as_str());
            self.sudo_prompt_handled = true;
            self.output = Vec::new();
            return TelnetStep { replies, send: Some(line), emits };
        }
        proof {
            reveal_strlit("$");
            reveal_strlit("#");
            reveal_strlit(">");
        }
        let prompts: [&str; 3] = ["$", "#", ">"];
        let ps = prompts.as_slice();
        assert(str_views(ps@) =~= shell_prompts());
        if ends_with_any_prompt(s.as_str(), ps) {
            let sv = chars_of(s.as_str());
            let trimmed = trim_end_chars(&sv);
            let s_len = crate::text::utf8_bytes(s.as_str()).len();
            let t_len = crate::text::utf8_bytes(crate::text::string_of(&trimmed).as_str()).len();
            proof {
                crate::text::lemma_encode_trim_end_len(s@);
            }
            let d = s_len - t_len;
            let mut out: Vec<u8> = Vec::new();
            std::mem::swap(&mut out, &mut self.output);
            let kept = if d < out.len() {
                take_bytes(&out, out.len() - 1 - d)
            } else {
                out
            };
            push_if_nonempty(&mut emits, kept);
            assert(bytes_views(emits@) =~= final_output(old(self).output@ + text@));
            self.phase = TelnetPhase::Finished;
            return TelnetStep { replies, send: None, emits };
        }
        let mut out: Vec<u8> = Vec::new();
        std::mem::swap(&mut out, &mut self.output);
        let out_len = out.len();
        let rest = match last_break(&out) {
            Some(p) => {
                assert(p < out_len);
                push_if_nonempty(&mut emits, take_bytes(&out, p + 1));
                skip_bytes(&out, p + 1)
            },
            None => out,
        };
        let rest2 = if rest.len() > 256 {
            push_if_nonempty(&mut emits, take_bytes(&rest, rest.len() - 32));
            skip_bytes(&rest, rest.len() - 32)
        } else {
            rest
        };
        assert(bytes_views(emits@) =~= stream_output(old(self).output@ + text@).0);
        self.output = rest2;
        TelnetStep { replies, send: None, emits }
    }
}

/// The outcome of a Telnet connection test from the exit status of the test
/// command: success only for status 0.
pub fn test_connection(exit_status: Result<i32, TelepromptError>) -> (r: Result<(), TelepromptError>)
    ensures
        match exit_status {
            Err(e) => r == Err::<(), TelepromptError>(e),
            Ok(0i32) => r is Ok,
            Ok(_) => match r {
                Err(TelepromptError::Other(m)) => m@ == "Failed to execute test command over Telnet"@,
                _ => false,
            },
        },
{
    match exit_status {
        Err(e) => Err(e),
        Ok(code) => {
            if code == 0 {
                Ok(())
            } else {
                Err(TelepromptError::Other("Failed to execute test command over Telnet".to_owned()))
            }
        },
    }
}

} // verus!
