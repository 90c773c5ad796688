//! The decisions of an SSH session: sudo prompt handling, host key checks,
//! the order of authentication methods and capability probing.
use vstd::prelude::*;

use crate::credentials::{ConnectionType, Device, HostKeyPolicy};
use crate::error::TelepromptError;
use crate::text::{
    chars_of, contains_chars, contains_seq, count_chars_matches, count_matches, lines, lines_of,
    to_lowercase, trim, unicode_lowercase, views,
};

verus! {

/// Whether lower-cased output holds a password prompt.
pub open spec fn sudo_prompt_in(lower: Seq<char>) -> bool {
    contains_seq(lower, "password for"@) || contains_seq(lower, "[sudo]"@) || contains_seq(
        lower,
        "password:"@,
    )
}

/// The number of prompt markers in lower-cased output.
pub open spec fn sudo_prompt_count(lower: Seq<char>) -> nat {
    count_matches(lower, "password for"@) + count_matches(lower, "[sudo]"@) + count_matches(
        lower,
        "password:"@,
    )
}

/// Whether output shows a sudo password prompt (`password for`, `[sudo]`
/// or `password:`, in any letter case).
pub fn contains_sudo_prompt(stdout: &str) -> (b: bool)
    ensures
        b == sudo_prompt_in(unicode_lowercase(stdout@)),
{
    let lower = chars_of(to_lowercase(stdout).as_str());
    contains_chars(&lower, &chars_of("password for")) || contains_chars(&lower, &chars_of("[sudo]"))
        || contains_chars(&lower, &chars_of("password:"))
}

/// How many prompt markers output holds, each marker counted separately.
pub fn count_sudo_prompts(stdout: &str) -> (n: usize)
    ensures
        n == sudo_prompt_count(unicode_lowercase(stdout@)),
{
    let lower = chars_of(to_lowercase(stdout).as_str());
    let p1 = chars_of("password for");
    let p2 = chars_of("[sudo]");
    let p3 = chars_of("password:");
    proof {
        reveal_strlit("password for");
        reveal_strlit("[sudo]");
        reveal_strlit("password:");
        crate::text::lemma_count_from_bound(lower@, p1@, 0);
        crate::text::lemma_count_from_bound(lower@, p2@, 0);
        crate::text::lemma_count_from_bound(lower@, p3@, 0);
    }
    let a = count_chars_matches(&lower, &p1);
    let b = count_chars_matches(&lower, &p2);
    let c = count_chars_matches(&lower, &p3);
    let total = lower.len();
    assert(a * 12 <= total && b * 6 <= total && c * 9 <= total);
    assert(a + b + c <= total) by (nonlinear_arith)
        requires
            a * 12 <= total,
            b * 6 <= total,
            c * 9 <= total,
    ;
    a + b + c
}

/// The prompt count of lower-cased output is the sum of the counts of its
/// three markers, and it is positive exactly when a prompt is detected: for
/// any output, `count_sudo_prompts` is above zero if and only if
/// `contains_sudo_prompt` holds.
pub proof fn law_prompt_count_positive_iff_detected(stdout: Seq<char>)
    ensures
        sudo_prompt_count(unicode_lowercase(stdout)) == count_matches(unicode_lowercase(stdout), "password for"@)
            + count_matches(unicode_lowercase(stdout), "[sudo]"@) + count_matches(
            unicode_lowercase(stdout),
            "password:"@,
        ),
        sudo_prompt_count(unicode_lowercase(stdout)) > 0 <==> sudo_prompt_in(unicode_lowercase(stdout)),
{
    let lower = unicode_lowercase(stdout);
    reveal_strlit("password for");
    reveal_strlit("[sudo]");
    reveal_strlit("password:");
    crate::text::lemma_count_positive_iff_contains(lower, "password for"@);
    crate::text::lemma_count_positive_iff_contains(lower, "[sudo]"@);
    crate::text::lemma_count_positive_iff_contains(lower, "password:"@);
}

/// A line that is a sudo prompt.
pub open spec fn is_prompt_line(l: Seq<char>) -> bool {
    sudo_prompt_in(unicode_lowercase(l))
}

/// A line that echoes the password, or is empty, when a password is set.
pub open spec fn is_password_echo(l: Seq<char>, password: Seq<char>) -> bool {
    password.len() > 0 && (trim(l) == trim(password) || trim(l).len() == 0)
}

pub open spec fn clean_step(st: (Seq<Seq<char>>, bool), l: Seq<char>, password: Seq<char>) -> (
    Seq<Seq<char>>,
    bool,
) {
    if is_prompt_line(l) {
        st
    } else if !st.1 && is_password_echo(l, password) {
        st
    } else {
        (st.0.push(l), true)
    }
}

pub open spec fn clean_fold(ls: Seq<Seq<char>>, password: Seq<char>) -> (Seq<Seq<char>>, bool)
    decreases ls.len(),
{
    if ls.len() == 0 {
        (Seq::empty(), false)
    } else {
        clean_step(clean_fold(ls.drop_last(), password), ls.last(), password)
    }
}

/// Output with sudo prompt lines dropped, and with the password echo and
/// empty lines before the first kept line dropped, re-joined with `\n`.
pub open spec fn clean_sudo_spec(stdout: Seq<u8>, password: Seq<char>) -> Seq<u8> {
    vstd::utf8::encode_utf8(
        crate::text::join_lines(
            clean_fold(lines(crate::text::utf8_lossy(stdout)), password).0,
        ),
    )
}

/// Whether `a` is an in-order subsequence of `b`: `idx` picks, in
/// increasing order, the positions of `b` that `a` holds.
pub open spec fn picks(a: Seq<Seq<char>>, b: Seq<Seq<char>>, idx: Seq<int>) -> bool {
    &&& idx.len() == a.len()
    &&& forall|k: int| 0 <= k < idx.len() ==> 0 <= #[trigger] idx[k] < b.len() && a[k] == b[idx[k]]
    &&& forall|k: int, m: int| 0 <= k < m < idx.len() ==> #[trigger] idx[k] < #[trigger] idx[m]
}

proof fn lemma_clean_fold_picks(ls: Seq<Seq<char>>, password: Seq<char>) -> (idx: Seq<int>)
    ensures
        picks(clean_fold(ls, password).0, ls, idx),
        forall|k: int| 0 <= k < clean_fold(ls, password).0.len() ==> !is_prompt_line(
            #[trigger] clean_fold(ls, password).0[k],
        ),
    decreases ls.len(),
{
    if ls.len() == 0 {
        Seq::empty()
    } else {
        let d = ls.drop_last();
        let prev = lemma_clean_fold_picks(d, password);
        let before = clean_fold(d, password).0;
        let now = clean_fold(ls, password).0;
        if now == before {
            assert forall|k: int| 0 <= k < prev.len() implies 0 <= #[trigger] prev[k] < ls.len() && now[k]
                == ls[prev[k]] by {
                assert(d[prev[k]] == ls[prev[k]]);
            }
            prev
        } else {
            let idx = prev.push(ls.len() - 1);
            assert(now == before.push(ls.last()));
            assert forall|k: int| 0 <= k < idx.len() implies 0 <= #[trigger] idx[k] < ls.len() && now[k]
                == ls[idx[k]] by {
                if k < prev.len() {
                    assert(d[prev[k]] == ls[prev[k]]);
                }
            }
            assert forall|k: int| 0 <= k < now.len() implies !is_prompt_line(#[trigger] now[k]) by {
                if k < before.len() {
                    assert(now[k] == before[k]);
                }
            }
            idx
        }
    }
}

/// The lines that are not sudo prompts.
pub open spec fn not_prompt_line() -> spec_fn(Seq<char>) -> bool {
    |l: Seq<char>| !is_prompt_line(l)
}

proof fn lemma_clean_fold_no_password(ls: Seq<Seq<char>>)
    ensures
        clean_fold(ls, Seq::empty()).0 == ls.filter(not_prompt_line()),
    decreases ls.len(),
{
    if ls.len() > 0 {
        lemma_clean_fold_no_password(ls.drop_last());
        assert(!is_password_echo(ls.last(), Seq::empty()));
        reveal(Seq::filter);
        assert(ls.filter(not_prompt_line()) == (if not_prompt_line()(ls.last()) {
            ls.drop_last().filter(not_prompt_line()).push(ls.last())
        } else {
            ls.drop_last().filter(not_prompt_line())
        }));
    }
}

/// A line that sudo cleaning drops while no output line has been kept yet:
/// a sudo prompt, or the password's echo (or a blank line) when a password
/// is set.
pub open spec fn dropped_before_output(l: Seq<char>, password: Seq<char>) -> bool {
    is_prompt_line(l) || is_password_echo(l, password)
}

/// Whether `p` is where output starts in `ls`: every line before it is
/// dropped, and the line at `p`, if any, is not.
pub open spec fn output_starts_at(ls: Seq<Seq<char>>, password: Seq<char>, p: int) -> bool {
    &&& 0 <= p <= ls.len()
    &&& forall|j: int| 0 <= j < p ==> dropped_before_output(#[trigger] ls[j], password)
    &&& p < ls.len() ==> !dropped_before_output(ls[p], password)
}

proof fn lemma_clean_fold_prefix(ls: Seq<Seq<char>>, password: Seq<char>) -> (p: int)
    ensures
        output_starts_at(ls, password, p),
        clean_fold(ls, password).0 == ls.skip(p).filter(not_prompt_line()),
        clean_fold(ls, password).1 <==> p < ls.len(),
    decreases ls.len(),
{
    reveal(Seq::filter);
    if ls.len() == 0 {
        assert(ls.skip(0) =~= ls);
        0
    } else {
        let d = ls.drop_last();
        let x = ls.last();
        let q = lemma_clean_fold_prefix(d, password);
        assert forall|j: int| 0 <= j < q implies dropped_before_output(#[trigger] ls[j], password) by {
            assert(d[j] == ls[j]);
            assert(dropped_before_output(d[j], password));
        }
        if q < d.len() {
            assert(ls.skip(q).drop_last() =~= d.skip(q));
            assert(ls.skip(q).last() == x);
            assert(d[q] == ls[q]);
            q
        } else {
            assert(d.skip(q) =~= Seq::<Seq<char>>::empty());
            assert(clean_fold(d, password).0 =~= Seq::<Seq<char>>::empty());
            if dropped_before_output(x, password) {
                assert(ls.skip(ls.len() as int) =~= Seq::<Seq<char>>::empty());
                assert forall|j: int| 0 <= j < ls.len() implies dropped_before_output(#[trigger] ls[j], password) by {
                    if j < d.len() {
                        assert(d[j] == ls[j]);
                    }
                }
                ls.len() as int
            } else {
                assert(ls.skip(q) =~= seq![x]);
                assert(seq![x].drop_last() =~= Seq::<Seq<char>>::empty());
                assert(Seq::<Seq<char>>::empty().push(x) =~= seq![x]);
                assert(ls[q] == x);
                q
            }
        }
    }
}

/// Sudo cleaning drops only a leading run of prompt and password-echo (or
/// blank) lines: from the first line that is neither on, every line that is
/// not a sudo prompt is kept, in order, blank lines and repeats of the
/// password included.
pub proof fn law_clean_sudo_drops_only_a_prefix(ls: Seq<Seq<char>>, password: Seq<char>)
    ensures
        exists|p: int| #[trigger] output_starts_at(ls, password, p) && clean_fold(ls, password).0 == ls.skip(
            p,
        ).filter(not_prompt_line()),
{
    let p = lemma_clean_fold_prefix(ls, password);
    assert(output_starts_at(ls, password, p));
}

/// Sudo cleaning keeps an in-order selection of the output's lines, none of
/// them a prompt line; with no password it keeps exactly the lines that are
/// not prompts.
pub proof fn law_clean_sudo_keeps_lines(ls: Seq<Seq<char>>, password: Seq<char>)
    ensures
        exists|idx: Seq<int>| picks(clean_fold(ls, password).0, ls, idx),
        forall|k: int| 0 <= k < clean_fold(ls, password).0.len() ==> !is_prompt_line(
            #[trigger] clean_fold(ls, password).0[k],
        ),
        password.len() == 0 ==> clean_fold(ls, password).0 == ls.filter(not_prompt_line()),
{
    let idx = lemma_clean_fold_picks(ls, password);
    if password.len() == 0 {
        assert(password == Seq::<char>::empty());
        lemma_clean_fold_no_password(ls);
    }
}

fn is_password_echo_line(l: &Vec<char>, password: &Vec<char>) -> (b: bool)
    ensures
        b == is_password_echo(l@, password@),
{
    if password.len() == 0 {
        return false;
    }
    let (llo, lhi) = crate::text::trim_bounds(l, 0, l.len());
    let (plo, phi) = crate::text::trim_bounds(password, 0, password.len());
    assert(l@.subrange(0, l@.len() as int) =~= l@);
    assert(password@.subrange(0, password@.len() as int) =~= password@);
    let tl = crate::text::chars_range(l, llo, lhi);
    let tp = crate::text::chars_range(password, plo, phi);
    let same = crate::text::chars_eq_str(&tl, crate::text::string_of(&tp).as_str());
    same || tl.len() == 0
}

/// Removes the sudo prompt and password echo from captured output.
pub fn clean_sudo_output(stdout: Vec<u8>, password: &str) -> (r: Vec<u8>)
    ensures
        r@ == clean_sudo_spec(stdout@, password@),
        exists|p: int|
            #[trigger] output_starts_at(lines(crate::text::utf8_lossy(stdout@)), password@, p) && r@
                == vstd::utf8::encode_utf8(
                crate::text::join_lines(
                    lines(crate::text::utf8_lossy(stdout@)).skip(p).filter(not_prompt_line()),
                ),
            ),
{
    proof {
        let p = lemma_clean_fold_prefix(lines(crate::text::utf8_lossy(stdout@)), password@);
        assert(output_starts_at(lines(crate::text::utf8_lossy(stdout@)), password@, p));
    }
    let text = crate::text::decode_lossy(stdout.as_slice());
    let ls = lines_of(&chars_of(text.as_str()));
    let ghost lv = views(ls@);
    let pw = chars_of(password);
    let mut kept: Vec<Vec<char>> = Vec::new();
    let mut passed = false;
    let mut i: usize = 0;
    while i < ls.len()
        invariant
            i <= ls@.len(),
            lv == views(ls@),
            pw@ == password@,
            (views(kept@), passed) == clean_fold(lv.take(i as int), password@),
        decreases ls@.len() - i,
    {
        proof {
            assert(lv.take(i + 1).drop_last() =~= lv.take(i as int));
            assert(lv[i as int] == ls@[i as int]@);
        }
        let line_text = crate::text::string_of(&ls[i]);
        let is_prompt = contains_sudo_prompt(line_text.as_str());
        if !is_prompt {
            if !(!passed && is_password_echo_line(&ls[i], &pw)) {
                let ghost before = kept@;
                kept.push(ls[i].clone());
                assert(views(kept@) =~= views(before).push(lv[i as int]));
                passed = true;
            }
        }
        i += 1;
    }
    assert(lv.take(ls@.len() as int) =~= lv);
    let joined = crate::text::join_line_chars(&kept);
    crate::text::utf8_bytes(joined.as_str())
}


// ------------------------------------------------------------ addresses
/// `host:port`, the address a device is reached at.
pub open spec fn address_spec(host: Seq<char>, port: u16) -> Seq<char> {
    host + seq![':'] + crate::text::decimal(port as nat)
}

pub fn device_address(host: &str, port: u16) -> (r: String)
    ensures
        r@ == address_spec(host@, port),
{
    let mut r = host.to_owned();
    r.push(':');
    crate::text::push_decimal(&mut r, port as u64);
    r
}

/// The name a host is recorded under in known_hosts: `[host]:port` for a
/// port other than 22, the bare host otherwise.
pub open spec fn known_host_name_spec(host: Seq<char>, port: u16) -> Seq<char> {
    if port != 22 {
        seq!['['] + host + seq![']', ':'] + crate::text::decimal(port as nat)
    } else {
        host
    }
}

pub fn known_host_name(host: &str, port: u16) -> (r: String)
    ensures
        r@ == known_host_name_spec(host@, port),
{
    if port != 22 {
        let mut r = String::new();
        r.push('[');
        let ghost a = r@;
        let mut r = r.concat(host);
        r.push(']');
        r.push(':');
        crate::text::push_decimal(&mut r, port as u64);
        assert(r@ =~= known_host_name_spec(host@, port));
        r
    } else {
        host.to_owned()
    }
}

// ------------------------------------------------------------ host keys
/// What checking a host key against known_hosts found.
#[derive(Debug, Clone, Copy, PartialEq, Eq, Structural)]
pub enum HostKeyCheck {
    Match,
    NotFound,
    Mismatch,
    Failure,
}

/// What to do about a checked host key.
#[derive(Debug)]
pub enum HostKeyOutcome {
    /// Continue with the connection.
    Accepted,
    /// Record the host key in known_hosts, then continue.
    Record,
    /// Refuse the connection.
    Rejected(TelepromptError),
}

/// Whether a policy checks host keys at all.
pub fn host_key_check_required(policy: HostKeyPolicy) -> (b: bool)
    ensures
        b == (policy != HostKeyPolicy::Off),
{
    policy != HostKeyPolicy::Off
}

pub open spec fn rejected_with(o: HostKeyOutcome, addr: Seq<char>, reason: Seq<char>) -> bool {
    match o {
        HostKeyOutcome::Rejected(TelepromptError::HostKeyRejected(a, m)) => a@ == addr && m@ == reason,
        _ => false,
    }
}

/// The outcome of a host key check under a policy: a match is accepted; an
/// unknown host is recorded under AcceptNew and rejected otherwise; a
/// mismatch or a failed check is rejected. With checks off, all is accepted.
pub fn host_key_outcome(policy: HostKeyPolicy, check: HostKeyCheck, addr: &str) -> (r: HostKeyOutcome)
    ensures
        policy == HostKeyPolicy::Off ==> r is Accepted,
        policy != HostKeyPolicy::Off ==> match check {
            HostKeyCheck::Match => r is Accepted,
            HostKeyCheck::NotFound => if policy == HostKeyPolicy::AcceptNew {
                r is Record
            } else {
                rejected_with(r, addr@, "Host not in known_hosts (policy: Strict)"@)
            },
            HostKeyCheck::Mismatch => rejected_with(r, addr@, "Host key mismatch — possible MITM attack!"@),
            HostKeyCheck::Failure => rejected_with(r, addr@, "Host key check failed"@),
        },
{
    if policy == HostKeyPolicy::Off {
        return HostKeyOutcome::Accepted;
    }
    match check {
        HostKeyCheck::Match => HostKeyOutcome::Accepted,
        HostKeyCheck::NotFound => {
            if policy == HostKeyPolicy::AcceptNew {
                HostKeyOutcome::Record
            } else {
                HostKeyOutcome::Rejected(
                    TelepromptError::HostKeyRejected(
                        addr.to_owned(),
                        "Host not in known_hosts (policy: Strict)".to_owned(),
                    ),
                )
            }
        },
        HostKeyCheck::Mismatch => HostKeyOutcome::Rejected(
            TelepromptError::HostKeyRejected(
                addr.to_owned(),
                "Host key mismatch — possible MITM attack!".to_owned(),
            ),
        ),
        HostKeyCheck::Failure => HostKeyOutcome::Rejected(
            TelepromptError::HostKeyRejected(addr.to_owned(), "Host key check failed".to_owned()),
        ),
    }
}

// ------------------------------------------------------------ authentication
/// An SSH authentication method.
#[derive(Debug, Clone, Copy, PartialEq, Eq, Structural)]
pub enum AuthMethod {
    PublicKey,
    Password,
    KeyboardInteractive,
}

/// The next thing authentication does.
#[derive(Debug)]
pub enum AuthStep {
    /// Try this method.
    Try(AuthMethod),
    /// The session is authenticated.
    Authenticated,
    /// Authentication has failed.
    Failed(TelepromptError),
}

pub open spec fn is_auth_failed(s: AuthStep, user: Seq<char>, addr: Seq<char>) -> bool {
    match s {
        AuthStep::Failed(TelepromptError::AuthFailed(u, a)) => u@ == user && a@ == addr,
        _ => false,
    }
}

pub open spec fn is_other_failure(s: AuthStep, msg: Seq<char>) -> bool {
    match s {
        AuthStep::Failed(TelepromptError::Other(m)) => m@ == msg,
        _ => false,
    }
}

/// Password authentication when a password is stored; a failure otherwise.
pub open spec fn password_start_ok(d: Device, s: AuthStep) -> bool {
    if d.password is Some {
        s == AuthStep::Try(AuthMethod::Password)
    } else {
        is_other_failure(s, "No credentials (password or valid key) provided for SSH auth"@)
    }
}

fn password_start(device: &Device) -> (s: AuthStep)
    ensures
        password_start_ok(*device, s),
{
    if device.password.is_some() {
        AuthStep::Try(AuthMethod::Password)
    } else {
        AuthStep::Failed(
            TelepromptError::Other(
                "No credentials (password or valid key) provided for SSH auth".to_owned(),
            ),
        )
    }
}

/// The first authentication step: the key file when one is set and exists;
/// a missing key file fails unless a password is stored; then the password.
pub fn first_auth_step(device: &Device, key_file_exists: bool) -> (s: AuthStep)
    ensures
        match device.key_path {
            Some(kp) => if key_file_exists {
                s == AuthStep::Try(AuthMethod::PublicKey)
            } else if device.password is None {
                is_other_failure(s, "SSH key file not found at: "@ + kp@)
            } else {
                s == AuthStep::Try(AuthMethod::Password)
            },
            None => password_start_ok(*device, s),
        },
{
    match &device.key_path {
        Some(kp) => {
            if key_file_exists {
                AuthStep::Try(AuthMethod::PublicKey)
            } else if device.password.is_none() {
                let msg = "SSH key file not found at: ".to_owned().concat(kp.as_str());
                AuthStep::Failed(TelepromptError::Other(msg))
            } else {
                AuthStep::Try(AuthMethod::Password)
            }
        },
        None => password_start(device),
    }
}

/// The step after trying a method: success authenticates; a failed key
/// falls back to the password when one is stored; a failed password falls
/// back to keyboard-interactive; its failure, or a failed key without a
/// password, fails authentication for the user at the address.
pub fn next_auth_step(device: &Device, tried: AuthMethod, succeeded: bool, addr: &str) -> (s: AuthStep)
    ensures
        succeeded ==> s == AuthStep::Authenticated,
        !succeeded ==> match tried {
            AuthMethod::PublicKey => if device.password is None {
                is_auth_failed(s, device.username@, addr@)
            } else {
                s == AuthStep::Try(AuthMethod::Password)
            },
            AuthMethod::Password => s == AuthStep::Try(AuthMethod::KeyboardInteractive),
            AuthMethod::KeyboardInteractive => is_auth_failed(s, device.username@, addr@),
        },
{
    if succeeded {
        return AuthStep::Authenticated;
    }
    match tried {
        AuthMethod::PublicKey => {
            if device.password.is_none() {
                AuthStep::Failed(TelepromptError::AuthFailed(device.username.clone(), addr.to_owned()))
            } else {
                AuthStep::Try(AuthMethod::Password)
            }
        },
        AuthMethod::Password => AuthStep::Try(AuthMethod::KeyboardInteractive),
        AuthMethod::KeyboardInteractive => AuthStep::Failed(
            TelepromptError::AuthFailed(device.username.clone(), addr.to_owned()),
        ),
    }
}

// ------------------------------------------------------------ probes
/// The command that tests a connection.
pub const CONNECTION_TEST_COMMAND: &'static str = "echo 'teleprompt_ok'";

/// The outcome of a connection test from the exit status of the test
/// command: success only for status 0.
pub fn test_connection(exit_status: Result<i32, TelepromptError>) -> (r: Result<(), TelepromptError>)
    ensures
        match exit_status {
            Err(e) => r == Err::<(), TelepromptError>(e),
            Ok(0i32) => r is Ok,
            Ok(n) => match r {
                Err(TelepromptError::Other(m)) => m@ == "Test command exited with code "@ + crate::text::signed_decimal(n as int),
                _ => false,
            },
        },
{
    match exit_status {
        Err(e) => Err(e),
        Ok(status) => {
            if status == 0 {
                Ok(())
            } else {
                let mut m = "Test command exited with code ".to_owned();
                crate::text::push_signed_decimal(&mut m, status);
                Err(TelepromptError::Other(m))
            }
        },
    }
}

/// The two sudo probes: without a password, then with one.
#[derive(Debug, Clone, Copy, PartialEq, Eq, Structural)]
pub enum SudoProbe {
    WithoutPassword,
    WithPassword,
}

impl SudoProbe {
    /// The command that the probe runs.
    pub fn command(&self) -> (c: &'static str)
        ensures
            c@ == (match self {
                SudoProbe::WithoutPassword => "sudo -n true"@,
                SudoProbe::WithPassword => "sudo -S true"@,
            }),
    {
        match self {
            SudoProbe::WithoutPassword => "sudo -n true",
            SudoProbe::WithPassword => "sudo -S true",
        }
    }
}

pub open spec fn same_but_sudo(a: Device, b: Device) -> bool {
    a == Device { sudo_capable: a.sudo_capable, sudo_password_required: a.sudo_password_required, ..b }
}

/// Records what a sudo probe's exit status shows, and names the probe to
/// run next: sudo without a password marks the device capable without a
/// password; otherwise it is marked capable with a password and the
/// password probe runs, whose failure marks it not capable.
pub fn detect_sudo_capability(device: &mut Device, probe: SudoProbe, exit_status: i32) -> (next: Option<SudoProbe>)
    ensures
        same_but_sudo(*final(device), *old(device)),
        match probe {
            SudoProbe::WithoutPassword => if exit_status == 0 {
                next is None && final(device).sudo_capable && !final(device).sudo_password_required
            } else {
                next == Some(SudoProbe::WithPassword) && final(device).sudo_capable
                    && final(device).sudo_password_required
            },
            SudoProbe::WithPassword => next is None && if exit_status == 0 {
                final(device).sudo_capable == old(device).sudo_capable
                    && final(device).sudo_password_required == old(device).sudo_password_required
            } else {
                !final(device).sudo_capable && !final(device).sudo_password_required
            },
        },
{
    match probe {
        SudoProbe::WithoutPassword => {
            if exit_status == 0 {
                device.sudo_capable = true;
                device.sudo_password_required = false;
                None
            } else {
                device.sudo_capable = true;
                device.sudo_password_required = true;
                Some(SudoProbe::WithPassword)
            }
        },
        SudoProbe::WithPassword => {
            if exit_status != 0 {
                device.sudo_capable = false;
                device.sudo_password_required = false;
            }
            None
        },
    }
}


// ------------------------------------------------------------ sudo output
/// A command runs under sudo when, trimmed, it is `sudo` or starts with `sudo `.
pub open spec fn is_sudo_spec(command: Seq<char>) -> bool {
    let t = trim(command);
    crate::text::starts_with(t, "sudo "@) || t == "sudo"@
}

pub fn is_sudo_command(command: &str) -> (b: bool)
    ensures
        b == is_sudo_spec(command@),
{
    let t = chars_of(crate::text::trim_str(command).as_str());
    crate::text::starts_with_chars(&t, &chars_of("sudo ")) || crate::text::chars_eq_str(&t, "sudo")
}

/// Where the handling of a sudo password prompt stands.
#[derive(Debug, Clone, Copy, PartialEq, Eq, Structural)]
pub enum SudoState {
    /// Output is held back while looking for a password prompt.
    CheckingPrompt,
    /// The password was sent; its echo is held back.
    PasswordSent,
    /// Output passes through.
    Disabled,
}

/// The handling of a command's standard output while sudo may prompt.
pub struct SudoFilter {
    pub state: SudoState,
    pub buffer: Vec<u8>,
    pub initial_prompts: usize,
}

/// What one chunk of output asks for: bytes to pass on, bytes to send.
#[derive(Debug)]
pub struct StdoutStep {
    pub emit: Option<Vec<u8>>,
    pub reply: Option<Vec<u8>>,
}

pub open spec fn opt_bytes(o: Option<Vec<u8>>) -> Option<Seq<u8>> {
    match o {
        Some(v) => Some(v@),
        None => None,
    }
}

pub open spec fn sudo_failed_with(r: Result<StdoutStep, TelepromptError>, msg: Seq<char>) -> bool {
    match r {
        Err(TelepromptError::SudoFailed(m)) => m@ == msg,
        _ => false,
    }
}

pub open spec fn step_is(r: Result<StdoutStep, TelepromptError>, emit: Option<Seq<u8>>, reply: Option<Seq<u8>>) -> bool {
    match r {
        Ok(st) => opt_bytes(st.emit) == emit && opt_bytes(st.reply) == reply,
        _ => false,
    }
}

pub open spec fn password_or_empty(p: Option<String>) -> Seq<char> {
    match p {
        Some(s) => s@,
        None => Seq::empty(),
    }
}

pub(crate) fn append_bytes(buf: &mut Vec<u8>, chunk: &[u8])
    ensures
        final(buf)@ == old(buf)@ + chunk@,
{
    let mut i: usize = 0;
    let ghost start = buf@;
    while i < chunk.len()
        invariant
            i <= chunk@.len(),
            buf@ == start + chunk@.take(i as int),
        decreases chunk@.len() - i,
    {
        buf.push(chunk[i]);
        i += 1;
        assert(buf@ =~= start + chunk@.take(i as int));
    }
    assert(chunk@.take(chunk@.len() as int) =~= chunk@);
}

fn copy_bytes(v: &Vec<u8>) -> (r: Vec<u8>)
    ensures
        r@ == v@,
{
    let mut r: Vec<u8> = Vec::new();
    append_bytes(&mut r, v.as_slice());
    assert(r@ =~= v@);
    r
}

impl SudoFilter {
    /// Output is checked for a sudo prompt only for sudo commands on
    /// devices that need a sudo password.
    pub fn new(command: &str, sudo_password_required: bool) -> (f: SudoFilter)
        ensures
            f.state == (if is_sudo_spec(command@) && sudo_password_required {
                SudoState::CheckingPrompt
            } else {
                SudoState::Disabled
            }),
            f.buffer@.len() == 0,
            f.initial_prompts == 0,
    {
        let state = if is_sudo_command(command) && sudo_password_required {
            SudoState::CheckingPrompt
        } else {
            SudoState::Disabled
        };
        SudoFilter { state, buffer: Vec::new(), initial_prompts: 0 }
    }

    /// Handles a chunk of standard output. While checking, output is held
    /// until a prompt appears (then the stored password and a newline are
    /// sent, or the run fails when none is stored) or until a full line
    /// without a prompt or more than 512 bytes arrive (then it is passed
    /// on). After the password is sent, a further prompt means the password
    /// was wrong; otherwise output is passed on once it is non-empty with
    /// prompt and echo removed.
    pub fn on_stdout(&mut self, chunk: &[u8], password: &Option<String>) -> (r: Result<StdoutStep, TelepromptError>)
        ensures
            ({
                let buf = old(self).buffer@ + chunk@;
                let text = crate::text::utf8_lossy(buf);
                let lower = unicode_lowercase(text);
                match old(self).state {
                    SudoState::Disabled => step_is(r, Some(chunk@), None) && final(self).state == old(self).state
                        && final(self).buffer@ == old(self).buffer@
                        && final(self).initial_prompts == old(self).initial_prompts,
                    SudoState::CheckingPrompt => if sudo_prompt_in(lower) {
                        match *password {
                            Some(p) => step_is(r, None, Some(vstd::utf8::encode_utf8(p@.push('\n'))))
                                && final(self).state == SudoState::PasswordSent
                                && final(self).buffer@ == buf
                                && final(self).initial_prompts == sudo_prompt_count(lower),
                            None => sudo_failed_with(r, "Sudo requires a password, but none is saved"@),
                        }
                    } else if text.contains('\n') || buf.len() > 512 {
                        step_is(r, Some(buf), None) && final(self).state == SudoState::Disabled
                            && final(self).buffer@.len() == 0
                            && final(self).initial_prompts == old(self).initial_prompts
                    } else {
                        step_is(r, None, None) && final(self).state == SudoState::CheckingPrompt
                            && final(self).buffer@ == buf
                            && final(self).initial_prompts == old(self).initial_prompts
                    },
                    SudoState::PasswordSent => if sudo_prompt_count(lower) > old(self).initial_prompts {
                        sudo_failed_with(r, "Incorrect password"@)
                    } else {
                        let cleaned = clean_sudo_spec(buf, password_or_empty(*password));
                        if cleaned.len() > 0 {
                            step_is(r, Some(cleaned), None) && final(self).state == SudoState::Disabled
                                && final(self).buffer@.len() == 0
                                && final(self).initial_prompts == old(self).initial_prompts
                        } else {
                            step_is(r, None, None) && final(self).state == SudoState::PasswordSent
                                && final(self).buffer@ == buf
                                && final(self).initial_prompts == old(self).initial_prompts
                        }
                    },
                }
            }),
    {
        match self.state {
            SudoState::Disabled => {
                let mut out: Vec<u8> = Vec::new();
                append_bytes(&mut out, chunk);
                assert(out@ =~= chunk@);
                let r = Ok(StdoutStep { emit: Some(out), reply: None });
                assert(step_is(r, Some(chunk@), None));
                r
            },
            SudoState::CheckingPrompt => {
                append_bytes(&mut self.buffer, chunk);
                let text = crate::text::decode_lossy(self.buffer.as_slice());
                if contains_sudo_prompt(text.as_str()) {
                    match password {
                        Some(p) => {
                            self.initial_prompts = count_sudo_prompts(text.as_str());
                            self.state = SudoState::PasswordSent;
                            let mut line = p.clone();
                            line.push('\n');
                            let reply = crate::text::utf8_bytes(line.as_str());
                            Ok(StdoutStep { emit: None, reply: Some(reply) })
                        },
                        None => Err(
                            TelepromptError::SudoFailed(
                                "Sudo requires a password, but none is saved".to_owned(),
                            ),
                        ),
                    }
                } else {
                    let tv = chars_of(text.as_str());
                    let mut has_newline = false;
                    let mut i: usize = 0;
                    while i < tv.len()
                        invariant
                            i <= tv@.len(),
                            has_newline == exists|j: int| 0 <= j < i && tv@[j] == '\n',
                        decreases tv@.len() - i,
                    {
                        if tv[i] == '\n' {
                            has_newline = true;
                        }
                        i += 1;
                    }
                    proof {
                        if has_newline {
                            let j = choose|j: int| 0 <= j < tv@.len() && tv@[j] == '\n';
                            assert(tv@.contains('\n'));
                        }
                    }
                    if has_newline || self.buffer.len() > 512 {
                        let mut out: Vec<u8> = Vec::new();
                        std::mem::swap(&mut out, &mut self.buffer);
                        self.state = SudoState::Disabled;
                        Ok(StdoutStep { emit: Some(out), reply: None })
                    } else {
                        Ok(StdoutStep { emit: None, reply: None })
                    }
                }
            },
            SudoState::PasswordSent => {
                append_bytes(&mut self.buffer, chunk);
                let text = crate::text::decode_lossy(self.buffer.as_slice());
                if count_sudo_prompts(text.as_str()) > self.initial_prompts {
                    return Err(TelepromptError::SudoFailed("Incorrect password".to_owned()));
                }
                proof {
                    reveal_strlit("");
                }
                let pwd: &str = match password {
                    Some(p) => p.as_str(),
                    None => "",
                };
                assert(pwd@ =~= password_or_empty(*password));
                let cleaned = clean_sudo_output(copy_bytes(&self.buffer), pwd);
                if cleaned.len() > 0 {
                    self.buffer = Vec::new();
                    self.state = SudoState::Disabled;
                    Ok(StdoutStep { emit: Some(cleaned), reply: None })
                } else {
                    Ok(StdoutStep { emit: None, reply: None })
                }
            },
        }
    }

    /// What is left to pass on when the output ends: the held output, with
    /// prompt and echo removed, if any remains.
    pub fn finish(&self, password: &Option<String>) -> (r: Option<Vec<u8>>)
        ensures
            ({
                let cleaned = clean_sudo_spec(self.buffer@, password_or_empty(*password));
                if self.state != SudoState::Disabled && self.buffer@.len() > 0 && cleaned.len() > 0 {
                    opt_bytes(r) == Some(cleaned)
                } else {
                    r is None
                }
            }),
    {
        if self.state != SudoState::Disabled && self.buffer.len() > 0 {
            proof {
                reveal_strlit("");
            }
            let pwd: &str = match password {
                Some(p) => p.as_str(),
                None => "",
            };
            assert(pwd@ =~= password_or_empty(*password));
            let cleaned = clean_sudo_output(copy_bytes(&self.buffer), pwd);
            if cleaned.len() > 0 {
                return Some(cleaned);
            }
        }
        None
    }
}

} // verus!
