//! The decisions of the command-line workflows: answers to prompts, device
//! preparation, and the bookkeeping of an SSH import.
use vstd::prelude::*;

use crate::credentials::{
    should_detect_sudo, ConnectionType, CredentialStore, Device, HostKeyPolicy, OsType,
};
use crate::error::TelepromptError;
use crate::ssh_config::SshImportCandidate;
use crate::text::{
    ascii_lower, chars_eq_str, chars_of, eq_ignore_ascii_case, trim, trim_str, unicode_lowercase,
};

verus! {

/// A yes/no answer is yes only when it is `y` or `Y`, white space aside.
pub fn answer_is_yes(answer: &str) -> (b: bool)
    ensures
        b == eq_ignore_ascii_case(trim(answer@), "y"@),
{
    let t = trim_str(answer);
    crate::text::eq_ignore_ascii_case_str(t.as_str(), "y")
}

/// The command names that a device may not take.
pub open spec fn reserved_device_names() -> Seq<Seq<char>> {
    seq![
        "init"@,
        "add"@,
        "remove"@,
        "edit"@,
        "list"@,
        "test"@,
        "import"@,
        "generate-key"@,
        "install-skill"@,
    ]
}

pub open spec fn is_reserved_spec(name: Seq<char>) -> bool {
    exists|i: int|
        0 <= i < reserved_device_names().len() && eq_ignore_ascii_case(
            name,
            #[trigger] reserved_device_names()[i],
        )
}

/// Whether a name is that of a command, ASCII case ignored.
pub fn is_reserved_name(name: &str) -> (b: bool)
    ensures
        b == is_reserved_spec(name@),
{
    let reserved: [&str; 9] = [
        "init",
        "add",
        "remove",
        "edit",
        "list",
        "test",
        "import",
        "generate-key",
        "install-skill",
    ];
    let rs = reserved.as_slice();
    assert(rs@.map_values(|x: &str| x@) =~= reserved_device_names());
    let mut i: usize = 0;
    while i < rs.len()
        invariant
            i <= rs@.len(),
            rs@.map_values(|x: &str| x@) == reserved_device_names(),
            forall|j: int| 0 <= j < i ==> !eq_ignore_ascii_case(name@, #[trigger] reserved_device_names()[j]),
        decreases rs@.len() - i,
    {
        assert(rs@.map_values(|x: &str| x@)[i as int] == rs@[i as int]@);
        if crate::text::eq_ignore_ascii_case_str(name, rs[i]) {
            return true;
        }
        i += 1;
    }
    false
}

/// A candidate can be imported without prompts only when known_hosts vouches
/// for its host key.
pub fn can_import_unattended(candidate: &SshImportCandidate) -> (b: bool)
    ensures
        b == (candidate.known_host_lines@.len() > 0),
{
    candidate.known_host_lines.len() > 0
}

/// The master password from the environment when it is set and non-empty,
/// else from the key file (trimmed) when that is non-empty; otherwise the
/// user is asked.
pub fn master_password_from(env_value: Option<String>, key_file: Option<String>) -> (r: Option<String>)
    ensures
        match env_value {
            Some(e) if e@.len() > 0 => r == Some(e),
            _ => match key_file {
                Some(f) if trim(f@).len() > 0 => r matches Some(p) && p@ == trim(f@),
                _ => r is None,
            },
        },
{
    if let Some(e) = env_value {
        if e.as_str().unicode_len() > 0 {
            return Some(e);
        }
    }
    if let Some(f) = key_file {
        let t = trim_str(f.as_str());
        if t.as_str().unicode_len() > 0 {
            return Some(t);
        }
    }
    None
}

/// A master password typed at the prompt must not be empty.
pub fn check_entered_password(password: String) -> (r: Result<String, TelepromptError>)
    ensures
        password@.len() > 0 ==> r == Ok::<String, TelepromptError>(password),
        password@.len() == 0 ==> r == Err::<String, TelepromptError>(TelepromptError::InvalidPassword),
{
    if password.as_str().unicode_len() == 0 {
        Err(TelepromptError::InvalidPassword)
    } else {
        Ok(password)
    }
}

/// A new master password must not be blank, and its confirmation must
/// repeat it exactly.
pub fn check_new_master_password(password: &str, confirm: &str) -> (r: Result<(), TelepromptError>)
    ensures
        trim(password@).len() == 0 ==> (r matches Err(TelepromptError::Cli(m)) && m@
            == "Master password cannot be empty"@),
        trim(password@).len() > 0 && password@ != confirm@ ==> (r matches Err(TelepromptError::Cli(m))
            && m@ == "Passwords do not match"@),
        trim(password@).len() > 0 && password@ == confirm@ ==> r is Ok,
{
    if trim_str(password).as_str().unicode_len() == 0 {
        return Err(TelepromptError::Cli("Master password cannot be empty".to_owned()));
    }
    if !crate::text::str_equal(password, confirm) {
        return Err(TelepromptError::Cli("Passwords do not match".to_owned()));
    }
    Ok(())
}

// ------------------------------------------------------------ add and edit

/// A typed answer, trimmed; an empty one gives the default when there is
/// one.
pub fn input_or_default(input: &str, default: Option<&str>) -> (r: String)
    ensures
        r@ == (if trim(input@).len() == 0 && default is Some {
            default.unwrap()@
        } else {
            trim(input@)
        }),
{
    let t = trim_str(input);
    if t.as_str().unicode_len() == 0 {
        if let Some(d) = default {
            return d.to_owned();
        }
    }
    t
}

/// Why a new device name is refused.
#[derive(Debug, Clone, Copy, PartialEq, Eq, Structural)]
pub enum NameProblem {
    /// It is blank.
    Empty,
    /// A device of that name exists.
    Taken,
}

/// A new device's name must not be blank nor taken in the store.
pub fn new_device_name_problem(store: &CredentialStore, name: &str) -> (r: Option<NameProblem>)
    ensures
        trim(name@).len() == 0 ==> r == Some(NameProblem::Empty),
        trim(name@).len() > 0 && store.view().contains_key(name@) ==> r == Some(NameProblem::Taken),
        trim(name@).len() > 0 && !store.view().contains_key(name@) ==> r is None,
{
    if trim_str(name).as_str().unicode_len() == 0 {
        Some(NameProblem::Empty)
    } else if store.contains_key(name) {
        Some(NameProblem::Taken)
    } else {
        None
    }
}

/// The secrets of a new device: with key authentication (SSH only) the key
/// path, and passphrase and password when given; otherwise the password as
/// typed, even empty.
pub struct NewCredentials {
    pub password: Option<String>,
    pub key_path: Option<String>,
    pub key_passphrase: Option<String>,
}

pub fn new_device_credentials(
    connection_type: ConnectionType,
    use_key: bool,
    key_path: String,
    passphrase: String,
    password: String,
) -> (c: NewCredentials)
    ensures
        connection_type == ConnectionType::Ssh && use_key ==> c.key_path == Some(key_path) && c.key_passphrase
            == (if passphrase@.len() == 0 {
            None
        } else {
            Some(passphrase)
        }) && c.password == (if password@.len() == 0 {
            None
        } else {
            Some(password)
        }),
        !(connection_type == ConnectionType::Ssh && use_key) ==> c.key_path is None && c.key_passphrase is None
            && c.password == Some(password),
{
    if connection_type == ConnectionType::Ssh && use_key {
        let key_passphrase = if passphrase.as_str().unicode_len() == 0 {
            None
        } else {
            Some(passphrase)
        };
        let password = if password.as_str().unicode_len() == 0 {
            None
        } else {
            Some(password)
        };
        NewCredentials { password, key_path: Some(key_path), key_passphrase }
    } else {
        NewCredentials { password: Some(password), key_path: None, key_passphrase: None }
    }
}

/// Applies the secrets typed while editing a device and tells whether they
/// changed it: with key authentication (SSH only) a different key path, a
/// new passphrase or a new password count; otherwise the key is dropped
/// (which does not count) and a new password counts. Blank answers keep
/// what was stored.
pub fn apply_edited_secrets(
    device: &mut Device,
    use_key: bool,
    key_path: String,
    passphrase: String,
    password: String,
) -> (changed: bool)
    ensures
        final(device).name == old(device).name,
        final(device).host == old(device).host,
        final(device).port == old(device).port,
        final(device).username == old(device).username,
        final(device).connection_type == old(device).connection_type,
        final(device).sudo_capable == old(device).sudo_capable,
        final(device).sudo_password_required == old(device).sudo_password_required,
        final(device).os_type == old(device).os_type,
        final(device).host_key_policy == old(device).host_key_policy,
        final(device).password == (if password@.len() == 0 {
            old(device).password
        } else {
            Some(password)
        }),
        old(device).connection_type == ConnectionType::Ssh && use_key ==> {
            &&& final(device).key_path == Some(key_path)
            &&& final(device).key_passphrase == (if passphrase@.len() == 0 {
                old(device).key_passphrase
            } else {
                Some(passphrase)
            })
            &&& changed == ((old(device).key_path matches Some(k) ==> k@ != key_path@) || passphrase@.len() > 0
                || password@.len() > 0)
        },
        !(old(device).connection_type == ConnectionType::Ssh && use_key) ==> {
            &&& final(device).key_path is None
            &&& final(device).key_passphrase is None
            &&& changed == (password@.len() > 0)
        },
{
    let mut changed = false;
    if device.connection_type == ConnectionType::Ssh && use_key {
        let same_key = match &device.key_path {
            Some(k) => crate::text::str_equal(k.as_str(), key_path.as_str()),
            None => false,
        };
        if !same_key {
            changed = true;
        }
        device.key_path = Some(key_path);
        if passphrase.as_str().unicode_len() > 0 {
            device.key_passphrase = Some(passphrase);
            changed = true;
        }
    } else {
        device.key_path = None;
        device.key_passphrase = None;
    }
    if password.as_str().unicode_len() > 0 {
        device.password = Some(password);
        changed = true;
    }
    changed
}

/// Whether an edit must test the connection again: any change of host,
/// connection type, port, user, secrets, OS type or host key policy.
pub fn edit_needs_test(before: &Device, after: &Device, secrets_changed: bool) -> (b: bool)
    ensures
        b == (before.host@ != after.host@ || before.connection_type != after.connection_type || before.port
            != after.port || before.username@ != after.username@ || secrets_changed || before.os_type
            != after.os_type || before.host_key_policy != after.host_key_policy),
{
    !crate::text::str_equal(before.host.as_str(), after.host.as_str()) || before.connection_type
        != after.connection_type || before.port != after.port || !crate::text::str_equal(
        before.username.as_str(),
        after.username.as_str(),
    ) || secrets_changed || before.os_type != after.os_type || before.host_key_policy
        != after.host_key_policy
}

/// The connection type that an answer names: Telnet for `telnet` (trimmed,
/// lower-cased), SSH for anything else.
pub fn parse_connection_type(input: &str) -> (c: ConnectionType)
    ensures
        c == (if unicode_lowercase(trim(input@)) == "telnet"@ {
            ConnectionType::Telnet
        } else {
            ConnectionType::Ssh
        }),
{
    let t = trim_str(input);
    let l = chars_of(crate::text::to_lowercase(t.as_str()).as_str());
    if chars_eq_str(&l, "telnet") {
        ConnectionType::Telnet
    } else {
        ConnectionType::Ssh
    }
}

/// Whether an answer (trimmed, lower-cased) chooses key authentication.
pub fn is_key_auth(input: &str) -> (b: bool)
    ensures
        b == (unicode_lowercase(trim(input@)) == "key"@),
{
    let t = trim_str(input);
    let l = chars_of(crate::text::to_lowercase(t.as_str()).as_str());
    chars_eq_str(&l, "key")
}

/// The usual port of a protocol: 22 for SSH, 23 for Telnet.
pub fn default_port(c: ConnectionType) -> (p: u16)
    ensures
        p == (if c == ConnectionType::Ssh {
            22u16
        } else {
            23u16
        }),
{
    match c {
        ConnectionType::Ssh => 22,
        ConnectionType::Telnet => 23,
    }
}

/// The port an answer gives (trimmed), or `fallback` when it is not a port.
pub fn parse_port_or(input: &str, fallback: u16) -> (p: u16)
    ensures
        p == (match crate::text::parse_u16_spec(trim(input@)) {
            Some(v) => v,
            None => fallback,
        }),
{
    let t = trim_str(input);
    match crate::text::parse_u16_str(t.as_str()) {
        Some(v) => v,
        None => fallback,
    }
}

pub open spec fn policy_menu_digit(p: HostKeyPolicy) -> Seq<char> {
    match p {
        HostKeyPolicy::AcceptNew => "1"@,
        HostKeyPolicy::Strict => "2"@,
        HostKeyPolicy::Off => "3"@,
    }
}

pub open spec fn policy_for_menu_answer(a: Seq<char>) -> Option<HostKeyPolicy> {
    if a == "1"@ {
        Some(HostKeyPolicy::AcceptNew)
    } else if a == "2"@ {
        Some(HostKeyPolicy::Strict)
    } else if a == "3"@ {
        Some(HostKeyPolicy::Off)
    } else {
        None
    }
}

/// Each host key policy has its own menu digit, and answering with it
/// selects that policy; an answer selects a policy only when it is that
/// policy's digit.
pub proof fn law_host_key_menu_digits(p: HostKeyPolicy)
    ensures
        policy_for_menu_answer(policy_menu_digit(p)) == Some(p),
        forall|a: Seq<char>| #[trigger] policy_for_menu_answer(a) == Some(p) ==> a == policy_menu_digit(p),
{
    reveal_strlit("1");
    reveal_strlit("2");
    reveal_strlit("3");
    assert("1"@ != "2"@ && "1"@ != "3"@ && "2"@ != "3"@) by {
        assert("1"@[0] != "2"@[0] && "1"@[0] != "3"@[0] && "2"@[0] != "3"@[0]);
    }
}

/// The answer to the host key policy menu: the trimmed input, or the digit
/// of the current policy (AcceptNew when none) if it is empty, mapped
/// `1` AcceptNew, `2` Strict, `3` Off; `None` asks again.
pub fn select_host_key_policy(input: &str, current: Option<HostKeyPolicy>) -> (r: Option<HostKeyPolicy>)
    ensures
        r == policy_for_menu_answer(
            if trim(input@).len() == 0 {
                policy_menu_digit(current.unwrap_or(HostKeyPolicy::AcceptNew))
            } else {
                trim(input@)
            },
        ),
        trim(input@).len() == 0 ==> r == Some(current.unwrap_or(HostKeyPolicy::AcceptNew)),
{
    proof {
        reveal_strlit("1");
        reveal_strlit("2");
        reveal_strlit("3");
        law_host_key_menu_digits(current.unwrap_or(HostKeyPolicy::AcceptNew));
    }
    let t = chars_of(trim_str(input).as_str());
    let answer: Vec<char> = if t.len() == 0 {
        match current {
            None | Some(HostKeyPolicy::AcceptNew) => chars_of("1"),
            Some(HostKeyPolicy::Strict) => chars_of("2"),
            Some(HostKeyPolicy::Off) => chars_of("3"),
        }
    } else {
        t
    };
    if chars_eq_str(&answer, "1") {
        Some(HostKeyPolicy::AcceptNew)
    } else if chars_eq_str(&answer, "2") {
        Some(HostKeyPolicy::Strict)
    } else if chars_eq_str(&answer, "3") {
        Some(HostKeyPolicy::Off)
    } else {
        None
    }
}

// ------------------------------------------------------------ preparation
/// What the sudo probe found.
#[derive(Debug, Clone, Copy, PartialEq, Eq, Structural)]
pub struct SudoCapability {
    pub sudo_capable: bool,
    pub sudo_password_required: bool,
}

/// Prepares a device from the outcome of its connection test and, for
/// Linux SSH devices, of the sudo probe run on a copy of it: a failed test
/// fails and leaves the device as it was; a completed probe's findings are
/// taken over, a failed probe changes nothing.
pub fn test_and_prepare_device(
    device: &mut Device,
    connection: Result<(), TelepromptError>,
    sudo_probe: Option<Result<SudoCapability, TelepromptError>>,
) -> (r: Result<(), TelepromptError>)
    ensures
        match connection {
            Err(e) => r == Err::<(), TelepromptError>(e) && *final(device) == *old(device),
            Ok(()) => r is Ok && if old(device).connection_type == ConnectionType::Ssh && old(device).os_type == OsType::Linux {
                match sudo_probe {
                    Some(Ok(cap)) => *final(device) == Device {
                        sudo_capable: cap.sudo_capable,
                        sudo_password_required: cap.sudo_password_required,
                        ..*old(device)
                    },
                    _ => *final(device) == *old(device),
                }
            } else {
                *final(device) == *old(device)
            },
        },
{
    match connection {
        Err(e) => Err(e),
        Ok(()) => {
            if should_detect_sudo(&device.connection_type, device.os_type) {
                if let Some(Ok(cap)) = sudo_probe {
                    device.sudo_capable = cap.sudo_capable;
                    device.sudo_password_required = cap.sudo_password_required;
                }
            }
            Ok(())
        },
    }
}

// ------------------------------------------------------------ known_hosts
pub open spec fn merge_step(st: (Seq<Seq<char>>, Seq<Seq<char>>), line: Seq<char>) -> (
    Seq<Seq<char>>,
    Seq<Seq<char>>,
) {
    if st.1.contains(line) {
        st
    } else {
        (st.0.push(line), st.1.push(line))
    }
}

pub open spec fn merge_fold(lines: Seq<Seq<char>>, known: Seq<Seq<char>>) -> (
    Seq<Seq<char>>,
    Seq<Seq<char>>,
)
    decreases lines.len(),
{
    if lines.len() == 0 {
        (Seq::empty(), known)
    } else {
        merge_step(merge_fold(lines.drop_last(), known), lines.last())
    }
}

/// Seeding known_hosts never repeats a line: the lines it adds are
/// distinct and none was in the file before, and afterwards every given
/// line is present.
pub proof fn law_merge_adds_each_line_once(lines: Seq<Seq<char>>, known: Seq<Seq<char>>)
    ensures
        merge_fold(lines, known).1 == known + merge_fold(lines, known).0,
        merge_fold(lines, known).0.no_duplicates(),
        forall|i: int| 0 <= i < merge_fold(lines, known).0.len() ==> !known.contains(
            #[trigger] merge_fold(lines, known).0[i],
        ),
        forall|i: int| 0 <= i < lines.len() ==> merge_fold(lines, known).1.contains(#[trigger] lines[i]),
    decreases lines.len(),
{
    if lines.len() == 0 {
        assert(known + Seq::<Seq<char>>::empty() =~= known);
    } else {
        let prev = lines.drop_last();
        law_merge_adds_each_line_once(prev, known);
        let (a, b) = merge_fold(prev, known);
        let l = lines.last();
        if !b.contains(l) {
            assert(b.push(l) =~= known + a.push(l));
            assert forall|i: int| 0 <= i < a.len() implies a[i] != l by {
                assert(b[known.len() + i] == a[i]);
            }
            assert forall|i: int| 0 <= i < a.push(l).len() implies !known.contains(#[trigger] a.push(l)[i]) by {
                if i == a.len() {
                    if known.contains(l) {
                        let j = choose|j: int| 0 <= j < known.len() && known[j] == l;
                        assert(b[j] == l);
                    }
                }
            }
        }
        assert forall|i: int| 0 <= i < lines.len() implies merge_fold(lines, known).1.contains(#[trigger] lines[i]) by {
            let b2 = merge_fold(lines, known).1;
            if i < prev.len() {
                assert(prev[i] == lines[i]);
                assert(b.contains(prev[i]));
                let j = choose|j: int| 0 <= j < b.len() && b[j] == prev[i];
                assert(b2[j] == b[j]);
            } else {
                if !b.contains(l) {
                    assert(b2[b.len() as int] == l);
                }
            }
        }
    }
}

/// The lines to append to a known_hosts file with the text `existing`:
/// those of `lines` that are not already a line of the file, each once,
/// and whether a newline must first end the file.
pub struct KnownHostsMerge {
    pub new_lines: Vec<String>,
    pub needs_leading_newline: bool,
}

pub fn merge_known_host_lines(existing: &str, lines: &Vec<String>) -> (r: KnownHostsMerge)
    ensures
        crate::text::string_views(r.new_lines@) == merge_fold(
            crate::text::string_views(lines@),
            crate::text::lines(existing@),
        ).0,
        r.needs_leading_newline == (existing@.len() > 0 && existing@.last() != '\n'),
{
    let ev = chars_of(existing);
    let known_lines = crate::text::lines_of(&ev);
    let mut known: Vec<String> = Vec::new();
    let mut k: usize = 0;
    while k < known_lines.len()
        invariant
            k <= known_lines@.len(),
            crate::text::string_views(known@) == crate::text::views(known_lines@).take(k as int),
            known@.len() == k,
        decreases known_lines@.len() - k,
    {
        let ghost before = known@;
        known.push(crate::text::string_of(&known_lines[k]));
        k += 1;
        assert(crate::text::string_views(known@) =~= crate::text::string_views(before).push(
            known_lines@[k - 1]@,
        ));
        assert(crate::text::views(known_lines@).take(k as int) =~= crate::text::views(known_lines@).take(
            k - 1,
        ).push(known_lines@[k - 1]@));
    }
    assert(crate::text::views(known_lines@).take(known_lines@.len() as int) =~= crate::text::views(
        known_lines@,
    ));
    let ghost lv = crate::text::string_views(lines@);
    let mut new_lines: Vec<String> = Vec::new();
    let mut i: usize = 0;
    while i < lines.len()
        invariant
            i <= lines@.len(),
            lv == crate::text::string_views(lines@),
            (crate::text::string_views(new_lines@), crate::text::string_views(known@)) == merge_fold(
                lv.take(i as int),
                crate::text::lines(existing@),
            ),
        decreases lines@.len() - i,
    {
        proof {
            assert(lv.take(i + 1).drop_last() =~= lv.take(i as int));
            assert(lv[i as int] == lines@[i as int]@);
        }
        if !crate::ssh_config::strings_contain(&known, lines[i].as_str()) {
            let ghost nb = new_lines@;
            let ghost kb = known@;
            new_lines.push(lines[i].clone());
            known.push(lines[i].clone());
            assert(crate::text::string_views(new_lines@) =~= crate::text::string_views(nb).push(lv[i as int]));
            assert(crate::text::string_views(known@) =~= crate::text::string_views(kb).push(lv[i as int]));
        }
        i += 1;
    }
    assert(lv.take(lines@.len() as int) =~= lv);
    let needs = ev.len() > 0 && ev[ev.len() - 1] != '\n';
    KnownHostsMerge { new_lines, needs_leading_newline: needs }
}


// ------------------------------------------------------------ import
/// Whether a device of the store is reached at `host` (lower-cased) and `port`.
pub open spec fn endpoint_taken(m: Map<Seq<char>, Device>, host_lower: Seq<char>, port: u16) -> bool {
    exists|k: Seq<char>| #[trigger] m.contains_key(k) && ascii_lower(m[k].host@) == host_lower && m[k].port == port
}

pub open spec fn endpoint_views(e: Seq<(String, u16)>) -> Seq<(Seq<char>, u16)> {
    e.map_values(|x: (String, u16)| (x.0@, x.1))
}

/// An import in progress: the store it fills and the names and endpoints
/// (host lower-cased, port) already taken.
pub struct ImportSession {
    store: CredentialStore,
    names: Vec<String>,
    endpoints: Vec<(String, u16)>,
}

impl ImportSession {
    #[verifier::type_invariant]
    spec fn taken_covers_store(self) -> bool {
        &&& forall|k: Seq<char>| #[trigger] self.store.view().contains_key(k) ==> crate::text::string_views(self.names@).contains(k)
        &&& forall|k: Seq<char>| #[trigger] self.store.view().contains_key(k) ==> endpoint_views(self.endpoints@).contains(
            (ascii_lower(self.store.view()[k].host@), self.store.view()[k].port),
        )
    }

    /// The devices of the store being filled.
    pub closed spec fn store_view(&self) -> Map<Seq<char>, Device> {
        self.store.view()
    }

    /// The names already taken.
    pub closed spec fn taken_names(&self) -> Seq<Seq<char>> {
        crate::text::string_views(self.names@)
    }

    /// The endpoints already taken.
    pub closed spec fn taken_endpoints(&self) -> Seq<(Seq<char>, u16)> {
        endpoint_views(self.endpoints@)
    }

    /// An import into `store`, whose devices' names and endpoints are taken.
    pub fn new(store: CredentialStore) -> (s: ImportSession)
        ensures
            s.store_view() == store.view(),
            forall|k: Seq<char>| s.taken_names().contains(k) <==> store.view().contains_key(k),
            forall|h: Seq<char>, p: u16| s.taken_endpoints().contains((h, p)) <==> endpoint_taken(store.view(), h, p),
    {
        let entries = store.entries();
        let mut names: Vec<String> = Vec::new();
        let mut endpoints: Vec<(String, u16)> = Vec::new();
        let mut i: usize = 0;
        while i < entries.len()
            invariant
                i <= entries@.len(),
                names@.len() == i,
                endpoints@.len() == i,
                forall|j: int| 0 <= j < i ==> #[trigger] names@[j]@ == entries@[j].0@,
                forall|j: int| 0 <= j < i ==> #[trigger] endpoints@[j].0@ == ascii_lower(entries@[j].1.host@) && endpoints@[j].1 == entries@[j].1.port,
            decreases entries@.len() - i,
        {
            names.push(entries[i].0.clone());
            let host = crate::text::string_of(&crate::text::ascii_lower_chars(&chars_of(entries[i].1.host.as_str())));
            let ghost before = endpoints@;
            endpoints.push((host, entries[i].1.port));
            proof {
                assert(endpoints@[i as int].0@ == ascii_lower(entries@[i as int].1.host@));
                assert forall|j: int| 0 <= j < i + 1 implies #[trigger] endpoints@[j].0@ == ascii_lower(entries@[j].1.host@) && endpoints@[j].1 == entries@[j].1.port by {
                    if j < i {
                        assert(endpoints@[j] == before[j]);
                    }
                }
            }
            i += 1;
        }
        proof {
            assert forall|k: Seq<char>| crate::text::string_views(names@).contains(k) <==> store.view().contains_key(k) by {
                if crate::text::string_views(names@).contains(k) {
                    let j = choose|j: int| 0 <= j < names@.len() && crate::text::string_views(names@)[j] == k;
                    assert(names@[j]@ == entries@[j].0@);
                }
                if store.view().contains_key(k) {
                    let j = choose|j: int| 0 <= j < entries@.len() && #[trigger] entries@[j].0@ == k;
                    assert(crate::text::string_views(names@)[j] == k);
                }
            }
            assert forall|h: Seq<char>, p: u16| endpoint_views(endpoints@).contains((h, p)) <==> endpoint_taken(store.view(), h, p) by {
                if endpoint_views(endpoints@).contains((h, p)) {
                    let j = choose|j: int| 0 <= j < endpoints@.len() && endpoint_views(endpoints@)[j] == (h, p);
                    let k = entries@[j].0@;
                    assert(store.view().contains_key(k) && store.view()[k] == entries@[j].1);
                }
                if endpoint_taken(store.view(), h, p) {
                    let k = choose|k: Seq<char>| #[trigger] store.view().contains_key(k) && ascii_lower(store.view()[k].host@) == h && store.view()[k].port == p;
                    let j = choose|j: int| 0 <= j < entries@.len() && #[trigger] entries@[j].0@ == k;
                    assert(store.view()[entries@[j].0@] == entries@[j].1);
                    assert(endpoint_views(endpoints@)[j] == (h, p));
                }
            }
            assert forall|k: Seq<char>| #[trigger] store.view().contains_key(k) implies endpoint_views(endpoints@).contains(
                (ascii_lower(store.view()[k].host@), store.view()[k].port),
            ) by {
                assert(endpoint_taken(store.view(), ascii_lower(store.view()[k].host@), store.view()[k].port));
            }
        }
        ImportSession { store, names, endpoints }
    }

    /// A candidate conflicts when its name is reserved or taken, or its
    /// endpoint (host, ASCII case ignored, and port) is taken.
    pub fn conflicts(&self, candidate: &SshImportCandidate) -> (b: bool)
        ensures
            b == (crate::commands::is_reserved_spec(candidate.name@) || self.taken_names().contains(candidate.name@)
                || self.taken_endpoints().contains((ascii_lower(candidate.host@), candidate.port))),
            !b ==> !self.store_view().contains_key(candidate.name@),
            !b ==> !endpoint_taken(self.store_view(), ascii_lower(candidate.host@), candidate.port),
    {
        proof {
            use_type_invariant(self);
            if endpoint_taken(self.store_view(), ascii_lower(candidate.host@), candidate.port) {
                let k = choose|k: Seq<char>| #[trigger] self.store_view().contains_key(k) && ascii_lower(self.store_view()[k].host@) == ascii_lower(candidate.host@) && self.store_view()[k].port == candidate.port;
                assert(self.taken_endpoints().contains((ascii_lower(candidate.host@), candidate.port)));
            }
            if self.store_view().contains_key(candidate.name@) {
                assert(self.taken_names().contains(candidate.name@));
            }
        }
        if is_reserved_name(candidate.name.as_str()) {
            return true;
        }
        if crate::ssh_config::strings_contain(&self.names, candidate.name.as_str()) {
            return true;
        }
        let host = crate::text::ascii_lower_chars(&chars_of(candidate.host.as_str()));
        let mut i: usize = 0;
        while i < self.endpoints.len()
            invariant
                i <= self.endpoints@.len(),
                host@ == ascii_lower(candidate.host@),
                forall|j: int| 0 <= j < i ==> #[trigger] endpoint_views(self.endpoints@)[j] != (host@, candidate.port),
            decreases self.endpoints@.len() - i,
        {
            if self.endpoints[i].1 == candidate.port && chars_eq_str(&host, self.endpoints[i].0.as_str()) {
                assert(endpoint_views(self.endpoints@)[i as int] == (host@, candidate.port));
                return true;
            }
            i += 1;
        }
        false
    }

    /// Adds an imported device to the store; its name and endpoint are taken
    /// from then on.
    pub fn accept(&mut self, device: Device)
        ensures
            final(self).store_view() == old(self).store_view().insert(device.name@, device),
            final(self).taken_names() == old(self).taken_names().push(device.name@),
            final(self).taken_endpoints() == old(self).taken_endpoints().push(
                (ascii_lower(device.host@), device.port),
            ),
    {
        proof {
            use_type_invariant(&*self);
        }
        let name = device.name.clone();
        let host = crate::text::string_of(&crate::text::ascii_lower_chars(&chars_of(device.host.as_str())));
        let port = device.port;
        let ghost d = device;
        let mut taken = ImportSession { store: CredentialStore::new(), names: Vec::new(), endpoints: Vec::new() };
        std::mem::swap(&mut taken, self);
        let ImportSession { mut store, mut names, mut endpoints } = taken;
        let ghost old_names = names@;
        let ghost old_endpoints = endpoints@;
        let ghost old_store = store.view();
        names.push(name.clone());
        endpoints.push((host, port));
        store.insert(name, device);
        proof {
            assert(crate::text::string_views(names@) =~= crate::text::string_views(old_names).push(d.name@));
            assert(endpoint_views(endpoints@) =~= endpoint_views(old_endpoints).push((ascii_lower(d.host@), d.port)));
            assert forall|k: Seq<char>| #[trigger] store.view().contains_key(k) implies crate::text::string_views(names@).contains(k) by {
                if k != d.name@ {
                    assert(old_store.contains_key(k));
                    let j = choose|j: int| 0 <= j < old_names.len() && crate::text::string_views(old_names)[j] == k;
                    assert(crate::text::string_views(names@)[j] == k);
                } else {
                    assert(crate::text::string_views(names@)[old_names.len() as int] == k);
                }
            }
            assert forall|k: Seq<char>| #[trigger] store.view().contains_key(k) implies endpoint_views(endpoints@).contains(
                (ascii_lower(store.view()[k].host@), store.view()[k].port),
            ) by {
                if k != d.name@ {
                    assert(old_store.contains_key(k));
                    let e = (ascii_lower(old_store[k].host@), old_store[k].port);
                    let j = choose|j: int| 0 <= j < old_endpoints.len() && endpoint_views(old_endpoints)[j] == e;
                    assert(endpoint_views(endpoints@)[j] == e);
                } else {
                    assert(endpoint_views(endpoints@)[old_endpoints.len() as int] == (ascii_lower(d.host@), d.port));
                }
            }
        }
        *self = ImportSession { store, names, endpoints };
    }

    /// The filled store.
    pub fn into_store(self) -> (s: CredentialStore)
        ensures
            s.view() == self.store_view(),
    {
        self.store
    }
}

/// Whether a candidate's name is reserved or taken, or its endpoint taken.
pub open spec fn conflicts_with(session: ImportSession, candidate: SshImportCandidate) -> bool {
    is_reserved_spec(candidate.name@) || session.taken_names().contains(candidate.name@)
        || session.taken_endpoints().contains((ascii_lower(candidate.host@), candidate.port))
}

/// `--yes` is only accepted together with `--all`.
pub fn check_import_flags(import_all: bool, assume_yes: bool) -> (r: Result<(), TelepromptError>)
    ensures
        assume_yes && !import_all ==> (r matches Err(TelepromptError::Cli(m)) && m@
            == "--yes can only be used together with --all"@),
        !(assume_yes && !import_all) ==> r is Ok,
{
    if assume_yes && !import_all {
        Err(TelepromptError::Cli("--yes can only be used together with --all".to_owned()))
    } else {
        Ok(())
    }
}

/// How one import candidate ended.
#[derive(Debug, Clone, Copy, PartialEq, Eq, Structural)]
pub enum CandidateOutcome {
    /// Its name or endpoint was reserved or taken.
    Conflict,
    /// The user declined it.
    Declined,
    /// Trust or credentials were missing.
    Incomplete,
    /// Its connection test failed and it was not saved.
    TestFailed,
    /// It was imported after a successful test.
    Imported,
    /// It was imported although its connection test failed.
    ImportedAfterFailedTest,
}

/// The counts an import reports.
#[derive(Debug, Clone, Copy, PartialEq, Eq, Structural)]
pub struct ImportSummary {
    pub detected: usize,
    pub imported: usize,
    pub declined: usize,
    pub conflicts: usize,
    pub incomplete: usize,
    pub test_failed: usize,
}

/// The counters of an import summary.
pub enum SummaryField {
    Imported,
    Declined,
    Conflicts,
    Incomplete,
    TestFailed,
}

/// Whether an outcome counts toward a counter; a device imported after a
/// failed test counts as imported and as failed.
pub open spec fn counts_toward(o: CandidateOutcome, f: SummaryField) -> bool {
    match f {
        SummaryField::Imported => o == CandidateOutcome::Imported || o == CandidateOutcome::ImportedAfterFailedTest,
        SummaryField::Declined => o == CandidateOutcome::Declined,
        SummaryField::Conflicts => o == CandidateOutcome::Conflict,
        SummaryField::Incomplete => o == CandidateOutcome::Incomplete,
        SummaryField::TestFailed => o == CandidateOutcome::TestFailed || o == CandidateOutcome::ImportedAfterFailedTest,
    }
}

/// How many outcomes count toward `f`.
pub open spec fn count_outcomes(s: Seq<CandidateOutcome>, f: SummaryField) -> nat
    decreases s.len(),
{
    if s.len() == 0 {
        0
    } else {
        count_outcomes(s.drop_last(), f) + if counts_toward(s.last(), f) {
            1nat
        } else {
            0nat
        }
    }
}

proof fn lemma_count_outcomes_le(s: Seq<CandidateOutcome>, f: SummaryField)
    ensures
        count_outcomes(s, f) <= s.len(),
    decreases s.len(),
{
    if s.len() > 0 {
        lemma_count_outcomes_le(s.drop_last(), f);
    }
}

/// The summary of an import of `detected` candidates with these outcomes.
pub fn tally(detected: usize, outcomes: &Vec<CandidateOutcome>) -> (r: ImportSummary)
    ensures
        r.detected == detected,
        r.imported == count_outcomes(outcomes@, SummaryField::Imported),
        r.declined == count_outcomes(outcomes@, SummaryField::Declined),
        r.conflicts == count_outcomes(outcomes@, SummaryField::Conflicts),
        r.incomplete == count_outcomes(outcomes@, SummaryField::Incomplete),
        r.test_failed == count_outcomes(outcomes@, SummaryField::TestFailed),
{
    let mut r = ImportSummary { detected, imported: 0, declined: 0, conflicts: 0, incomplete: 0, test_failed: 0 };
    let mut i: usize = 0;
    while i < outcomes.len()
        invariant
            i <= outcomes@.len(),
            r.detected == detected,
            r.imported == count_outcomes(outcomes@.take(i as int), SummaryField::Imported),
            r.declined == count_outcomes(outcomes@.take(i as int), SummaryField::Declined),
            r.conflicts == count_outcomes(outcomes@.take(i as int), SummaryField::Conflicts),
            r.incomplete == count_outcomes(outcomes@.take(i as int), SummaryField::Incomplete),
            r.test_failed == count_outcomes(outcomes@.take(i as int), SummaryField::TestFailed),
        decreases outcomes@.len() - i,
    {
        proof {
            let t = outcomes@.take(i + 1);
            assert(t.drop_last() =~= outcomes@.take(i as int));
            lemma_count_outcomes_le(t, SummaryField::Imported);
            lemma_count_outcomes_le(t, SummaryField::Declined);
            lemma_count_outcomes_le(t, SummaryField::Conflicts);
            lemma_count_outcomes_le(t, SummaryField::Incomplete);
            lemma_count_outcomes_le(t, SummaryField::TestFailed);
        }
        match outcomes[i] {
            CandidateOutcome::Conflict => r.conflicts = r.conflicts + 1,
            CandidateOutcome::Declined => r.declined = r.declined + 1,
            CandidateOutcome::Incomplete => r.incomplete = r.incomplete + 1,
            CandidateOutcome::TestFailed => r.test_failed = r.test_failed + 1,
            CandidateOutcome::Imported => r.imported = r.imported + 1,
            CandidateOutcome::ImportedAfterFailedTest => {
                r.imported = r.imported + 1;
                r.test_failed = r.test_failed + 1;
            },
        }
        i += 1;
    }
    assert(outcomes@.take(outcomes@.len() as int) =~= outcomes@);
    r
}

/// Where an imported device's user name comes from.
#[derive(Debug)]
pub enum UsernameSource {
    /// The config names the user.
    Known(String),
    /// None is known and no one may be asked: the candidate is skipped.
    Skip,
    /// The user is asked.
    Ask,
}

/// The config's user when it is not blank; else the candidate is skipped
/// when no prompts are allowed, and the user is asked otherwise.
pub fn import_username(candidate: &SshImportCandidate, assume_yes: bool) -> (r: UsernameSource)
    ensures
        match candidate.username {
            Some(u) if trim(u@).len() > 0 => r matches UsernameSource::Known(v) && v@ == u@,
            _ => if assume_yes {
                r is Skip
            } else {
                r is Ask
            },
        },
{
    match &candidate.username {
        Some(u) => {
            if trim_str(u.as_str()).as_str().unicode_len() > 0 {
                return UsernameSource::Known(u.clone());
            }
        },
        None => {},
    }
    if assume_yes {
        UsernameSource::Skip
    } else {
        UsernameSource::Ask
    }
}

/// How an imported device's key is settled.
#[derive(Debug)]
pub enum KeySource {
    /// Use this key; `ask_secrets` tells whether passphrase and password
    /// are asked for.
    Use { path: String, ask_secrets: bool },
    /// Ask for a key path (or a password).
    Ask,
    /// No key and no prompts: the candidate is skipped.
    Skip,
}

/// The config's identity file, else the first default key; without either
/// the user is asked, or the candidate skipped when no prompts are allowed.
pub fn import_key_source(identity_file: &Option<String>, default_identity: &Option<String>, assume_yes: bool) -> (r: KeySource)
    ensures
        match (identity_file, default_identity) {
            (Some(p), _) | (None, Some(p)) => r matches KeySource::Use { path, ask_secrets } && path@ == p@ && ask_secrets == !assume_yes,
            (None, None) => if assume_yes {
                r is Skip
            } else {
                r is Ask
            },
        },
{
    let key: Option<String> = match identity_file {
        Some(p) => Some(p.clone()),
        None => crate::credentials::copy_opt_string(default_identity),
    };
    match key {
        Some(path) => KeySource::Use { path, ask_secrets: !assume_yes },
        None => {
            if assume_yes {
                KeySource::Skip
            } else {
                KeySource::Ask
            }
        },
    }
}

/// A typed path with `~`, `~/` or `~\` read against the home directory.
pub open spec fn expand_user_path_spec(value: Seq<char>, home: Seq<char>) -> Seq<char> {
    if value == "~"@ {
        home
    } else if value.len() >= 2 && value[0] == '~' && (value[1] == '/' || value[1] == '\\') {
        crate::paths::path_joined(home, value.skip(2))
    } else {
        value
    }
}

pub fn expand_user_path(value: &str, home: &str) -> (r: String)
    ensures
        r@ == expand_user_path_spec(value@, home@),
{
    proof {
        reveal_strlit("~");
    }
    let v = chars_of(value);
    if chars_eq_str(&v, "~") {
        home.to_owned()
    } else if v.len() >= 2 && v[0] == '~' && (v[1] == '/' || v[1] == '\\') {
        let rest = crate::text::string_of(&crate::text::chars_range(&v, 2, v.len()));
        assert(v@.subrange(2, v@.len() as int) =~= v@.skip(2));
        crate::paths::join_path(home, rest.as_str())
    } else {
        value.to_owned()
    }
}

/// The SSH device an import creates: unattended imports get the Generic OS
/// and strict host key checks, others the chosen OS and AcceptNew.
pub fn import_device(
    candidate: &SshImportCandidate,
    username: String,
    key_path: Option<String>,
    password: Option<String>,
    key_passphrase: Option<String>,
    os_type: OsType,
    assume_yes: bool,
) -> (d: Device)
    ensures
        d.name@ == candidate.name@,
        d.host@ == candidate.host@,
        d.port == candidate.port,
        d.username == username,
        d.password == password,
        d.key_path == key_path,
        d.key_passphrase == key_passphrase,
        d.connection_type == ConnectionType::Ssh,
        !d.sudo_capable,
        !d.sudo_password_required,
        d.os_type == (if assume_yes {
            OsType::Generic
        } else {
            os_type
        }),
        d.host_key_policy == (if assume_yes {
            HostKeyPolicy::Strict
        } else {
            HostKeyPolicy::AcceptNew
        }),
{
    Device {
        name: candidate.name.clone(),
        host: candidate.host.clone(),
        port: candidate.port,
        username,
        password,
        key_path,
        key_passphrase,
        connection_type: ConnectionType::Ssh,
        sudo_capable: false,
        sudo_password_required: false,
        os_type: if assume_yes {
            OsType::Generic
        } else {
            os_type
        },
        host_key_policy: if assume_yes {
            HostKeyPolicy::Strict
        } else {
            HostKeyPolicy::AcceptNew
        },
    }
}

// ------------------------------------------------------------ run a command
/// Command words joined by single spaces.
pub open spec fn join_words(ws: Seq<Seq<char>>) -> Seq<char>
    decreases ws.len(),
{
    if ws.len() == 0 {
        Seq::empty()
    } else if ws.len() == 1 {
        ws[0]
    } else {
        join_words(ws.drop_last()) + " "@ + ws.last()
    }
}

/// Joins command words with single spaces.
pub fn join_command(words: &[String]) -> (r: String)
    ensures
        r@ == join_words(crate::text::string_views(words@)),
{
    proof {
        reveal_strlit(" ");
    }
    let ghost ws = crate::text::string_views(words@);
    let mut r = String::new();
    let mut i: usize = 0;
    while i < words.len()
        invariant
            i <= words@.len(),
            ws == crate::text::string_views(words@),
            r@ == join_words(ws.take(i as int)),
        decreases words@.len() - i,
    {
        proof {
            assert(ws.take(i + 1).drop_last() =~= ws.take(i as int));
            assert(ws[i as int] == words@[i as int]@);
        }
        if i > 0 {
            r = r.concat(" ");
        }
        r = r.concat(words[i].as_str());
        proof {
            if i == 0 {
                assert(r@ =~= join_words(ws.take(1)));
            }
        }
        i += 1;
    }
    assert(ws.take(words@.len() as int) =~= ws);
    r
}

/// What the words after the program name ask for, when they are no
/// subcommand.
#[derive(Debug)]
pub enum ExternalPlan {
    /// No words: the caller prints a hint and exits with status 1.
    NothingGiven,
    /// Run the command words on the device named first.
    Run { device: String, command_args: Vec<String> },
}

/// The message for a device name given without a command.
pub open spec fn missing_command_message(device: Seq<char>) -> Seq<char> {
    "No remote command provided for device '"@ + device + "'. Usage: teleprompt "@ + device + " <command>..."@
}

/// Reads the words after the program name as a device name and a command.
pub fn plan_external(args: &Vec<String>) -> (r: Result<ExternalPlan, TelepromptError>)
    ensures
        args@.len() == 0 ==> r matches Ok(ExternalPlan::NothingGiven),
        args@.len() == 1 ==> (r matches Err(TelepromptError::Cli(msg)) && msg@ == missing_command_message(args@[0]@)),
        args@.len() >= 2 ==> (r matches Ok(ExternalPlan::Run { device, command_args }) && device@ == args@[0]@
            && crate::text::string_views(command_args@) == crate::text::string_views(args@.skip(1))),
{
    if args.len() == 0 {
        return Ok(ExternalPlan::NothingGiven);
    }
    let device = args[0].clone();
    if args.len() == 1 {
        let msg = "No remote command provided for device '".to_owned().concat(device.as_str()).concat(
            "'. Usage: teleprompt ",
        ).concat(device.as_str()).concat(" <command>...");
        proof {
            reveal_strlit("No remote command provided for device '");
            reveal_strlit("'. Usage: teleprompt ");
            reveal_strlit(" <command>...");
        }
        return Err(TelepromptError::Cli(msg));
    }
    let mut command_args: Vec<String> = Vec::new();
    let mut i: usize = 1;
    while i < args.len()
        invariant
            1 <= i <= args@.len(),
            command_args@.len() == i - 1,
            forall|j: int| 0 <= j < i - 1 ==> #[trigger] command_args@[j]@ == args@[j + 1]@,
        decreases args@.len() - i,
    {
        command_args.push(args[i].clone());
        i += 1;
    }
    assert(crate::text::string_views(command_args@) =~= crate::text::string_views(args@.skip(1)));
    Ok(ExternalPlan::Run { device, command_args })
}

/// The device a command runs on and the command line sent to it: the
/// device must be registered, and at least one command word given.
pub fn command_for_device(store: &CredentialStore, name: &str, command_args: &[String]) -> (r: Result<(Device, String), TelepromptError>)
    ensures
        !store.view().contains_key(name@) ==> (r matches Err(TelepromptError::DeviceNotFound(n)) && n@ == name@),
        store.view().contains_key(name@) && command_args@.len() == 0 ==> (r matches Err(TelepromptError::Cli(msg))
            && msg@ == "No remote command provided"@),
        store.view().contains_key(name@) && command_args@.len() > 0 ==> (r matches Ok((d, c)) && d == store.view()[name@]
            && c@ == join_words(crate::text::string_views(command_args@))),
{
    let device = match store.get(name) {
        Some(d) => d,
        None => {
            return Err(TelepromptError::DeviceNotFound(name.to_owned()));
        },
    };
    if command_args.len() == 0 {
        return Err(TelepromptError::Cli("No remote command provided".to_owned()));
    }
    let command = join_command(command_args);
    Ok((device.duplicate(), command))
}

} // verus!
