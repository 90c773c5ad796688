//! Device records and the credential store that holds them by name.
use vstd::prelude::*;

use crate::error::TelepromptError;
use crate::text::{ascii_lower, ascii_lower_chars, chars_eq_str, chars_of, str_equal, trim, trim_str};

verus! {

/// How a device's SSH host key is verified.
#[derive(Debug, Clone, Copy, PartialEq, Eq, Structural)]
pub enum HostKeyPolicy {
    /// Reject the connection if the host is unknown or its key differs.
    Strict,
    /// Accept and record unknown hosts, verify known ones.
    AcceptNew,
    /// Skip host key verification (insecure).
    Off,
}

impl Default for HostKeyPolicy {
    fn default() -> (p: Self)
        ensures
            p == HostKeyPolicy::AcceptNew,
    {
        HostKeyPolicy::AcceptNew
    }
}

/// The protocol used to reach a device.
#[derive(Debug, Clone, Copy, PartialEq, Eq, Structural)]
pub enum ConnectionType {
    Ssh,
    Telnet,
}

/// The operating system of a device, which decides its command syntax.
#[derive(Debug, Clone, Copy, PartialEq, Eq, Structural)]
pub enum OsType {
    Linux,
    Windows,
    RouterOs,
    CiscoIos,
    JunOs,
    Generic,
}

impl Default for OsType {
    fn default() -> (o: Self)
        ensures
            o == OsType::Generic,
    {
        OsType::Generic
    }
}

pub open spec fn os_display_name(o: OsType) -> Seq<char> {
    match o {
        OsType::Linux => "Linux"@,
        OsType::Windows => "Windows"@,
        OsType::RouterOs => "RouterOS (MikroTik)"@,
        OsType::CiscoIos => "Cisco IOS"@,
        OsType::JunOs => "JunOS"@,
        OsType::Generic => "Generic/Other"@,
    }
}

/// The menu digit that selects an OS type.
pub open spec fn os_menu_digit(o: OsType) -> char {
    match o {
        OsType::Linux => '1',
        OsType::Windows => '2',
        OsType::RouterOs => '3',
        OsType::CiscoIos => '4',
        OsType::JunOs => '5',
        OsType::Generic => '6',
    }
}

/// The OS type that a menu answer selects, if any.
pub open spec fn os_for_menu_answer(a: Seq<char>) -> Option<OsType> {
    if a == "1"@ {
        Some(OsType::Linux)
    } else if a == "2"@ {
        Some(OsType::Windows)
    } else if a == "3"@ {
        Some(OsType::RouterOs)
    } else if a == "4"@ {
        Some(OsType::CiscoIos)
    } else if a == "5"@ {
        Some(OsType::JunOs)
    } else if a == "6"@ {
        Some(OsType::Generic)
    } else {
        None
    }
}

/// Each OS type has its own menu digit, and answering with it selects that
/// type; an answer selects a type only when it is that type's digit.
pub proof fn law_os_menu_digits(o: OsType)
    ensures
        os_for_menu_answer(seq![os_menu_digit(o)]) == Some(o),
        forall|a: Seq<char>| #[trigger] os_for_menu_answer(a) == Some(o) ==> a == seq![os_menu_digit(o)],
{
    reveal_strlit("1");
    reveal_strlit("2");
    reveal_strlit("3");
    reveal_strlit("4");
    reveal_strlit("5");
    reveal_strlit("6");
    assert(seq!['1'] =~= "1"@);
    assert(seq!['2'] =~= "2"@);
    assert(seq!['3'] =~= "3"@);
    assert(seq!['4'] =~= "4"@);
    assert(seq!['5'] =~= "5"@);
    assert(seq!['6'] =~= "6"@);
    let d = seq![os_menu_digit(o)];
    assert(d != "1"@ ==> os_menu_digit(o) != '1');
    assert(d[0] == os_menu_digit(o));
    assert("1"@[0] == '1' && "2"@[0] == '2' && "3"@[0] == '3' && "4"@[0] == '4' && "5"@[0] == '5');
    assert forall|a: Seq<char>| #[trigger] os_for_menu_answer(a) == Some(o) implies a == seq![os_menu_digit(o)] by {
        if a == "1"@ {
        } else if a == "2"@ {
            assert(a[0] != '1');
        } else if a == "3"@ {
            assert(a[0] != '1' && a[0] != '2');
        } else if a == "4"@ {
            assert(a[0] != '1' && a[0] != '2' && a[0] != '3');
        } else if a == "5"@ {
            assert(a[0] != '1' && a[0] != '2' && a[0] != '3' && a[0] != '4');
        } else if a == "6"@ {
            assert(a[0] != '1' && a[0] != '2' && a[0] != '3' && a[0] != '4' && a[0] != '5');
        }
    }
}

/// The OS type that a typed name selects (`linux`, `windows`, `routeros`,
/// `cisco`/`ciscoios`, `junos`, `generic` or nothing), ASCII case ignored.
pub open spec fn os_for_name(a: Seq<char>) -> Option<OsType> {
    let l = ascii_lower(a);
    if l.len() == 0 || l == "generic"@ {
        Some(OsType::Generic)
    } else if l == "linux"@ {
        Some(OsType::Linux)
    } else if l == "windows"@ {
        Some(OsType::Windows)
    } else if l == "routeros"@ {
        Some(OsType::RouterOs)
    } else if l == "cisco"@ || l == "ciscoios"@ {
        Some(OsType::CiscoIos)
    } else if l == "junos"@ {
        Some(OsType::JunOs)
    } else {
        None
    }
}

impl OsType {
    /// The name under which the OS type is shown to users.
    pub fn display_name(&self) -> (s: String)
        ensures
            s@ == os_display_name(*self),
    {
        let s = match self {
            OsType::Linux => "Linux",
            OsType::Windows => "Windows",
            OsType::RouterOs => "RouterOS (MikroTik)",
            OsType::CiscoIos => "Cisco IOS",
            OsType::JunOs => "JunOS",
            OsType::Generic => "Generic/Other",
        };
        s.to_owned()
    }

    /// The answer to the OS menu: the trimmed input, or the digit of the
    /// current type (Generic when none) if it is empty, mapped `1`..`6`;
    /// `None` for any other answer, which asks again.
    pub fn select_from_menu(input: &str, current: Option<OsType>) -> (r: Option<OsType>)
        ensures
            r == os_for_menu_answer(
                if trim(input@).len() == 0 {
                    seq![os_menu_digit(current.unwrap_or(OsType::Generic))]
                } else {
                    trim(input@)
                },
            ),
            trim(input@).len() == 0 ==> r == Some(current.unwrap_or(OsType::Generic)),
    {
        proof {
            law_os_menu_digits(current.unwrap_or(OsType::Generic));
        }
        let t = chars_of(&trim_str(input));
        let answer: Vec<char> = if t.len() == 0 {
            let d = match current {
                Some(OsType::Linux) => '1',
                Some(OsType::Windows) => '2',
                Some(OsType::RouterOs) => '3',
                Some(OsType::CiscoIos) => '4',
                Some(OsType::JunOs) => '5',
                None | Some(OsType::Generic) => '6',
            };
            let mut a: Vec<char> = Vec::new();
            a.push(d);
            assert(a@ =~= seq![d]);
            a
        } else {
            t
        };
        proof {
            reveal_strlit("1");
            reveal_strlit("2");
            reveal_strlit("3");
            reveal_strlit("4");
            reveal_strlit("5");
            reveal_strlit("6");
        }
        if chars_eq_str(&answer, "1") {
            Some(OsType::Linux)
        } else if chars_eq_str(&answer, "2") {
            Some(OsType::Windows)
        } else if chars_eq_str(&answer, "3") {
            Some(OsType::RouterOs)
        } else if chars_eq_str(&answer, "4") {
            Some(OsType::CiscoIos)
        } else if chars_eq_str(&answer, "5") {
            Some(OsType::JunOs)
        } else if chars_eq_str(&answer, "6") {
            Some(OsType::Generic)
        } else {
            None
        }
    }

    /// The OS type named by a typed answer, as the import prompt reads it.
    pub fn from_name(input: &str) -> (r: Option<OsType>)
        ensures
            r == os_for_name(input@),
    {
        let l = ascii_lower_chars(&chars_of(input));
        if l.len() == 0 || chars_eq_str(&l, "generic") {
            Some(OsType::Generic)
        } else if chars_eq_str(&l, "linux") {
            Some(OsType::Linux)
        } else if chars_eq_str(&l, "windows") {
            Some(OsType::Windows)
        } else if chars_eq_str(&l, "routeros") {
            Some(OsType::RouterOs)
        } else if chars_eq_str(&l, "cisco") || chars_eq_str(&l, "ciscoios") {
            Some(OsType::CiscoIos)
        } else if chars_eq_str(&l, "junos") {
            Some(OsType::JunOs)
        } else {
            None
        }
    }
}

/// How a device authenticates, as the device list shows it.
pub open spec fn auth_label_spec(d: Device) -> Seq<char> {
    match d.key_path {
        Some(_) => if d.key_passphrase is Some {
            "key (encrypted)"@
        } else {
            "key"@
        },
        None => "password"@,
    }
}

/// `key (encrypted)` for a key with a stored passphrase, `key` for a key,
/// `password` otherwise.
pub fn auth_label(device: &Device) -> (s: &'static str)
    ensures
        s@ == auth_label_spec(*device),
{
    match &device.key_path {
        Some(_) => {
            if device.key_passphrase.is_some() {
                "key (encrypted)"
            } else {
                "key"
            }
        },
        None => "password",
    }
}

/// Sudo capability is probed only for SSH devices running Linux.
pub fn should_detect_sudo(connection_type: &ConnectionType, os_type: OsType) -> (b: bool)
    ensures
        b == (*connection_type == ConnectionType::Ssh && os_type == OsType::Linux),
{
    *connection_type == ConnectionType::Ssh && os_type == OsType::Linux
}

/// A registered remote device and the credentials that reach it.
#[derive(Debug, Clone)]
pub struct Device {
    pub name: String,
    pub host: String,
    pub port: u16,
    pub username: String,
    pub password: Option<String>,
    pub key_path: Option<String>,
    pub key_passphrase: Option<String>,
    pub connection_type: ConnectionType,
    pub sudo_capable: bool,
    pub sudo_password_required: bool,
    pub os_type: OsType,
    pub host_key_policy: HostKeyPolicy,
}

/// The message for a device that is not configured for `expected`.
pub open spec fn wrong_protocol_message(expected: ConnectionType) -> Seq<char> {
    match expected {
        ConnectionType::Ssh => "Device is not configured for SSH"@,
        ConnectionType::Telnet => "Device is not configured for Telnet"@,
    }
}

/// Refuses a device that is not configured for the protocol about to be
/// used.
pub fn check_connection_type(device: &Device, expected: ConnectionType) -> (r: Result<(), TelepromptError>)
    ensures
        device.connection_type == expected <==> r is Ok,
        device.connection_type != expected ==> (r matches Err(TelepromptError::Other(m)) && m@
            == wrong_protocol_message(expected)),
{
    if device.connection_type == expected {
        Ok(())
    } else {
        match expected {
            ConnectionType::Ssh => Err(TelepromptError::Other("Device is not configured for SSH".to_owned())),
            ConnectionType::Telnet => Err(TelepromptError::Other("Device is not configured for Telnet".to_owned())),
        }
    }
}

pub fn copy_opt_string(o: &Option<String>) -> (r: Option<String>)
    ensures
        r == *o,
{
    match o {
        Some(s) => Some(s.clone()),
        None => None,
    }
}

impl Device {
    /// An identical copy of the device.
    pub fn duplicate(&self) -> (d: Device)
        ensures
            d == *self,
    {
        Device {
            name: self.name.clone(),
            host: self.host.clone(),
            port: self.port,
            username: self.username.clone(),
            password: copy_opt_string(&self.password),
            key_path: copy_opt_string(&self.key_path),
            key_passphrase: copy_opt_string(&self.key_passphrase),
            connection_type: self.connection_type,
            sudo_capable: self.sudo_capable,
            sudo_password_required: self.sudo_password_required,
            os_type: self.os_type,
            host_key_policy: self.host_key_policy,
        }
    }
}


/// The map of devices that a sequence of `(name, device)` entries holds,
/// later entries taking precedence.
pub open spec fn entries_map(e: Seq<(String, Device)>) -> Map<Seq<char>, Device>
    decreases e.len(),
{
    if e.len() == 0 {
        Map::empty()
    } else {
        entries_map(e.drop_last()).insert(e.last().0@, e.last().1)
    }
}

pub open spec fn distinct_keys(e: Seq<(String, Device)>) -> bool {
    forall|i: int, j: int|
        0 <= i < e.len() && 0 <= j < e.len() && i != j ==> #[trigger] e[i].0@ != #[trigger] e[j].0@
}

pub proof fn lemma_entries_map_index(e: Seq<(String, Device)>, i: int)
    requires
        distinct_keys(e),
        0 <= i < e.len(),
    ensures
        entries_map(e).contains_key(e[i].0@),
        entries_map(e)[e[i].0@] == e[i].1,
    decreases e.len(),
{
    if i < e.len() - 1 {
        let d = e.drop_last();
        assert(distinct_keys(d)) by {
            assert forall|a: int, b: int|
                0 <= a < d.len() && 0 <= b < d.len() && a != b implies #[trigger] d[a].0@
                != #[trigger] d[b].0@ by {
                assert(d[a] == e[a] && d[b] == e[b]);
            }
        }
        lemma_entries_map_index(d, i);
        assert(e[i].0@ != e[e.len() - 1].0@);
        assert(d[i] == e[i]);
    }
}

pub proof fn lemma_entries_map_keys(e: Seq<(String, Device)>, k: Seq<char>)
    ensures
        entries_map(e).contains_key(k) <==> exists|i: int| 0 <= i < e.len() && #[trigger] e[i].0@ == k,
    decreases e.len(),
{
    if e.len() > 0 {
        let d = e.drop_last();
        lemma_entries_map_keys(d, k);
        if entries_map(e).contains_key(k) {
            if k == e.last().0@ {
                assert(e[e.len() - 1].0@ == k);
            } else {
                let i = choose|i: int| 0 <= i < d.len() && #[trigger] d[i].0@ == k;
                assert(e[i] == d[i]);
            }
        }
        if exists|i: int| 0 <= i < e.len() && #[trigger] e[i].0@ == k {
            let i = choose|i: int| 0 <= i < e.len() && #[trigger] e[i].0@ == k;
            if i < e.len() - 1 {
                assert(d[i] == e[i]);
            }
        }
    }
}

pub proof fn lemma_distinct_drop_last(e: Seq<(String, Device)>)
    requires
        distinct_keys(e),
        e.len() > 0,
    ensures
        distinct_keys(e.drop_last()),
{
    let d = e.drop_last();
    assert forall|a: int, b: int|
        0 <= a < d.len() && 0 <= b < d.len() && a != b implies #[trigger] d[a].0@
        != #[trigger] d[b].0@ by {
        assert(d[a] == e[a] && d[b] == e[b]);
    }
}

pub proof fn lemma_entries_map_update(e: Seq<(String, Device)>, i: int, entry: (String, Device))
    requires
        distinct_keys(e),
        0 <= i < e.len(),
        entry.0@ == e[i].0@,
    ensures
        entries_map(e.update(i, entry)) == entries_map(e).insert(entry.0@, entry.1),
        distinct_keys(e.update(i, entry)),
    decreases e.len(),
{
    let u = e.update(i, entry);
    assert(distinct_keys(u)) by {
        assert forall|a: int, b: int|
            0 <= a < u.len() && 0 <= b < u.len() && a != b implies #[trigger] u[a].0@
            != #[trigger] u[b].0@ by {
            assert(u[a].0@ == e[a].0@ && u[b].0@ == e[b].0@);
        }
    }
    if i == e.len() - 1 {
        assert(u.drop_last() =~= e.drop_last());
        assert(entries_map(u) =~= entries_map(e).insert(entry.0@, entry.1));
    } else {
        lemma_distinct_drop_last(e);
        lemma_entries_map_update(e.drop_last(), i, entry);
        assert(u.drop_last() =~= e.drop_last().update(i, entry));
        assert(e.last().0@ != entry.0@) by {
            assert(e[e.len() - 1].0@ != e[i].0@);
        }
        assert(entries_map(u) =~= entries_map(e).insert(entry.0@, entry.1));
    }
}

pub proof fn lemma_entries_map_remove(e: Seq<(String, Device)>, i: int)
    requires
        distinct_keys(e),
        0 <= i < e.len(),
    ensures
        entries_map(e.remove(i)) == entries_map(e).remove(e[i].0@),
        distinct_keys(e.remove(i)),
    decreases e.len(),
{
    let r = e.remove(i);
    assert(distinct_keys(r)) by {
        assert forall|a: int, b: int|
            0 <= a < r.len() && 0 <= b < r.len() && a != b implies #[trigger] r[a].0@
            != #[trigger] r[b].0@ by {
            let a2 = if a < i { a } else { a + 1 };
            let b2 = if b < i { b } else { b + 1 };
            assert(r[a] == e[a2] && r[b] == e[b2]);
        }
    }
    let k = e[i].0@;
    if i == e.len() - 1 {
        assert(r =~= e.drop_last());
        lemma_distinct_drop_last(e);
        assert(!entries_map(r).contains_key(k)) by {
            lemma_entries_map_keys(r, k);
            if exists|j: int| 0 <= j < r.len() && #[trigger] r[j].0@ == k {
                let j = choose|j: int| 0 <= j < r.len() && #[trigger] r[j].0@ == k;
                assert(r[j] == e[j]);
            }
        }
        assert(entries_map(r) =~= entries_map(e).remove(k));
    } else {
        lemma_distinct_drop_last(e);
        lemma_entries_map_remove(e.drop_last(), i);
        assert(r.drop_last() =~= e.drop_last().remove(i));
        assert(r.last() == e.last());
        assert(e.last().0@ != k) by {
            assert(e[e.len() - 1].0@ != e[i].0@);
        }
        assert(entries_map(r) =~= entries_map(e).remove(k));
    }
}

pub proof fn lemma_dom_len(e: Seq<(String, Device)>)
    requires
        distinct_keys(e),
    ensures
        entries_map(e).dom().finite(),
        entries_map(e).dom().len() == e.len(),
    decreases e.len(),
{
    if e.len() > 0 {
        let d = e.drop_last();
        lemma_distinct_drop_last(e);
        lemma_dom_len(d);
        lemma_entries_map_keys(d, e.last().0@);
        if exists|i: int| 0 <= i < d.len() && #[trigger] d[i].0@ == e.last().0@ {
            let i = choose|i: int| 0 <= i < d.len() && #[trigger] d[i].0@ == e.last().0@;
            assert(d[i] == e[i]);
            assert(e[e.len() - 1].0@ != e[i].0@);
        }
        assert(entries_map(e).dom() =~= entries_map(d).dom().insert(e.last().0@));
    }
}

/// The registered devices, each under a distinct name.
pub struct CredentialStore {
    entries: Vec<(String, Device)>,
}

impl CredentialStore {
    #[verifier::type_invariant]
    spec fn keys_distinct(self) -> bool {
        distinct_keys(self.entries@)
    }

    /// The devices by name.
    pub closed spec fn view(&self) -> Map<Seq<char>, Device> {
        entries_map(self.entries@)
    }

    /// An empty store.
    pub fn new() -> (s: CredentialStore)
        ensures
            s.view() == Map::<Seq<char>, Device>::empty(),
    {
        CredentialStore { entries: Vec::new() }
    }

    fn find(&self, name: &str) -> (r: Option<usize>)
        ensures
            match r {
                Some(i) => i < self.entries@.len() && self.entries@[i as int].0@ == name@,
                None => forall|i: int|
                    0 <= i < self.entries@.len() ==> #[trigger] self.entries@[i].0@ != name@,
            },
    {
        let mut i: usize = 0;
        while i < self.entries.len()
            invariant
                i <= self.entries@.len(),
                forall|j: int| 0 <= j < i ==> #[trigger] self.entries@[j].0@ != name@,
            decreases self.entries@.len() - i,
        {
            if str_equal(self.entries[i].0.as_str(), name) {
                return Some(i);
            }
            i += 1;
        }
        None
    }

    /// Whether a device is registered under `name`.
    pub fn contains_key(&self, name: &str) -> (b: bool)
        ensures
            b == self.view().contains_key(name@),
    {
        proof {
            lemma_entries_map_keys(self.entries@, name@);
        }
        self.find(name).is_some()
    }

    /// The device registered under `name`, if any.
    pub fn get(&self, name: &str) -> (r: Option<&Device>)
        ensures
            match r {
                Some(d) => self.view().contains_key(name@) && *d == self.view()[name@],
                None => !self.view().contains_key(name@),
            },
    {
        proof {
            use_type_invariant(self);
            lemma_entries_map_keys(self.entries@, name@);
        }
        match self.find(name) {
            Some(i) => {
                proof {
                    lemma_entries_map_index(self.entries@, i as int);
                }
                Some(&self.entries[i].1)
            },
            None => None,
        }
    }

    /// Registers `device` under `name`, replacing any device of that name.
    pub fn insert(&mut self, name: String, device: Device)
        ensures
            final(self).view() == old(self).view().insert(name@, device),
            final(self).view().dom().finite(),
    {
        proof {
            use_type_invariant(&*self);
            lemma_dom_len(self.entries@);
            lemma_entries_map_keys(self.entries@, name@);
        }
        let ghost e = self.entries@;
        match self.find(name.as_str()) {
            Some(i) => {
                proof {
                    lemma_entries_map_update(e, i as int, (name, device));
                }
                let mut entries: Vec<(String, Device)> = Vec::new();
                std::mem::swap(&mut entries, &mut self.entries);
                entries.set(i, (name, device));
                self.entries = entries;
            },
            None => {
                let ghost entry = (name, device);
                let mut entries: Vec<(String, Device)> = Vec::new();
                std::mem::swap(&mut entries, &mut self.entries);
                entries.push((name, device));
                proof {
                    assert(entries@.drop_last() =~= e);
                    assert(distinct_keys(entries@)) by {
                        assert forall|a: int, b: int|
                            0 <= a < entries@.len() && 0 <= b < entries@.len() && a != b implies #[trigger] entries@[a].0@
                            != #[trigger] entries@[b].0@ by {
                            if a < e.len() && b < e.len() {
                                assert(entries@[a] == e[a] && entries@[b] == e[b]);
                            } else if a < e.len() {
                                assert(entries@[a] == e[a]);
                            } else {
                                assert(entries@[b] == e[b]);
                            }
                        }
                    }
                }
                self.entries = entries;
            },
        }
    }

    /// Removes the device registered under `name`, returning it.
    pub fn remove(&mut self, name: &str) -> (r: Option<Device>)
        ensures
            final(self).view() == old(self).view().remove(name@),
            final(self).view().dom().finite(),
            match r {
                Some(d) => old(self).view().contains_key(name@) && d == old(self).view()[name@],
                None => !old(self).view().contains_key(name@),
            },
    {
        proof {
            use_type_invariant(&*self);
            lemma_dom_len(self.entries@);
            lemma_entries_map_keys(self.entries@, name@);
        }
        let ghost e = self.entries@;
        match self.find(name) {
            Some(i) => {
                proof {
                    lemma_entries_map_remove(e, i as int);
                    lemma_entries_map_index(e, i as int);
                }
                let mut entries: Vec<(String, Device)> = Vec::new();
                std::mem::swap(&mut entries, &mut self.entries);
                let (_, d) = entries.remove(i);
                self.entries = entries;
                Some(d)
            },
            None => {
                proof {
                    assert(entries_map(e).remove(name@) =~= entries_map(e));
                }
                None
            },
        }
    }

    /// The number of registered devices.
    pub fn len(&self) -> (n: usize)
        ensures
            self.view().dom().finite(),
            n == self.view().dom().len(),
    {
        proof {
            use_type_invariant(self);
            lemma_dom_len(self.entries@);
        }
        self.entries.len()
    }

    /// Whether no device is registered.
    pub fn is_empty(&self) -> (b: bool)
        ensures
            b == (self.view().dom().len() == 0),
    {
        self.len() == 0
    }
}


/// Reading a store after writing to it. In `inserted`, the store that
/// `insert(name, device)` leaves of `before`, `get(name)` gives `device`,
/// every other name reads as before, and the number of devices grows by one
/// exactly when `name` was new. In `removed`, the store that `remove(name)`
/// then leaves, `name` is gone, other names read as before the insert, and
/// when `name` was new the store is back to `before`.
pub proof fn law_store_read_after_write(
    before: CredentialStore,
    inserted: CredentialStore,
    removed: CredentialStore,
    name: Seq<char>,
    device: Device,
    other: Seq<char>,
)
    requires
        before.view().dom().finite(),
        inserted.view() == before.view().insert(name, device),
        removed.view() == inserted.view().remove(name),
        other != name,
    ensures
        inserted.view().contains_key(name) && inserted.view()[name] == device,
        inserted.view().contains_key(other) == before.view().contains_key(other),
        before.view().contains_key(other) ==> inserted.view()[other] == before.view()[other],
        inserted.view().dom().len() == before.view().dom().len() + (if before.view().contains_key(name) {
            0int
        } else {
            1int
        }),
        !removed.view().contains_key(name),
        removed.view().contains_key(other) == before.view().contains_key(other),
        before.view().contains_key(other) ==> removed.view()[other] == before.view()[other],
        !before.view().contains_key(name) ==> removed.view() == before.view(),
{
    if before.view().contains_key(name) {
        assert(inserted.view().dom() =~= before.view().dom());
    } else {
        assert(before.view().insert(name, device).remove(name) =~= before.view());
    }
}

impl CredentialStore {
    /// Copies of all `(name, device)` entries, each name once.
    pub fn entries(&self) -> (r: Vec<(String, Device)>)
        ensures
            forall|i: int| 0 <= i < r@.len() ==> self.view().contains_key(#[trigger] r@[i].0@)
                && self.view()[r@[i].0@] == r@[i].1,
            forall|k: Seq<char>| #[trigger] self.view().contains_key(k) ==> exists|i: int|
                0 <= i < r@.len() && #[trigger] r@[i].0@ == k,
            distinct_keys(r@),
    {
        proof {
            use_type_invariant(self);
        }
        let mut r: Vec<(String, Device)> = Vec::new();
        let mut i: usize = 0;
        while i < self.entries.len()
            invariant
                i <= self.entries@.len(),
                distinct_keys(self.entries@),
                r@.len() == i,
                forall|j: int| 0 <= j < i ==> #[trigger] r@[j] == self.entries@[j],
            decreases self.entries@.len() - i,
        {
            let name = self.entries[i].0.clone();
            let d = self.entries[i].1.duplicate();
            r.push((name, d));
            i += 1;
        }
        proof {
            assert(r@ =~= self.entries@);
            assert forall|j: int| 0 <= j < r@.len() implies self.view().contains_key(#[trigger] r@[j].0@)
                && self.view()[r@[j].0@] == r@[j].1 by {
                lemma_entries_map_index(self.entries@, j);
            }
            assert forall|k: Seq<char>| #[trigger] self.view().contains_key(k) implies exists|j: int|
                0 <= j < r@.len() && #[trigger] r@[j].0@ == k by {
                lemma_entries_map_keys(self.entries@, k);
            }
        }
        r
    }
}

} // verus!
