//! The SSH import as a state machine. Each step takes what the caller was
//! told or found out, and says what to do next: show something, ask
//! something, test a device, or finish. Every candidate ends with exactly
//! one outcome, and only imported devices enter the store.
use vstd::prelude::*;

use crate::commands::{
    can_import_unattended, check_import_flags, conflicts_with, count_outcomes, expand_user_path,
    expand_user_path_spec, import_device, import_key_source, import_username, CandidateOutcome,
    ImportSession, ImportSummary, KeySource, SummaryField, UsernameSource, tally,
};
use crate::credentials::{ConnectionType, Device, HostKeyPolicy, OsType};
use crate::error::TelepromptError;
use crate::ssh_config::{
    default_identity_names, default_identity_paths, first_default_identity, opt_string,
    SshImportCandidate,
};
use crate::text::ascii_lower;

verus! {

/// Why a candidate ends without being imported.
#[derive(Debug, Clone, Copy, PartialEq, Eq, Structural)]
pub enum SkipReason {
    /// Its name or endpoint is reserved or taken.
    Conflict,
    /// The user declined it.
    Declined,
    /// An unattended import has no known_hosts trust for it.
    Untrusted,
    /// User or credentials could not be settled.
    Incomplete,
    /// Its connection test failed.
    TestFailed,
}

/// What the caller does next.
#[derive(Debug)]
pub enum ImportAction {
    /// Candidate `index` is skipped for `reason`; then call `next`.
    Skipped { index: usize, reason: SkipReason },
    /// Show candidate `index`; then call `next`.
    Announce { index: usize },
    /// Call `next`.
    Continue,
    /// Ask whether to import the shown candidate; answer with `on_confirm`.
    Confirm,
    /// Ask for a user name, not empty; answer with `on_username`.
    AskUsername,
    /// Find out which of these files exist as regular files; answer with
    /// `on_identity_files`.
    FindIdentity { paths: Vec<String> },
    /// Say that this key file is used; then call `next`.
    UsingKey { path: String },
    /// Ask for a key path, empty for a password; answer with `on_key_path`.
    AskKeyPath,
    /// Ask for the key passphrase, optional; answer with `on_passphrase`.
    AskPassphrase,
    /// Ask for a password, optional: a fallback beside a key, or the only
    /// credential; answer with `on_password`.
    AskPassword { fallback: bool },
    /// Ask for the OS type; answer with `on_os_type`.
    AskOsType,
    /// Add these lines to known_hosts, then test and prepare the device;
    /// answer with `on_tested`.
    Test { device: Device, known_host_lines: Vec<String> },
    /// Ask whether to keep the device whose test failed; answer with
    /// `on_save_anyway`.
    AskSaveAnyway,
    /// Candidate `index` was imported; then call `next`.
    Imported { index: usize },
    /// Every candidate is done; the store is saved when `save`.
    Finished { summary: ImportSummary, save: bool },
}

/// Where the import stands.
#[derive(Debug, Clone, Copy, PartialEq, Eq, Structural)]
pub enum ImportPhase {
    /// The candidate at the current index comes next.
    Screen,
    /// The current candidate was shown.
    Announced,
    Confirming,
    /// The user name is settled next.
    ChoosingUser,
    AskingUsername,
    /// The key is settled next.
    ChoosingKey,
    FindingIdentity,
    /// The key was named; its secrets are asked for when `ask_secrets`.
    KeyChosen { ask_secrets: bool },
    AskingKeyPath,
    AskingPassphrase,
    AskingPassword { fallback: bool },
    /// The OS type is settled next.
    ChoosingOs,
    AskingOsType,
    /// The device is built and tested next.
    Ready,
    Testing,
    AskingSaveAnyway,
    Done,
}

/// Whether a candidate in phase `p` has no key, passphrase or password
/// settled yet: each candidate starts without them.
pub open spec fn settles_nothing_yet(p: ImportPhase) -> bool {
    ||| p == ImportPhase::Screen
    ||| p == ImportPhase::Done
    ||| p == ImportPhase::Announced
    ||| p == ImportPhase::Confirming
    ||| p == ImportPhase::ChoosingUser
    ||| p == ImportPhase::AskingUsername
    ||| p == ImportPhase::ChoosingKey
    ||| p == ImportPhase::FindingIdentity
    ||| p == ImportPhase::AskingKeyPath
}

/// An import of SSH candidates into a store.
pub struct ImportRun {
    session: ImportSession,
    candidates: Vec<SshImportCandidate>,
    home: String,
    import_all: bool,
    assume_yes: bool,
    outcomes: Vec<CandidateOutcome>,
    phase: ImportPhase,
    username: String,
    key_path: Option<String>,
    key_passphrase: Option<String>,
    password: Option<String>,
    os_type: OsType,
    kept: Option<Device>,
}

/// Whether `d` is the device that an import builds from a candidate and
/// the settled user, key, secrets and OS type.
pub open spec fn builds_import_device(
    d: Device,
    c: SshImportCandidate,
    username: Seq<char>,
    key_path: Option<Seq<char>>,
    password: Option<Seq<char>>,
    key_passphrase: Option<Seq<char>>,
    os_type: OsType,
    assume_yes: bool,
) -> bool {
    &&& d.name@ == c.name@
    &&& d.host@ == c.host@
    &&& d.port == c.port
    &&& d.username@ == username
    &&& opt_string(d.password) == password
    &&& opt_string(d.key_path) == key_path
    &&& opt_string(d.key_passphrase) == key_passphrase
    &&& d.connection_type == ConnectionType::Ssh
    &&& !d.sudo_capable
    &&& !d.sudo_password_required
    &&& d.os_type == (if assume_yes {
        OsType::Generic
    } else {
        os_type
    })
    &&& d.host_key_policy == (if assume_yes {
        HostKeyPolicy::Strict
    } else {
        HostKeyPolicy::AcceptNew
    })
}

impl ImportRun {
    #[verifier::type_invariant]
    spec fn one_outcome_per_candidate(self) -> bool {
        &&& self.outcomes@.len() <= self.candidates@.len()
        &&& self.phase == ImportPhase::Done ==> self.outcomes@.len() == self.candidates@.len()
        &&& !(self.phase == ImportPhase::Screen || self.phase == ImportPhase::Done) ==> self.outcomes@.len()
            < self.candidates@.len()
        &&& self.phase == ImportPhase::AskingSaveAnyway ==> self.kept is Some
        &&& settles_nothing_yet(self.phase) ==> self.key_path is None && self.key_passphrase is None
            && self.password is None
    }

    pub closed spec fn phase_of(&self) -> ImportPhase {
        self.phase
    }

    /// The index of the current candidate: the number of candidates done.
    pub closed spec fn at(&self) -> int {
        self.outcomes@.len() as int
    }

    pub closed spec fn candidate_list(&self) -> Seq<SshImportCandidate> {
        self.candidates@
    }

    /// The outcomes of the candidates done so far, in order.
    pub closed spec fn outcome_list(&self) -> Seq<CandidateOutcome> {
        self.outcomes@
    }

    pub closed spec fn session_of(&self) -> ImportSession {
        self.session
    }

    pub closed spec fn home_of(&self) -> Seq<char> {
        self.home@
    }

    pub closed spec fn all_selected(&self) -> bool {
        self.import_all
    }

    pub closed spec fn unattended(&self) -> bool {
        self.assume_yes
    }

    pub closed spec fn username_of(&self) -> Seq<char> {
        self.username@
    }

    pub closed spec fn key_path_of(&self) -> Option<Seq<char>> {
        opt_string(self.key_path)
    }

    pub closed spec fn passphrase_of(&self) -> Option<Seq<char>> {
        opt_string(self.key_passphrase)
    }

    pub closed spec fn password_of(&self) -> Option<Seq<char>> {
        opt_string(self.password)
    }

    pub closed spec fn os_of(&self) -> OsType {
        self.os_type
    }

    /// The device kept while the user decides about a failed test.
    pub closed spec fn kept_of(&self) -> Option<Device> {
        self.kept
    }

    pub open spec fn current(&self) -> SshImportCandidate {
        self.candidate_list()[self.at()]
    }
}

/// Whether `b` continues the same import as `a`.
pub open spec fn same_run(a: ImportRun, b: ImportRun) -> bool {
    &&& b.candidate_list() == a.candidate_list()
    &&& b.home_of() == a.home_of()
    &&& b.all_selected() == a.all_selected()
    &&& b.unattended() == a.unattended()
}

/// Whether `b` is still at `a`'s candidate, with the store unchanged.
pub open spec fn same_candidate(a: ImportRun, b: ImportRun) -> bool {
    &&& same_run(a, b)
    &&& b.at() == a.at()
    &&& b.outcome_list() == a.outcome_list()
    &&& b.session_of() == a.session_of()
}

/// Whether `b` keeps what `a` settled for the current candidate.
pub open spec fn same_settings(a: ImportRun, b: ImportRun) -> bool {
    &&& b.username_of() == a.username_of()
    &&& b.key_path_of() == a.key_path_of()
    &&& b.passphrase_of() == a.passphrase_of()
    &&& b.password_of() == a.password_of()
    &&& b.os_of() == a.os_of()
}

/// Whether `b` holds no key path, passphrase or password: what the next
/// candidate starts from.
pub open spec fn starts_fresh(b: ImportRun) -> bool {
    &&& b.key_path_of() is None
    &&& b.passphrase_of() is None
    &&& b.password_of() is None
}

/// Whether `b` ends `a`'s candidate with outcome `o`, the store unchanged.
pub open spec fn ends_candidate(a: ImportRun, b: ImportRun, o: CandidateOutcome) -> bool {
    &&& same_run(a, b)
    &&& b.at() == a.at() + 1
    &&& b.outcome_list() == a.outcome_list().push(o)
    &&& b.session_of() == a.session_of()
    &&& b.phase_of() == ImportPhase::Screen
    &&& starts_fresh(b)
}

/// Whether `b` ends `a`'s candidate with outcome `o` by importing `d`.
pub open spec fn imports_device(a: ImportRun, b: ImportRun, d: Device, o: CandidateOutcome) -> bool {
    &&& same_run(a, b)
    &&& b.at() == a.at() + 1
    &&& b.outcome_list() == a.outcome_list().push(o)
    &&& b.session_of().store_view() == a.session_of().store_view().insert(d.name@, d)
    &&& b.session_of().taken_names() == a.session_of().taken_names().push(d.name@)
    &&& b.session_of().taken_endpoints() == a.session_of().taken_endpoints().push(
        (ascii_lower(d.host@), d.port),
    )
    &&& b.phase_of() == ImportPhase::Screen
    &&& starts_fresh(b)
}

/// Whether `a` skips the current candidate for `reason`.
pub open spec fn skips(a: ImportAction, index: int, reason: SkipReason) -> bool {
    a matches ImportAction::Skipped { index: i, reason: r } && i == index && r == reason
}

/// The key decision once the default identity is known: a key is chosen
/// and announced, or the candidate is incomplete, or a path is asked for.
pub open spec fn key_step(
    a: ImportRun,
    b: ImportRun,
    action: ImportAction,
    default_identity: Option<Seq<char>>,
) -> bool {
    let identity = opt_string(a.current().identity_file);
    match (identity, default_identity) {
        (Some(p), _) | (None, Some(p)) => {
            &&& same_candidate(a, b)
            &&& action matches ImportAction::UsingKey { path } && path@ == p
            &&& b.key_path_of() == Some(p)
            &&& b.passphrase_of() is None
            &&& b.password_of() is None
            &&& b.phase_of() == ImportPhase::KeyChosen { ask_secrets: !a.unattended() }
            &&& b.username_of() == a.username_of()
        },
        (None, None) => if a.unattended() {
            ends_candidate(a, b, CandidateOutcome::Incomplete) && skips(action, a.at(), SkipReason::Incomplete)
        } else {
            &&& same_candidate(a, b)
            &&& action is AskKeyPath
            &&& b.phase_of() == ImportPhase::AskingKeyPath
            &&& b.username_of() == a.username_of()
            &&& starts_fresh(b)
        },
    }
}

/// The first default identity file that exists, by the answers to
/// `FindIdentity`.
pub open spec fn first_existing(home: Seq<char>, is_file: Seq<bool>) -> Option<Seq<char>> {
    let dir = crate::paths::path_joined(home, ".ssh"@);
    if is_file[0] {
        Some(crate::paths::path_joined(dir, default_identity_names()[0]))
    } else if is_file[1] {
        Some(crate::paths::path_joined(dir, default_identity_names()[1]))
    } else if is_file[2] {
        Some(crate::paths::path_joined(dir, default_identity_names()[2]))
    } else {
        None
    }
}

fn copy_strings(v: &Vec<String>) -> (r: Vec<String>)
    ensures
        crate::text::string_views(r@) == crate::text::string_views(v@),
{
    let mut r: Vec<String> = Vec::new();
    let mut i: usize = 0;
    while i < v.len()
        invariant
            i <= v@.len(),
            r@.len() == i,
            forall|j: int| 0 <= j < i ==> #[trigger] r@[j]@ == v@[j]@,
        decreases v@.len() - i,
    {
        r.push(v[i].clone());
        i += 1;
    }
    assert(crate::text::string_views(r@) =~= crate::text::string_views(v@));
    r
}

impl ImportRun {
    /// An import of `candidates` into the store of `session`; `--yes`
    /// needs `--all`.
    pub fn new(
        session: ImportSession,
        candidates: Vec<SshImportCandidate>,
        home: String,
        import_all: bool,
        assume_yes: bool,
    ) -> (r: Result<ImportRun, TelepromptError>)
        ensures
            assume_yes && !import_all ==> (r matches Err(TelepromptError::Cli(m)) && m@
                == "--yes can only be used together with --all"@),
            !(assume_yes && !import_all) ==> (r matches Ok(run) && run.phase_of() == ImportPhase::Screen
                && run.at() == 0 && run.outcome_list().len() == 0 && run.candidate_list() == candidates@
                && run.session_of() == session && run.home_of() == home@ && run.all_selected()
                == import_all && run.unattended() == assume_yes),
    {
        match check_import_flags(import_all, assume_yes) {
            Err(e) => Err(e),
            Ok(()) => Ok(
                ImportRun {
                    session,
                    candidates,
                    home,
                    import_all,
                    assume_yes,
                    outcomes: Vec::new(),
                    phase: ImportPhase::Screen,
                    username: String::new(),
                    key_path: None,
                    key_passphrase: None,
                    password: None,
                    os_type: OsType::Generic,
                    kept: None,
                },
            ),
        }
    }

    /// The candidate being handled.
    pub fn current_candidate(&self) -> (c: &SshImportCandidate)
        requires
            self.phase_of() != ImportPhase::Screen && self.phase_of() != ImportPhase::Done,
        ensures
            *c == self.current(),
    {
        proof {
            use_type_invariant(self);
        }
        &self.candidates[self.outcomes.len()]
    }

    /// A run with nothing in it, to stand in while a run is taken apart.
    fn placeholder() -> (r: ImportRun)
        ensures
            r.phase_of() == ImportPhase::Screen,
            r.at() == 0,
            r.candidate_list().len() == 0,
            r.outcome_list().len() == 0,
            r.session_of().store_view() == Map::<Seq<char>, Device>::empty(),
            r.session_of().taken_names().len() == 0,
            r.session_of().taken_endpoints().len() == 0,
            r.home_of().len() == 0,
            !r.all_selected(),
            !r.unattended(),
            r.username_of().len() == 0,
            r.key_path_of() is None,
            r.passphrase_of() is None,
            r.password_of() is None,
            r.os_of() == OsType::Generic,
            r.kept_of() is None,
    {
        let session = ImportSession::new(crate::credentials::CredentialStore::new());
        proof {
            if session.taken_names().len() > 0 {
                assert(session.taken_names().contains(session.taken_names()[0]));
            }
            if session.taken_endpoints().len() > 0 {
                let e = session.taken_endpoints()[0];
                assert(session.taken_endpoints().contains((e.0, e.1)));
                assert(crate::commands::endpoint_taken(session.store_view(), e.0, e.1));
                let k = choose|k: Seq<char>| #[trigger] session.store_view().contains_key(k)
                    && ascii_lower(session.store_view()[k].host@) == e.0 && session.store_view()[k].port
                    == e.1;
                assert(session.store_view().contains_key(k));
            }
        }
        ImportRun {
            session,
            candidates: Vec::new(),
            home: String::new(),
            import_all: false,
            assume_yes: false,
            outcomes: Vec::new(),
            phase: ImportPhase::Screen,
            username: String::new(),
            key_path: None,
            key_passphrase: None,
            password: None,
            os_type: OsType::Generic,
            kept: None,
        }
    }

    /// Ends the current candidate with outcome `o`, importing `accepted`
    /// when there is one.
    fn advance(&mut self, accepted: Option<Device>, o: CandidateOutcome)
        requires
            old(self).at() < old(self).candidate_list().len(),
        ensures
            accepted is None ==> ends_candidate(*old(self), *final(self), o),
            accepted matches Some(d) ==> imports_device(*old(self), *final(self), d, o),
    {
        let mut run = ImportRun::placeholder();
        std::mem::swap(&mut run, self);
        let ImportRun {
            mut session,
            candidates,
            home,
            import_all,
            assume_yes,
            mut outcomes,
            phase: _,
            username,
            key_path,
            key_passphrase,
            password,
            os_type,
            kept,
        } = run;
        match accepted {
            Some(d) => session.accept(d),
            None => {},
        }
        outcomes.push(o);
        *self = ImportRun {
            session,
            candidates,
            home,
            import_all,
            assume_yes,
            outcomes,
            phase: ImportPhase::Screen,
            username,
            key_path: None,
            key_passphrase: None,
            password: None,
            os_type,
            kept,
        };
    }

    fn end_candidate(&mut self, o: CandidateOutcome)
        requires
            old(self).at() < old(self).candidate_list().len(),
        ensures
            ends_candidate(*old(self), *final(self), o),
    {
        self.advance(None, o);
    }

    /// Goes on where no answer is needed: screens the next candidate (or
    /// finishes), applies the screening of a shown one, settles the user
    /// name from the config, settles a configured key, asks for a key's
    /// secrets, fixes the OS type of an unattended import, or builds the
    /// device to test.
    pub fn next(&mut self) -> (a: ImportAction)
        requires
            old(self).phase_of() == ImportPhase::Screen || old(self).phase_of() == ImportPhase::Announced
                || old(self).phase_of() == ImportPhase::ChoosingUser || old(self).phase_of()
                == ImportPhase::ChoosingKey || old(self).phase_of() is KeyChosen || old(self).phase_of()
                == ImportPhase::ChoosingOs || old(self).phase_of() == ImportPhase::Ready,
        ensures
            old(self).phase_of() == ImportPhase::Screen ==> {
                if old(self).at() == old(self).candidate_list().len() {
                    &&& a matches ImportAction::Finished { summary, save } && summary.detected
                        == old(self).candidate_list().len() && summary.imported == count_outcomes(
                        old(self).outcome_list(),
                        SummaryField::Imported,
                    ) && summary.declined == count_outcomes(old(self).outcome_list(), SummaryField::Declined)
                        && summary.conflicts == count_outcomes(old(self).outcome_list(), SummaryField::Conflicts)
                        && summary.incomplete == count_outcomes(old(self).outcome_list(), SummaryField::Incomplete)
                        && summary.test_failed == count_outcomes(old(self).outcome_list(), SummaryField::TestFailed)
                        && save == (summary.imported > 0)
                    &&& same_candidate(*old(self), *final(self))
                    &&& final(self).phase_of() == ImportPhase::Done
                } else if conflicts_with(old(self).session_of(), old(self).current()) {
                    ends_candidate(*old(self), *final(self), CandidateOutcome::Conflict) && skips(
                        a,
                        old(self).at(),
                        SkipReason::Conflict,
                    )
                } else {
                    &&& a matches ImportAction::Announce { index } && index == old(self).at()
                    &&& same_candidate(*old(self), *final(self))
                    &&& final(self).phase_of() == ImportPhase::Announced
                }
            },
            old(self).phase_of() == ImportPhase::Announced ==> {
                if !old(self).all_selected() {
                    &&& a is Confirm
                    &&& same_candidate(*old(self), *final(self))
                    &&& final(self).phase_of() == ImportPhase::Confirming
                } else if old(self).unattended() && old(self).current().known_host_lines@.len() == 0 {
                    ends_candidate(*old(self), *final(self), CandidateOutcome::Incomplete) && skips(
                        a,
                        old(self).at(),
                        SkipReason::Untrusted,
                    )
                } else {
                    &&& a is Continue
                    &&& same_candidate(*old(self), *final(self))
                    &&& final(self).phase_of() == ImportPhase::ChoosingUser
                }
            },
            old(self).phase_of() == ImportPhase::ChoosingUser ==> {
                match old(self).current().username {
                    Some(u) if crate::text::trim(u@).len() > 0 => {
                        &&& a is Continue
                        &&& same_candidate(*old(self), *final(self))
                        &&& final(self).phase_of() == ImportPhase::ChoosingKey
                        &&& final(self).username_of() == u@
                    },
                    _ => if old(self).unattended() {
                        ends_candidate(*old(self), *final(self), CandidateOutcome::Incomplete) && skips(
                            a,
                            old(self).at(),
                            SkipReason::Incomplete,
                        )
                    } else {
                        &&& a is AskUsername
                        &&& same_candidate(*old(self), *final(self))
                        &&& final(self).phase_of() == ImportPhase::AskingUsername
                    },
                }
            },
            old(self).phase_of() == ImportPhase::ChoosingKey ==> {
                if old(self).current().identity_file is None {
                    &&& a matches ImportAction::FindIdentity { paths } && paths@.len() == 3 && forall|i: int|
                        0 <= i < 3 ==> #[trigger] paths@[i]@ == crate::paths::path_joined(
                            crate::paths::path_joined(old(self).home_of(), ".ssh"@),
                            default_identity_names()[i],
                        )
                    &&& same_candidate(*old(self), *final(self))
                    &&& same_settings(*old(self), *final(self))
                    &&& final(self).phase_of() == ImportPhase::FindingIdentity
                } else {
                    key_step(*old(self), *final(self), a, None)
                }
            },
            old(self).phase_of() matches ImportPhase::KeyChosen { ask_secrets } ==> {
                &&& same_candidate(*old(self), *final(self))
                &&& same_settings(*old(self), *final(self))
                &&& if ask_secrets {
                    a is AskPassphrase && final(self).phase_of() == ImportPhase::AskingPassphrase
                } else {
                    a is Continue && final(self).phase_of() == ImportPhase::ChoosingOs
                }
            },
            old(self).phase_of() == ImportPhase::ChoosingOs ==> {
                &&& same_candidate(*old(self), *final(self))
                &&& final(self).username_of() == old(self).username_of()
                &&& final(self).key_path_of() == old(self).key_path_of()
                &&& final(self).passphrase_of() == old(self).passphrase_of()
                &&& final(self).password_of() == old(self).password_of()
                &&& if old(self).unattended() {
                    &&& a is Continue
                    &&& final(self).phase_of() == ImportPhase::Ready
                    &&& final(self).os_of() == OsType::Generic
                } else {
                    &&& a is AskOsType
                    &&& final(self).phase_of() == ImportPhase::AskingOsType
                    &&& final(self).os_of() == old(self).os_of()
                }
            },
            old(self).phase_of() == ImportPhase::Ready ==> {
                &&& a matches ImportAction::Test { device, known_host_lines } && builds_import_device(
                    device,
                    old(self).current(),
                    old(self).username_of(),
                    old(self).key_path_of(),
                    old(self).password_of(),
                    old(self).passphrase_of(),
                    old(self).os_of(),
                    old(self).unattended(),
                ) && crate::text::string_views(known_host_lines@) == crate::text::string_views(old(self).current().known_host_lines@)
                &&& same_candidate(*old(self), *final(self))
                &&& final(self).phase_of() == ImportPhase::Testing
            },
    {
        proof {
            use_type_invariant(&*self);
        }
        let i = self.outcomes.len();
        match self.phase {
            ImportPhase::Screen => {
                if i == self.candidates.len() {
                    let summary = tally(self.candidates.len(), &self.outcomes);
                    self.phase = ImportPhase::Done;
                    let save = summary.imported > 0;
                    ImportAction::Finished { summary, save }
                } else if self.session.conflicts(&self.candidates[i]) {
                    self.end_candidate(CandidateOutcome::Conflict);
                    ImportAction::Skipped { index: i, reason: SkipReason::Conflict }
                } else {
                    self.phase = ImportPhase::Announced;
                    ImportAction::Announce { index: i }
                }
            },
            ImportPhase::Announced => {
                if !self.import_all {
                    self.phase = ImportPhase::Confirming;
                    ImportAction::Confirm
                } else if self.assume_yes && !can_import_unattended(&self.candidates[i]) {
                    self.end_candidate(CandidateOutcome::Incomplete);
                    ImportAction::Skipped { index: i, reason: SkipReason::Untrusted }
                } else {
                    self.phase = ImportPhase::ChoosingUser;
                    ImportAction::Continue
                }
            },
            ImportPhase::ChoosingUser => {
                match import_username(&self.candidates[i], self.assume_yes) {
                    UsernameSource::Known(u) => {
                        self.username = u;
                        self.phase = ImportPhase::ChoosingKey;
                        ImportAction::Continue
                    },
                    UsernameSource::Skip => {
                        self.end_candidate(CandidateOutcome::Incomplete);
                        ImportAction::Skipped { index: i, reason: SkipReason::Incomplete }
                    },
                    UsernameSource::Ask => {
                        self.phase = ImportPhase::AskingUsername;
                        ImportAction::AskUsername
                    },
                }
            },
            ImportPhase::ChoosingKey => {
                if self.candidates[i].identity_file.is_none() {
                    self.phase = ImportPhase::FindingIdentity;
                    ImportAction::FindIdentity { paths: default_identity_paths(self.home.as_str()) }
                } else {
                    self.choose_key(&None)
                }
            },
            ImportPhase::KeyChosen { ask_secrets } => {
                if ask_secrets {
                    self.phase = ImportPhase::AskingPassphrase;
                    ImportAction::AskPassphrase
                } else {
                    self.phase = ImportPhase::ChoosingOs;
                    ImportAction::Continue
                }
            },
            ImportPhase::ChoosingOs => {
                if self.assume_yes {
                    self.os_type = OsType::Generic;
                    self.phase = ImportPhase::Ready;
                    ImportAction::Continue
                } else {
                    self.phase = ImportPhase::AskingOsType;
                    ImportAction::AskOsType
                }
            },
            _ => {
                let device = import_device(
                    &self.candidates[i],
                    self.username.clone(),
                    crate::credentials::copy_opt_string(&self.key_path),
                    crate::credentials::copy_opt_string(&self.password),
                    crate::credentials::copy_opt_string(&self.key_passphrase),
                    self.os_type,
                    self.assume_yes,
                );
                let lines = copy_strings(&self.candidates[i].known_host_lines);
                self.phase = ImportPhase::Testing;
                ImportAction::Test { device, known_host_lines: lines }
            },
        }
    }

    fn choose_key(&mut self, default_identity: &Option<String>) -> (a: ImportAction)
        requires
            old(self).phase_of() == ImportPhase::ChoosingKey || old(self).phase_of()
                == ImportPhase::FindingIdentity,
        ensures
            key_step(*old(self), *final(self), a, opt_string(*default_identity)),
    {
        proof {
            use_type_invariant(&*self);
        }
        let i = self.outcomes.len();
        match import_key_source(&self.candidates[i].identity_file, default_identity, self.assume_yes) {
            KeySource::Use { path, ask_secrets } => {
                self.phase = ImportPhase::KeyChosen { ask_secrets };
                self.key_path = Some(path.clone());
                ImportAction::UsingKey { path }
            },
            KeySource::Skip => {
                self.end_candidate(CandidateOutcome::Incomplete);
                ImportAction::Skipped { index: i, reason: SkipReason::Incomplete }
            },
            KeySource::Ask => {
                self.phase = ImportPhase::AskingKeyPath;
                ImportAction::AskKeyPath
            },
        }
    }

    /// The user's answer to whether the shown candidate is imported.
    pub fn on_confirm(&mut self, yes: bool) -> (a: ImportAction)
        requires
            old(self).phase_of() == ImportPhase::Confirming,
        ensures
            yes ==> (a is Continue && same_candidate(*old(self), *final(self)) && final(self).phase_of()
                == ImportPhase::ChoosingUser),
            !yes ==> ends_candidate(*old(self), *final(self), CandidateOutcome::Declined) && skips(
                a,
                old(self).at(),
                SkipReason::Declined,
            ),
    {
        proof {
            use_type_invariant(&*self);
        }
        if yes {
            self.phase = ImportPhase::ChoosingUser;
            ImportAction::Continue
        } else {
            let i = self.outcomes.len();
            self.end_candidate(CandidateOutcome::Declined);
            ImportAction::Skipped { index: i, reason: SkipReason::Declined }
        }
    }

    /// The user name typed for the candidate.
    pub fn on_username(&mut self, username: String) -> (a: ImportAction)
        requires
            old(self).phase_of() == ImportPhase::AskingUsername,
        ensures
            a is Continue,
            same_candidate(*old(self), *final(self)),
            final(self).phase_of() == ImportPhase::ChoosingKey,
            final(self).username_of() == username@,
    {
        proof {
            use_type_invariant(&*self);
        }
        self.username = username;
        self.phase = ImportPhase::ChoosingKey;
        ImportAction::Continue
    }

    /// Which of the default identity files exist, in the order of
    /// `FindIdentity`; the first that does is the key.
    pub fn on_identity_files(&mut self, is_file: &Vec<bool>) -> (a: ImportAction)
        requires
            old(self).phase_of() == ImportPhase::FindingIdentity,
            is_file@.len() == 3,
        ensures
            key_step(*old(self), *final(self), a, first_existing(old(self).home_of(), is_file@)),
    {
        let default_identity = first_default_identity(self.home.as_str(), is_file);
        proof {
            let names = default_identity_names();
            let dir = crate::paths::path_joined(self.home@, ".ssh"@);
            if default_identity is Some {
                let p = default_identity->0;
                let i = choose|i: int|
                    0 <= i < 3 && is_file@[i] && (forall|j: int| 0 <= j < i ==> !is_file@[j]) && p@
                        == crate::paths::path_joined(dir, names[i]);
                assert(first_existing(self.home@, is_file@) == Some(p@));
            }
        }
        self.choose_key(&default_identity)
    }

    /// The key path typed for the candidate: empty means password
    /// authentication; `~` paths are read against the home directory.
    pub fn on_key_path(&mut self, typed: String) -> (a: ImportAction)
        requires
            old(self).phase_of() == ImportPhase::AskingKeyPath,
        ensures
            same_candidate(*old(self), *final(self)),
            final(self).username_of() == old(self).username_of(),
            typed@.len() == 0 ==> (a matches ImportAction::AskPassword { fallback } && !fallback
                && final(self).phase_of() == ImportPhase::AskingPassword { fallback: false }
                && starts_fresh(*final(self))),
            typed@.len() > 0 ==> (a is AskPassphrase && final(self).phase_of() == ImportPhase::AskingPassphrase
                && final(self).key_path_of() == Some(expand_user_path_spec(typed@, old(self).home_of()))
                && final(self).passphrase_of() is None && final(self).password_of() is None),
    {
        proof {
            use_type_invariant(&*self);
        }
        if typed.as_str().unicode_len() == 0 {
            self.phase = ImportPhase::AskingPassword { fallback: false };
            self.key_path = None;
            self.key_passphrase = None;
            ImportAction::AskPassword { fallback: false }
        } else {
            self.phase = ImportPhase::AskingPassphrase;
            self.key_path = Some(expand_user_path(typed.as_str(), self.home.as_str()));
            ImportAction::AskPassphrase
        }
    }

    /// The key passphrase typed for the candidate, if any.
    pub fn on_passphrase(&mut self, passphrase: Option<String>) -> (a: ImportAction)
        requires
            old(self).phase_of() == ImportPhase::AskingPassphrase,
        ensures
            (a matches ImportAction::AskPassword { fallback } && fallback),
            same_candidate(*old(self), *final(self)),
            (final(self).phase_of() == (ImportPhase::AskingPassword { fallback: true })),
            final(self).username_of() == old(self).username_of(),
            final(self).key_path_of() == old(self).key_path_of(),
            final(self).passphrase_of() == opt_string(passphrase),
    {
        proof {
            use_type_invariant(&*self);
        }
        self.key_passphrase = passphrase;
        self.phase = ImportPhase::AskingPassword { fallback: true };
        ImportAction::AskPassword { fallback: true }
    }

    /// The password typed for the candidate, if any: without a key, none
    /// leaves the candidate incomplete.
    pub fn on_password(&mut self, password: Option<String>) -> (a: ImportAction)
        requires
            (old(self).phase_of() is AskingPassword),
        ensures
            (old(self).phase_of() == (ImportPhase::AskingPassword { fallback: false }) && password is None)
                ==> ends_candidate(*old(self), *final(self), CandidateOutcome::Incomplete) && skips(
                a,
                old(self).at(),
                SkipReason::Incomplete,
            ),
            !(old(self).phase_of() == (ImportPhase::AskingPassword { fallback: false }) && password is None)
                ==> (a is Continue && same_candidate(*old(self), *final(self)) && final(self).phase_of()
                == ImportPhase::ChoosingOs && final(self).username_of() == old(self).username_of()
                && final(self).key_path_of() == old(self).key_path_of() && final(self).passphrase_of()
                == old(self).passphrase_of() && final(self).password_of() == opt_string(password)),
    {
        proof {
            use_type_invariant(&*self);
        }
        if self.phase == (ImportPhase::AskingPassword { fallback: false }) && password.is_none() {
            let i = self.outcomes.len();
            self.end_candidate(CandidateOutcome::Incomplete);
            ImportAction::Skipped { index: i, reason: SkipReason::Incomplete }
        } else {
            self.password = password;
            self.phase = ImportPhase::ChoosingOs;
            ImportAction::Continue
        }
    }

    /// The OS type chosen for the candidate.
    pub fn on_os_type(&mut self, os_type: OsType) -> (a: ImportAction)
        requires
            old(self).phase_of() == ImportPhase::AskingOsType,
        ensures
            a is Continue,
            same_candidate(*old(self), *final(self)),
            final(self).phase_of() == ImportPhase::Ready,
            final(self).username_of() == old(self).username_of(),
            final(self).key_path_of() == old(self).key_path_of(),
            final(self).passphrase_of() == old(self).passphrase_of(),
            final(self).password_of() == old(self).password_of(),
            final(self).os_of() == os_type,
    {
        proof {
            use_type_invariant(&*self);
        }
        self.os_type = os_type;
        self.phase = ImportPhase::Ready;
        ImportAction::Continue
    }

    /// The tested device and whether its test passed: a passed test imports
    /// it; a failed one skips it in an unattended import, and otherwise the
    /// user decides.
    pub fn on_tested(&mut self, device: Device, passed: bool) -> (a: ImportAction)
        requires
            old(self).phase_of() == ImportPhase::Testing,
        ensures
            passed ==> imports_device(*old(self), *final(self), device, CandidateOutcome::Imported) && (a matches ImportAction::Imported {
                index,
            } && index == old(self).at()),
            !passed && old(self).unattended() ==> ends_candidate(*old(self), *final(self), CandidateOutcome::TestFailed)
                && skips(a, old(self).at(), SkipReason::TestFailed),
            !passed && !old(self).unattended() ==> (a is AskSaveAnyway && same_candidate(*old(self), *final(self))
                && final(self).phase_of() == ImportPhase::AskingSaveAnyway && final(self).kept_of()
                == Some(device)),
    {
        proof {
            use_type_invariant(&*self);
        }
        if passed {
            self.import(device, CandidateOutcome::Imported)
        } else if self.assume_yes {
            let i = self.outcomes.len();
            self.end_candidate(CandidateOutcome::TestFailed);
            ImportAction::Skipped { index: i, reason: SkipReason::TestFailed }
        } else {
            self.kept = Some(device);
            self.phase = ImportPhase::AskingSaveAnyway;
            ImportAction::AskSaveAnyway
        }
    }

    fn import(&mut self, device: Device, o: CandidateOutcome) -> (a: ImportAction)
        requires
            old(self).at() < old(self).candidate_list().len(),
        ensures
            imports_device(*old(self), *final(self), device, o),
            a matches ImportAction::Imported { index } && index == old(self).at(),
    {
        let i = self.outcomes.len();
        self.advance(Some(device), o);
        ImportAction::Imported { index: i }
    }

    /// Whether to keep the device whose test failed.
    pub fn on_save_anyway(&mut self, yes: bool) -> (a: ImportAction)
        requires
            old(self).phase_of() == ImportPhase::AskingSaveAnyway,
        ensures
            yes ==> imports_device(
                *old(self),
                *final(self),
                old(self).kept_of().unwrap(),
                CandidateOutcome::ImportedAfterFailedTest,
            ) && (a matches ImportAction::Imported { index } && index == old(self).at()),
            !yes ==> ends_candidate(*old(self), *final(self), CandidateOutcome::TestFailed) && skips(
                a,
                old(self).at(),
                SkipReason::TestFailed,
            ),
    {
        proof {
            use_type_invariant(&*self);
        }
        let i = self.outcomes.len();
        if yes {
            let kept = match &self.kept {
                Some(d) => d.duplicate(),
                None => {
                    self.end_candidate(CandidateOutcome::TestFailed);
                    return ImportAction::Skipped { index: i, reason: SkipReason::TestFailed };
                },
            };
            self.import(kept, CandidateOutcome::ImportedAfterFailedTest)
        } else {
            self.end_candidate(CandidateOutcome::TestFailed);
            ImportAction::Skipped { index: i, reason: SkipReason::TestFailed }
        }
    }

    /// The store with the imported devices.
    pub fn into_store(self) -> (s: crate::credentials::CredentialStore)
        ensures
            s.view() == self.session_of().store_view(),
    {
        self.session.into_store()
    }
}

} // verus!
