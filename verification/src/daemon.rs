//! The daemon orchestrator: one live server per repository, a port of its
//! own for each, and lazy removal of records whose process is gone.

use crate::error::ErrorKind;
use crate::process::{
    delivery, delivery_of, liveness, liveness_of, names_process, signal_process, Request,
    SignalOutcome,
};
use crate::registry::{
    has_repo, kept, lemma_kept_reads_prefix, lemma_picked_reads_prefix,
    lemma_register_then_lookup, lemma_sweep_is_exact, lemma_unregister_then_lookup, lookup,
    picked, port_taken, repo_index, repos_distinct, upsert, views_of, without, DaemonInfo,
    DaemonInfoView, DaemonRegistry,
};
use crate::text::{ends_with_char, joined, push_safe_name, safe_name};
use vstd::prelude::*;

verus! {

/// The lowest port a daemon may listen on.
pub const PORT_FIRST: u16 = 3000;

/// The highest port a daemon may listen on.
pub const PORT_LAST: u16 = 3999;

/// `port` is the lowest port of the daemon range that no record holds.
pub open spec fn first_free_port(entries: Seq<DaemonInfoView>, port: u16) -> bool {
    &&& PORT_FIRST <= port <= PORT_LAST
    &&& !port_taken(entries, port)
    &&& forall|q: u16| PORT_FIRST <= q < port ==> #[trigger] port_taken(entries, q)
}

/// Every port of the daemon range is held by some record.
pub open spec fn ports_exhausted(entries: Seq<DaemonInfoView>) -> bool {
    forall|q: u16| PORT_FIRST <= q <= PORT_LAST ==> #[trigger] port_taken(entries, q)
}

/// The log file of the daemon for `repo`: in `dir`, named by the
/// file-name-safe rendering of `repo` followed by `.log`.
pub open spec fn log_path_of(dir: Seq<char>, repo: Seq<char>) -> Seq<char> {
    joined(dir, safe_name(repo) + seq!['.', 'l', 'o', 'g'])
}

/// Whether the daemon of `repo` is confirmed to run: a record exists for
/// `repo` and its process answered the probe.
pub open spec fn confirmed(entries: Seq<DaemonInfoView>, repo: Seq<char>, alive: bool) -> bool {
    has_repo(entries, repo) && alive
}

/// The registry after the daemon of `repo` was checked: untouched when it
/// is confirmed to run, otherwise cleared of the (stale) record of `repo`.
pub open spec fn after_check(entries: Seq<DaemonInfoView>, repo: Seq<char>, alive: bool) -> Seq<
    DaemonInfoView,
> {
    if confirmed(entries, repo, alive) {
        entries
    } else {
        without(entries, repo)
    }
}

/// `plan` is the decision of a start request for `repo` on the registry
/// `before`, given the probe's answer `alive`, and `after` is the registry
/// it leaves: a confirmed daemon is reported as it is registered; otherwise
/// the stale record is cleared and the launch gets the lowest free port, or
/// fails when the range is exhausted.
pub open spec fn start_decided(
    before: Seq<DaemonInfoView>,
    dir: Seq<char>,
    repo: Seq<char>,
    alive: bool,
    after: Seq<DaemonInfoView>,
    plan: Result<StartPlan, ErrorKind>,
) -> bool {
    &&& after == after_check(before, repo, alive)
    &&& match plan {
        Ok(StartPlan::AlreadyRunning(info)) => confirmed(before, repo, alive) && lookup(
            before,
            repo,
        ) == Some(info@),
        Ok(StartPlan::Launch { port, log_path }) => !confirmed(before, repo, alive)
            && first_free_port(after, port) && log_path@ == log_path_of(dir, repo),
        Err(e) => !confirmed(before, repo, alive) && e == ErrorKind::ResourceExhausted
            && ports_exhausted(after),
    }
}

/// `stopped` is the result of recording, on the registry `before`, that the
/// daemon of `repo` was asked to terminate with the answer `sent`, and
/// `after` is the registry it leaves: without a record there is nothing to
/// stop; a delivered request removes the record and reports it; a failed
/// request leaves the record in place.
pub open spec fn stop_recorded(
    before: Seq<DaemonInfoView>,
    repo: Seq<char>,
    sent: Result<(), ErrorKind>,
    after: Seq<DaemonInfoView>,
    stopped: Result<DaemonInfo, ErrorKind>,
) -> bool {
    match (lookup(before, repo), sent) {
        (None, _) => after == before && stopped == Err::<DaemonInfo, ErrorKind>(
            ErrorKind::NotFound,
        ),
        (Some(registered), Ok(())) => after == without(before, repo) && (stopped matches Ok(info)
            && info@ == registered),
        (Some(_), Err(e)) => after == before && stopped == Err::<DaemonInfo, ErrorKind>(e),
    }
}

/// `found` is the result of locating the live daemon of `repo` on the
/// registry `before`, and `after` is the registry it leaves, given the
/// answers `alive` of the sweep over all records and then the answer
/// `again` of probing the repository's own process once more (`None` when
/// that probe had no definite answer): the sweep drops the dead records;
/// then a confirmed daemon is reported, a stale record is removed, and a
/// probe without an answer is a failure.
pub open spec fn located(
    before: Seq<DaemonInfoView>,
    repo: Seq<char>,
    alive: Seq<bool>,
    again: Option<bool>,
    after: Seq<DaemonInfoView>,
    found: Result<DaemonInfo, ErrorKind>,
) -> bool {
    let swept = kept(before, alive);
    match again {
        None => after == swept && found == Err::<DaemonInfo, ErrorKind>(
            ErrorKind::ProcessControlFailure,
        ),
        Some(running) => after == after_check(swept, repo, running) && match found {
            Ok(info) => confirmed(swept, repo, running) && lookup(swept, repo) == Some(info@),
            Err(e) => e == ErrorKind::NotFound && !confirmed(swept, repo, running),
        },
    }
}

/// Whether some record's process id can name a process, so that a probe
/// or a signal is sent on its behalf.
pub open spec fn some_process(entries: Seq<DaemonInfoView>) -> bool {
    exists|i: int| 0 <= i < entries.len() && names_process((#[trigger] entries[i]).pid)
}

/// The complement of a sequence of flags.
pub open spec fn negated(flags: Seq<bool>) -> Seq<bool> {
    Seq::new(flags.len(), |i: int| !flags[i])
}

/// An allocated port is never one that the registry holds, and it is
/// never allocated again while a record holding it stays registered.
pub proof fn lemma_allocated_port_is_fresh(
    entries: Seq<DaemonInfoView>,
    port: u16,
    later: Seq<DaemonInfoView>,
    next: u16,
)
    requires
        first_free_port(entries, port),
        port_taken(later, port),
        first_free_port(later, next),
    ensures
        !port_taken(entries, port),
        next != port,
{
}

/// Registering a daemon on a port makes the registry hold that port.
pub proof fn lemma_registered_port_is_taken(entries: Seq<DaemonInfoView>, info: DaemonInfoView)
    ensures
        port_taken(upsert(entries, info), info.port),
{
    let after = upsert(entries, info);
    if has_repo(entries, info.repo_path) {
        let at = repo_index(entries, info.repo_path);
        assert(after[at].port == info.port);
    } else {
        assert(after[entries.len() as int].port == info.port);
    }
}

/// At most one port is the lowest free one, so a port allocation has one
/// possible result.
pub proof fn lemma_first_free_port_is_unique(entries: Seq<DaemonInfoView>, p: u16, q: u16)
    requires
        first_free_port(entries, p),
        first_free_port(entries, q),
    ensures
        p == q,
        !ports_exhausted(entries),
{
    if p < q {
        assert(port_taken(entries, p));
    } else if q < p {
        assert(port_taken(entries, q));
    }
}

/// Starting twice is idempotent. Let a start request for `repo` be decided
/// as a launch on some port, and let the launched daemon register itself
/// as `info` on that port. Then a further start request for `repo`, while
/// the daemon is alive, launches nothing: it reports exactly `info` (the
/// same port and process id) and leaves the registry as it is.
pub proof fn lemma_start_is_idempotent(
    entries: Seq<DaemonInfoView>,
    dir: Seq<char>,
    repo: Seq<char>,
    alive: bool,
    launched: Seq<DaemonInfoView>,
    first: Result<StartPlan, ErrorKind>,
    info: DaemonInfoView,
    settled: Seq<DaemonInfoView>,
    second: Result<StartPlan, ErrorKind>,
)
    requires
        repos_distinct(entries),
        start_decided(entries, dir, repo, alive, launched, first),
        first matches Ok(StartPlan::Launch { port, .. }) && info.port == port,
        info.repo_path == repo,
        start_decided(upsert(launched, info), dir, repo, true, settled, second),
    ensures
        second matches Ok(StartPlan::AlreadyRunning(found)) && found@ == info,
        settled == upsert(launched, info),
{
    lemma_unregister_then_lookup(entries, repo, repo);
    lemma_register_then_lookup(launched, info, repo);
}

/// What a start request leads to.
#[derive(Debug)]
pub enum StartPlan {
    /// A live daemon already serves the repository; nothing is launched.
    AlreadyRunning(DaemonInfo),
    /// A daemon is to be launched on `port`, logging to `log_path`. It
    /// registers itself once it runs.
    Launch { port: u16, log_path: String },
}

/// Drives the registry on behalf of one front-end invocation.
pub struct DaemonManager {
    registry: DaemonRegistry,
    state_dir: String,
}

impl DaemonManager {
    /// The registry as it stands.
    pub closed spec fn entries(self) -> Seq<DaemonInfoView> {
        self.registry@
    }

    /// The directory that holds the registry and the log files.
    pub closed spec fn dir(self) -> Seq<char> {
        self.state_dir@
    }

    /// A manager over the registry snapshot `registry`, with its files in
    /// `state_dir`.
    pub fn new(state_dir: String, registry: DaemonRegistry) -> (manager: Self)
        ensures
            manager.entries() == registry@,
            manager.dir() == state_dir@,
    {
        DaemonManager { registry, state_dir }
    }

    /// The registry, for persisting it after a mutation.
    pub fn registry(&self) -> (registry: &DaemonRegistry)
        ensures
            registry@ == self.entries(),
    {
        &self.registry
    }

    /// The lowest port of the range `PORT_FIRST..=PORT_LAST` that no
    /// registered daemon holds.
    pub fn find_available_port(&self) -> (found: Result<u16, ErrorKind>)
        ensures
            match found {
                Ok(port) => first_free_port(self.entries(), port),
                Err(e) => e == ErrorKind::ResourceExhausted && ports_exhausted(self.entries()),
            },
    {
        let mut port: u16 = PORT_FIRST;
        while port <= PORT_LAST
            invariant
                PORT_FIRST <= port <= PORT_LAST + 1,
                forall|q: u16| PORT_FIRST <= q < port ==> #[trigger] port_taken(self.entries(), q),
            decreases PORT_LAST + 1 - port,
        {
            if !self.registry.uses_port(port) {
                return Ok(port);
            }
            port += 1;
        }
        Err(ErrorKind::ResourceExhausted)
    }

    /// The record registered for `repo_path`, if any.
    pub fn get_daemon_for_repo(&self, repo_path: &str) -> (found: Option<DaemonInfo>)
        ensures
            match found {
                Some(info) => lookup(self.entries(), repo_path@) == Some(info@),
                None => lookup(self.entries(), repo_path@) is None,
            },
    {
        match self.registry.get(repo_path) {
            Some(info) => Some(info.clone()),
            None => None,
        }
    }

    /// Registers `info` under its repository; the last writer wins.
    pub fn register_daemon(&mut self, info: DaemonInfo)
        ensures
            final(self).entries() == upsert(old(self).entries(), info@),
            final(self).dir() == old(self).dir(),
    {
        self.registry.insert(info);
    }

    /// Removes the record of `repo_path`; does nothing when there is none.
    pub fn unregister_daemon(&mut self, repo_path: &str)
        ensures
            final(self).entries() == without(old(self).entries(), repo_path@),
            final(self).dir() == old(self).dir(),
    {
        self.registry.remove(repo_path);
    }

    /// All records, in registration order.
    pub fn list_daemons(&self) -> (listed: Vec<DaemonInfo>)
        ensures
            views_of(listed@) == self.entries(),
    {
        self.registry.list()
    }

    /// Probes whether the process `pid` exists, without disturbing it. An
    /// id that can name no process is not alive; a probe that neither finds
    /// the process nor reports it missing is a failure. For any other id
    /// the answer is [`liveness`] of what the operating system said.
    pub fn is_daemon_running(&self, pid: u32) -> (answer: Result<bool, ErrorKind>)
        ensures
            !names_process(pid) ==> answer == Ok::<bool, ErrorKind>(false),
            exists|outcome: SignalOutcome| answer == liveness_of(outcome),
    {
        if pid == 0 || pid > 0x7fff_ffff {
            assert(liveness_of(SignalOutcome::NoSuchProcess) == Ok::<bool, ErrorKind>(false));
            Ok(false)
        } else {
            liveness(signal_process(pid as i32, Request::Probe))
        }
    }

    /// Asks the process `pid` to terminate gracefully, without waiting for
    /// it to exit. An id that can name no process is a failure; for any
    /// other id the answer is [`delivery`] of what the operating system
    /// said.
    pub fn stop_daemon(&self, pid: u32) -> (answer: Result<(), ErrorKind>)
        ensures
            !names_process(pid) ==> answer == Err::<(), ErrorKind>(
                ErrorKind::ProcessControlFailure,
            ),
            exists|outcome: SignalOutcome| answer == delivery_of(outcome),
    {
        if pid == 0 || pid > 0x7fff_ffff {
            assert(delivery_of(SignalOutcome::NoSuchProcess) == Err::<(), ErrorKind>(
                ErrorKind::ProcessControlFailure,
            ));
            Err(ErrorKind::ProcessControlFailure)
        } else {
            delivery(signal_process(pid as i32, Request::Terminate))
        }
    }

    /// Drops the records that a liveness sweep found dead: the record at
    /// position `i` of [`Self::list_daemons`] goes exactly when `alive[i]`
    /// is `false`. All other records stay as they are.
    pub fn remove_dead(&mut self, alive: &Vec<bool>)
        ensures
            final(self).entries() == kept(old(self).entries(), alive@),
            final(self).dir() == old(self).dir(),
    {
        self.registry.retain_alive(alive);
    }

    /// Probes every registered process and drops the records of those that
    /// are gone, in one step. If any probe fails without a definite answer
    /// the failure is reported and the registry stays as it was; that can
    /// only happen where some record's id can name a process.
    pub fn cleanup_stale_daemons(&mut self) -> (done: Result<(), ErrorKind>)
        ensures
            final(self).dir() == old(self).dir(),
            match done {
                Ok(()) => (exists|alive: Seq<bool>|
                    {
                        &&& alive.len() == old(self).entries().len()
                        &&& forall|i: int|
                            0 <= i < alive.len() && !names_process(old(self).entries()[i].pid)
                                ==> !#[trigger] alive[i]
                        &&& final(self).entries() == kept(old(self).entries(), alive)
                    }),
                Err(e) => {
                    &&& e == ErrorKind::ProcessControlFailure
                    &&& final(self).entries() == old(self).entries()
                    &&& some_process(old(self).entries())
                },
            },
    {
        let listed = self.registry.list();
        let mut alive: Vec<bool> = Vec::new();
        let mut i: usize = 0;
        while i < listed.len()
            invariant
                i <= listed.len(),
                alive.len() == i,
                views_of(listed@) == self.entries(),
                forall|j: int|
                    0 <= j < i && !names_process(self.entries()[j].pid) ==> !#[trigger] alive[j],
            decreases listed.len() - i,
        {
            assert(views_of(listed@)[i as int] == listed[i as int]@);
            match self.is_daemon_running(listed[i].pid) {
                Ok(running) => {
                    alive.push(running);
                },
                Err(_) => {
                    assert(names_process(self.entries()[i as int].pid));
                    return Err(ErrorKind::ProcessControlFailure);
                },
            }
            i += 1;
        }
        self.remove_dead(&alive);
        Ok(())
    }

    /// The log file of the daemon for `repo_path`: the same for every call
    /// with the same path.
    pub fn get_log_path(&self, repo_path: &str) -> (path: String)
        ensures
            path@ == log_path_of(self.dir(), repo_path@),
    {
        let mut path = self.state_dir.clone();
        if !path.as_str().is_empty() && !ends_with_char(path.as_str(), '/') {
            path.push('/');
        }
        push_safe_name(&mut path, repo_path);
        path.push('.');
        path.push('l');
        path.push('o');
        path.push('g');
        assert(path@ =~= log_path_of(self.dir(), repo_path@));
        path
    }

    /// Checks the daemon of `repo_path` against the probe's answer `alive`:
    /// a registered daemon that is alive is reported; a registered daemon
    /// that is not alive is stale and its record is removed.
    pub fn confirm_running(&mut self, repo_path: &str, alive: bool) -> (found: Result<
        DaemonInfo,
        ErrorKind,
    >)
        ensures
            final(self).dir() == old(self).dir(),
            final(self).entries() == after_check(old(self).entries(), repo_path@, alive),
            match found {
                Ok(info) => confirmed(old(self).entries(), repo_path@, alive) && lookup(
                    old(self).entries(),
                    repo_path@,
                ) == Some(info@),
                Err(e) => e == ErrorKind::NotFound && !confirmed(
                    old(self).entries(),
                    repo_path@,
                    alive,
                ),
            },
    {
        match self.get_daemon_for_repo(repo_path) {
            Some(info) => {
                if alive {
                    Ok(info)
                } else {
                    self.registry.remove(repo_path);
                    Err(ErrorKind::NotFound)
                }
            },
            None => Err(ErrorKind::NotFound),
        }
    }

    /// Decides a start request for `repo_path`, given the probe's answer
    /// `alive` for the registered process (`alive` is not looked at when
    /// there is no record).
    pub fn resolve_start(&mut self, repo_path: &str, alive: bool) -> (plan: Result<
        StartPlan,
        ErrorKind,
    >)
        ensures
            final(self).dir() == old(self).dir(),
            start_decided(
                old(self).entries(),
                old(self).dir(),
                repo_path@,
                alive,
                final(self).entries(),
                plan,
            ),
    {
        match self.confirm_running(repo_path, alive) {
            Ok(info) => Ok(StartPlan::AlreadyRunning(info)),
            Err(_) => {
                match self.find_available_port() {
                    Ok(port) => Ok(
                        StartPlan::Launch { port, log_path: self.get_log_path(repo_path) },
                    ),
                    Err(e) => Err(e),
                }
            },
        }
    }

    /// Decides a start request for `repo_path`: probes the registered
    /// process, if there is one, and decides as [`Self::resolve_start`] does
    /// on the answer. A probe without a definite answer is reported as a
    /// failure and changes nothing.
    pub fn plan_start(&mut self, repo_path: &str) -> (plan: Result<StartPlan, ErrorKind>)
        ensures
            final(self).dir() == old(self).dir(),
            ({
                &&& plan == Err::<StartPlan, ErrorKind>(ErrorKind::ProcessControlFailure)
                &&& final(self).entries() == old(self).entries()
                &&& lookup(old(self).entries(), repo_path@) matches Some(info)
                &&& names_process(info.pid)
            }) || (exists|alive: bool|
                {
                    &&& #[trigger] start_decided(
                        old(self).entries(),
                        old(self).dir(),
                        repo_path@,
                        alive,
                        final(self).entries(),
                        plan,
                    )
                    &&& (lookup(old(self).entries(), repo_path@) matches Some(info)
                        ==> names_process(info.pid) || !alive)
                }),
    {
        let pid = match self.registry.get(repo_path) {
            Some(info) => info.pid,
            None => {
                return self.resolve_start(repo_path, false);
            },
        };
        match self.is_daemon_running(pid) {
            Ok(alive) => self.resolve_start(repo_path, alive),
            Err(_) => Err(ErrorKind::ProcessControlFailure),
        }
    }

    /// Records that the daemon of `repo_path` was asked to terminate, with
    /// the answer `sent`.
    pub fn record_stop(&mut self, repo_path: &str, sent: Result<(), ErrorKind>) -> (stopped: Result<
        DaemonInfo,
        ErrorKind,
    >)
        ensures
            final(self).dir() == old(self).dir(),
            stop_recorded(
                old(self).entries(),
                repo_path@,
                sent,
                final(self).entries(),
                stopped,
            ),
    {
        match self.get_daemon_for_repo(repo_path) {
            None => Err(ErrorKind::NotFound),
            Some(info) => match sent {
                Ok(()) => {
                    self.registry.remove(repo_path);
                    Ok(info)
                },
                Err(e) => Err(e),
            },
        }
    }

    /// Stops the daemon of `repo_path`: asks its process to terminate and
    /// records the answer as [`Self::record_stop`] does. Without a record
    /// no signal is sent and `NotFound` is reported. A record whose id can
    /// name no process gets no signal either: the stop fails and the
    /// record stays.
    pub fn stop_daemon_for_repo(&mut self, repo_path: &str) -> (stopped: Result<
        DaemonInfo,
        ErrorKind,
    >)
        ensures
            final(self).dir() == old(self).dir(),
            exists|outcome: SignalOutcome|
                #[trigger] stop_recorded(
                    old(self).entries(),
                    repo_path@,
                    delivery_of(outcome),
                    final(self).entries(),
                    stopped,
                ),
            (lookup(old(self).entries(), repo_path@) matches Some(info) && !names_process(
                info.pid,
            )) ==> stopped == Err::<DaemonInfo, ErrorKind>(ErrorKind::ProcessControlFailure)
                && final(self).entries() == old(self).entries(),
    {
        let pid = match self.registry.get(repo_path) {
            Some(info) => info.pid,
            None => {
                assert(stop_recorded(
                    self.entries(),
                    repo_path@,
                    delivery_of(SignalOutcome::NoSuchProcess),
                    self.entries(),
                    Err(ErrorKind::NotFound),
                ));
                return Err(ErrorKind::NotFound);
            },
        };
        let sent = self.stop_daemon(pid);
        self.record_stop(repo_path, sent)
    }

    /// Records that the daemons picked by `stopped` were stopped: the record
    /// at position `i` of [`Self::list_daemons`] is removed and returned
    /// exactly when `stopped[i]` is `true`. All other records stay as they
    /// are.
    pub fn record_stops(&mut self, stopped: &Vec<bool>) -> (removed: Vec<DaemonInfo>)
        ensures
            final(self).dir() == old(self).dir(),
            views_of(removed@) == picked(old(self).entries(), stopped@),
            final(self).entries() == kept(old(self).entries(), negated(stopped@)),
    {
        let listed = self.registry.list();
        let ghost entries = self.entries();
        let mut removed: Vec<DaemonInfo> = Vec::new();
        let mut keep: Vec<bool> = Vec::new();
        let mut i: usize = 0;
        assert(entries.take(0) =~= Seq::<DaemonInfoView>::empty());
        assert(views_of(removed@) =~= Seq::<DaemonInfoView>::empty());
        while i < listed.len()
            invariant
                i <= listed.len(),
                keep.len() == i,
                entries == self.entries(),
                views_of(listed@) == entries,
                forall|j: int| 0 <= j < i ==> keep[j] == !(j < stopped.len() && stopped[j]),
                views_of(removed@) == picked(entries.take(i as int), stopped@),
            decreases listed.len() - i,
        {
            assert(entries[i as int] == listed[i as int]@);
            assert(entries.take(i as int + 1).drop_last() =~= entries.take(i as int));
            let ghost so_far = views_of(removed@);
            let stop_it = i < stopped.len() && stopped[i];
            keep.push(!stop_it);
            if stop_it {
                let copy = listed[i].clone();
                removed.push(copy);
                assert(views_of(removed@) =~= so_far.push(entries[i as int]));
            }
            i += 1;
        }
        proof {
            assert(entries.take(listed.len() as int) =~= entries);
            lemma_kept_reads_prefix(entries, keep@, negated(stopped@));
        }
        self.registry.retain_alive(&keep);
        removed
    }

    /// Stops every registered daemon whose process is alive: probes each
    /// process in registration order and, where it answers, asks it to
    /// terminate; the records of the daemons that took the signal are then
    /// removed as [`Self::record_stops`] does. Records of processes that
    /// are gone stay. The sweep ends at the first probe or signal that
    /// fails, which can only happen where some record's id can name a
    /// process; what was stopped until then stays stopped. Returns the
    /// stopped records, in order, and whether the sweep ran to its end.
    pub fn stop_all_daemons(&mut self) -> (swept: (Vec<DaemonInfo>, Result<(), ErrorKind>))
        ensures
            final(self).dir() == old(self).dir(),
            swept.1 matches Err(e) ==> e == ErrorKind::ProcessControlFailure && some_process(
                old(self).entries(),
            ),
            (exists|stopped: Seq<bool>|
                {
                    &&& stopped.len() == old(self).entries().len()
                    &&& forall|i: int|
                        0 <= i < stopped.len() && #[trigger] stopped[i] ==> names_process(
                            old(self).entries()[i].pid,
                        )
                    &&& views_of(swept.0@) == picked(old(self).entries(), stopped)
                    &&& final(self).entries() == kept(old(self).entries(), negated(stopped))
                }),
    {
        let listed = self.registry.list();
        let ghost entries = self.entries();
        let mut stopped: Vec<bool> = Vec::new();
        let mut failure: Option<ErrorKind> = None;
        let mut i: usize = 0;
        while i < listed.len()
            invariant
                i <= listed.len(),
                stopped.len() == i,
                entries == self.entries(),
                views_of(listed@) == entries,
                failure matches Some(e) ==> e == ErrorKind::ProcessControlFailure && some_process(
                    entries,
                ),
                forall|j: int|
                    0 <= j < i && #[trigger] stopped[j] ==> names_process(entries[j].pid),
            decreases listed.len() - i,
        {
            assert(entries[i as int] == listed[i as int]@);
            let pid = listed[i].pid;
            let mut stop_it = false;
            if failure.is_none() {
                match self.is_daemon_running(pid) {
                    Ok(true) => match self.stop_daemon(pid) {
                        Ok(()) => {
                            stop_it = true;
                        },
                        Err(_) => {
                            failure = Some(ErrorKind::ProcessControlFailure);
                        },
                    },
                    Ok(false) => {},
                    Err(_) => {
                        failure = Some(ErrorKind::ProcessControlFailure);
                    },
                }
            }
            stopped.push(stop_it);
            i += 1;
        }
        let removed = self.record_stops(&stopped);
        let done = match failure {
            Some(e) => Err(e),
            None => Ok(()),
        };
        (removed, done)
    }

    /// Finds the live daemon of `repo_path`: first drops every stale
    /// record, then probes the repository's own process once more. A
    /// record whose process is gone is removed and `NotFound` is reported,
    /// as it is when there is no record. No record is ever added or
    /// altered. A sweep that fails changes nothing; otherwise the result
    /// is [`located`] for the answers that the probes gave.
    pub fn locate_running(&mut self, repo_path: &str) -> (found: Result<DaemonInfo, ErrorKind>)
        ensures
            final(self).dir() == old(self).dir(),
            match found {
                Ok(info) => lookup(old(self).entries(), repo_path@) == Some(info@) && lookup(
                    final(self).entries(),
                    repo_path@,
                ) == Some(info@),
                Err(e) => {
                    &&& e == ErrorKind::NotFound || e == ErrorKind::ProcessControlFailure
                    &&& e == ErrorKind::NotFound ==> lookup(final(self).entries(), repo_path@)
                        is None
                    &&& e == ErrorKind::ProcessControlFailure ==> some_process(
                        old(self).entries(),
                    )
                },
            },
            forall|repo: Seq<char>|
                (#[trigger] lookup(final(self).entries(), repo)) is None || lookup(
                    final(self).entries(),
                    repo,
                ) == lookup(old(self).entries(), repo),
            ({
                &&& found == Err::<DaemonInfo, ErrorKind>(ErrorKind::ProcessControlFailure)
                &&& final(self).entries() == old(self).entries()
            }) || (exists|alive: Seq<bool>, again: Option<bool>|
                {
                    &&& alive.len() == old(self).entries().len()
                    &&& forall|i: int|
                        0 <= i < alive.len() && !names_process(old(self).entries()[i].pid)
                            ==> !#[trigger] alive[i]
                    &&& #[trigger] located(
                        old(self).entries(),
                        repo_path@,
                        alive,
                        again,
                        final(self).entries(),
                        found,
                    )
                    &&& again != Some(false) ==> (lookup(
                        kept(old(self).entries(), alive),
                        repo_path@,
                    ) matches Some(info) && names_process(info.pid))
                }),
    {
        let ghost before = self.entries();
        proof {
            use_type_invariant(&self.registry);
        }
        match self.cleanup_stale_daemons() {
            Ok(()) => {},
            Err(e) => {
                return Err(e);
            },
        }
        let ghost swept = self.entries();
        let ghost alive = choose|alive: Seq<bool>|
            {
                &&& alive.len() == before.len()
                &&& forall|i: int|
                    0 <= i < alive.len() && !names_process(before[i].pid) ==> !#[trigger] alive[i]
                &&& swept == kept(before, alive)
            };
        proof {
            assert forall|repo: Seq<char>|
                (#[trigger] lookup(swept, repo)) is None || lookup(swept, repo) == lookup(
                    before,
                    repo,
                ) by {
                lemma_sweep_is_exact(before, alive, repo);
            }
            lemma_sweep_is_exact(before, alive, repo_path@);
            assert forall|repo: Seq<char>|
                (#[trigger] lookup(after_check(swept, repo_path@, false), repo)) is None || lookup(
                    after_check(swept, repo_path@, false),
                    repo,
                ) == lookup(before, repo) by {
                lemma_unregister_then_lookup(swept, repo_path@, repo);
                assert(lookup(swept, repo) is None || lookup(swept, repo) == lookup(before, repo));
            }
            lemma_unregister_then_lookup(swept, repo_path@, repo_path@);
        }
        let pid = match self.registry.get(repo_path) {
            Some(info) => info.pid,
            None => {
                let found = self.confirm_running(repo_path, false);
                assert(located(before, repo_path@, alive, Some(false), self.entries(), found));
                return found;
            },
        };
        match self.is_daemon_running(pid) {
            Ok(running) => {
                let found = self.confirm_running(repo_path, running);
                assert(located(before, repo_path@, alive, Some(running), self.entries(), found));
                found
            },
            Err(_) => {
                assert(names_process(before[repo_index(before, repo_path@)].pid));
                let found = Err(ErrorKind::ProcessControlFailure);
                assert(located(before, repo_path@, alive, None, self.entries(), found));
                found
            },
        }
    }
}

} // verus!
