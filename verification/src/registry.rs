//! The daemon registry: at most one daemon record per repository.

use crate::text::{decimal, push_decimal, str_eq};
use vstd::prelude::*;

verus! {

/// Metadata of one running daemon.
#[derive(Debug)]
pub struct DaemonInfo {
    pub pid: u32,
    pub port: u16,
    pub repo_path: String,
    pub base_branch: String,
}

/// The mathematical value of a [`DaemonInfo`].
pub struct DaemonInfoView {
    pub pid: u32,
    pub port: u16,
    pub repo_path: Seq<char>,
    pub base_branch: Seq<char>,
}

impl View for DaemonInfo {
    type V = DaemonInfoView;

    open spec fn view(&self) -> DaemonInfoView {
        DaemonInfoView {
            pid: self.pid,
            port: self.port,
            repo_path: self.repo_path@,
            base_branch: self.base_branch@,
        }
    }
}

impl DaemonInfo {
    /// The address at which the daemon serves its repository.
    pub fn url(&self) -> (url: String)
        ensures
            url@ == "http://localhost:"@ + decimal(self.port as nat),
    {
        let mut url = "http://localhost:".to_owned();
        push_decimal(&mut url, self.port as u64);
        url
    }
}

impl Clone for DaemonInfo {
    fn clone(&self) -> (copy: Self)
        ensures
            copy@ == self@,
    {
        DaemonInfo {
            pid: self.pid,
            port: self.port,
            repo_path: self.repo_path.clone(),
            base_branch: self.base_branch.clone(),
        }
    }
}

/// The values of a sequence of records.
pub open spec fn views_of(infos: Seq<DaemonInfo>) -> Seq<DaemonInfoView> {
    infos.map_values(|d: DaemonInfo| d@)
}

/// No two records name the same repository.
pub open spec fn repos_distinct(entries: Seq<DaemonInfoView>) -> bool {
    forall|i: int, j: int|
        0 <= i < j < entries.len() ==> (#[trigger] entries[i]).repo_path
            != (#[trigger] entries[j]).repo_path
}

/// Whether some record names `repo`.
pub open spec fn has_repo(entries: Seq<DaemonInfoView>, repo: Seq<char>) -> bool {
    exists|i: int| 0 <= i < entries.len() && (#[trigger] entries[i]).repo_path == repo
}

/// The position of the record that names `repo`; meaningful when there is one.
pub open spec fn repo_index(entries: Seq<DaemonInfoView>, repo: Seq<char>) -> int {
    choose|i: int| 0 <= i < entries.len() && (#[trigger] entries[i]).repo_path == repo
}

/// The record registered for `repo`, if any.
pub open spec fn lookup(entries: Seq<DaemonInfoView>, repo: Seq<char>) -> Option<DaemonInfoView> {
    if has_repo(entries, repo) {
        Some(entries[repo_index(entries, repo)])
    } else {
        None
    }
}

/// `entries` after registering `info`: the record of the same repository is
/// replaced where it stands, a new repository is appended.
pub open spec fn upsert(entries: Seq<DaemonInfoView>, info: DaemonInfoView) -> Seq<DaemonInfoView> {
    if has_repo(entries, info.repo_path) {
        entries.update(repo_index(entries, info.repo_path), info)
    } else {
        entries.push(info)
    }
}

/// `entries` without the record of `repo`; unchanged when there is none.
pub open spec fn without(entries: Seq<DaemonInfoView>, repo: Seq<char>) -> Seq<DaemonInfoView> {
    if has_repo(entries, repo) {
        entries.remove(repo_index(entries, repo))
    } else {
        entries
    }
}

/// Whether some record holds `port`.
pub open spec fn port_taken(entries: Seq<DaemonInfoView>, port: u16) -> bool {
    exists|i: int| 0 <= i < entries.len() && (#[trigger] entries[i]).port == port
}

/// The records of `entries` that survive a liveness sweep, in their order:
/// the record at position `i` is dropped exactly when `alive[i]` is `false`.
/// A record for which `alive` has no answer is kept.
pub open spec fn kept(entries: Seq<DaemonInfoView>, alive: Seq<bool>) -> Seq<DaemonInfoView>
    decreases entries.len(),
{
    if entries.len() == 0 {
        entries
    } else {
        let front = kept(entries.drop_last(), alive);
        let last = entries.len() - 1;
        if last < alive.len() && !alive[last] {
            front
        } else {
            front.push(entries.last())
        }
    }
}

/// Every record that survives a sweep stood in the registry before it, and
/// survivors keep their relative order.
pub proof fn lemma_kept_embeds(entries: Seq<DaemonInfoView>, alive: Seq<bool>) -> (origin: Seq<int>)
    ensures
        origin.len() == kept(entries, alive).len(),
        forall|k: int|
            0 <= k < origin.len() ==> 0 <= #[trigger] origin[k] < entries.len() && kept(
                entries,
                alive,
            )[k] == entries[origin[k]] && !(origin[k] < alive.len() && !alive[origin[k]]),
        forall|k: int, l: int| 0 <= k < l < origin.len() ==> origin[k] < origin[l],
        forall|i: int|
            0 <= i < entries.len() && !(i < alive.len() && !alive[i]) ==> origin.contains(i),
    decreases entries.len(),
{
    if entries.len() == 0 {
        Seq::<int>::empty()
    } else {
        let front = lemma_kept_embeds(entries.drop_last(), alive);
        let last = entries.len() - 1;
        if last < alive.len() && !alive[last] {
            assert forall|i: int|
                0 <= i < entries.len() && !(i < alive.len() && !alive[i]) implies front.contains(
                i,
            ) by {
                assert(0 <= i < entries.drop_last().len());
            }
            front
        } else {
            let origin = front.push(last);
            assert forall|i: int|
                0 <= i < entries.len() && !(i < alive.len() && !alive[i]) implies origin.contains(
                i,
            ) by {
                if i < last {
                    assert(front.contains(i));
                    let k = choose|k: int| 0 <= k < front.len() && front[k] == i;
                    assert(origin[k] == i);
                } else {
                    assert(origin[front.len() as int] == i);
                }
            }
            origin
        }
    }
}

/// A sweep reads its answers only to learn which records are reported
/// dead: two sequences of answers that report the same positions dead give
/// the same result.
pub proof fn lemma_kept_reads_prefix(entries: Seq<DaemonInfoView>, a: Seq<bool>, b: Seq<bool>)
    requires
        forall|i: int|
            0 <= i < entries.len() ==> (i < a.len() && !a[i]) == (i < b.len() && !b[i]),
    ensures
        kept(entries, a) == kept(entries, b),
    decreases entries.len(),
{
    if entries.len() > 0 {
        lemma_kept_reads_prefix(entries.drop_last(), a, b);
    }
}

/// The records of `entries` that `flags` picks out, in their order: the
/// record at position `i` is picked exactly when `flags[i]` is `true`. A
/// record for which `flags` has no answer is not picked.
pub open spec fn picked(entries: Seq<DaemonInfoView>, flags: Seq<bool>) -> Seq<DaemonInfoView>
    decreases entries.len(),
{
    if entries.len() == 0 {
        entries
    } else {
        let front = picked(entries.drop_last(), flags);
        let last = entries.len() - 1;
        if last < flags.len() && flags[last] {
            front.push(entries.last())
        } else {
            front
        }
    }
}

/// Picking reads only the flags that stand at the positions of records.
pub proof fn lemma_picked_reads_prefix(entries: Seq<DaemonInfoView>, a: Seq<bool>, b: Seq<bool>)
    requires
        forall|i: int|
            0 <= i < entries.len() ==> (i < a.len() && a[i]) == (i < b.len() && b[i]),
    ensures
        picked(entries, a) == picked(entries, b),
    decreases entries.len(),
{
    if entries.len() > 0 {
        lemma_picked_reads_prefix(entries.drop_last(), a, b);
    }
}

/// A liveness sweep keeps the repositories of a registry distinct.
pub proof fn lemma_kept_distinct(entries: Seq<DaemonInfoView>, alive: Seq<bool>)
    requires
        repos_distinct(entries),
    ensures
        repos_distinct(kept(entries, alive)),
{
    let origin = lemma_kept_embeds(entries, alive);
    let after = kept(entries, alive);
    assert forall|i: int, j: int| 0 <= i < j < after.len() implies (#[trigger] after[i]).repo_path
        != (#[trigger] after[j]).repo_path by {
        assert(origin[i] < origin[j]);
        assert(entries[origin[i]].repo_path != entries[origin[j]].repo_path);
    }
}

/// In a registry with distinct repositories, the record at position `i` is
/// the one that `repo_index` finds for its repository.
pub proof fn lemma_index_is_unique(entries: Seq<DaemonInfoView>, i: int)
    requires
        repos_distinct(entries),
        0 <= i < entries.len(),
    ensures
        has_repo(entries, entries[i].repo_path),
        repo_index(entries, entries[i].repo_path) == i,
{
    let repo = entries[i].repo_path;
    let j = repo_index(entries, repo);
    if j < i {
        assert(entries[j].repo_path != entries[i].repo_path);
    } else if i < j {
        assert(entries[i].repo_path != entries[j].repo_path);
    }
}

/// Registering keeps the repositories distinct, and afterwards the
/// registered repository maps to the new record while every other
/// repository maps to what it mapped to before.
pub proof fn lemma_register_then_lookup(
    entries: Seq<DaemonInfoView>,
    info: DaemonInfoView,
    repo: Seq<char>,
)
    requires
        repos_distinct(entries),
    ensures
        repos_distinct(upsert(entries, info)),
        lookup(upsert(entries, info), repo) == if repo == info.repo_path {
            Some(info)
        } else {
            lookup(entries, repo)
        },
{
    let after = upsert(entries, info);
    let replaced = has_repo(entries, info.repo_path);
    let at = if replaced {
        repo_index(entries, info.repo_path)
    } else {
        entries.len() as int
    };
    assert(after[at] == info);
    assert forall|i: int, j: int| 0 <= i < j < after.len() implies (#[trigger] after[i]).repo_path
        != (#[trigger] after[j]).repo_path by {
        if !replaced && j == at {
            assert(entries[i].repo_path != info.repo_path);
        } else {
            assert(entries[i].repo_path != entries[j].repo_path);
        }
    }
    lemma_index_is_unique(after, at);
    if repo != info.repo_path {
        if has_repo(entries, repo) {
            let k = repo_index(entries, repo);
            assert(after[k] == entries[k]);
            lemma_index_is_unique(after, k);
        } else if has_repo(after, repo) {
            let k = repo_index(after, repo);
            assert(entries[k].repo_path == repo);
        }
    }
}

/// The position that the record at position `i` had before the record at
/// position `at` was removed.
spec fn before_removal(at: int, i: int) -> int {
    if i < at {
        i
    } else {
        i + 1
    }
}

/// Unregistering keeps the repositories distinct, and afterwards the
/// removed repository maps to nothing while every other repository maps to
/// what it mapped to before.
pub proof fn lemma_unregister_then_lookup(
    entries: Seq<DaemonInfoView>,
    removed: Seq<char>,
    repo: Seq<char>,
)
    requires
        repos_distinct(entries),
    ensures
        repos_distinct(without(entries, removed)),
        lookup(without(entries, removed), repo) == if repo == removed {
            None
        } else {
            lookup(entries, repo)
        },
{
    let after = without(entries, removed);
    if has_repo(entries, removed) {
        let at = repo_index(entries, removed);
        assert forall|i: int| 0 <= i < after.len() implies #[trigger] after[i]
            == entries[before_removal(at, i)] by {}
        assert forall|i: int, j: int| 0 <= i < j < after.len() implies (
        #[trigger] after[i]).repo_path != (#[trigger] after[j]).repo_path by {
            let a = before_removal(at, i);
            let b = before_removal(at, j);
            assert(entries[a].repo_path != entries[b].repo_path);
        }
        if has_repo(after, repo) {
            let origin = before_removal(at, repo_index(after, repo));
            assert(entries[origin].repo_path == repo);
            lemma_index_is_unique(entries, origin);
        } else if repo != removed && has_repo(entries, repo) {
            let k = repo_index(entries, repo);
            let target = if k < at {
                k
            } else {
                k - 1
            };
            assert(after[target] == entries[k]);
        }
    }
}

/// A liveness sweep removes exactly the records whose process failed the
/// probe: afterwards a repository maps to its old record when that
/// record's process was alive, and to nothing otherwise.
pub proof fn lemma_sweep_is_exact(entries: Seq<DaemonInfoView>, alive: Seq<bool>, repo: Seq<char>)
    requires
        repos_distinct(entries),
        alive.len() == entries.len(),
    ensures
        repos_distinct(kept(entries, alive)),
        lookup(kept(entries, alive), repo) == if has_repo(entries, repo) && alive[repo_index(
            entries,
            repo,
        )] {
            lookup(entries, repo)
        } else {
            None
        },
{
    let after = kept(entries, alive);
    let origin = lemma_kept_embeds(entries, alive);
    lemma_kept_distinct(entries, alive);
    if has_repo(after, repo) {
        let k = repo_index(after, repo);
        assert(after[k] == entries[origin[k]]);
        lemma_index_is_unique(entries, origin[k]);
    }
    if has_repo(entries, repo) && alive[repo_index(entries, repo)] {
        let i = repo_index(entries, repo);
        assert(origin.contains(i));
        let k = choose|k: int| 0 <= k < origin.len() && origin[k] == i;
        assert(after[k] == entries[i]);
        lemma_index_is_unique(after, k);
    }
}

/// The durable mapping from repository identity to daemon record, kept in
/// registration order.
pub struct DaemonRegistry {
    entries: Vec<DaemonInfo>,
}

impl View for DaemonRegistry {
    type V = Seq<DaemonInfoView>;

    closed spec fn view(&self) -> Seq<DaemonInfoView> {
        views_of(self.entries@)
    }
}

impl DaemonRegistry {
    /// Every registry names each repository at most once.
    #[verifier::type_invariant]
    pub open spec fn distinct(self) -> bool {
        repos_distinct(self@)
    }

    /// An empty registry.
    pub fn new() -> (registry: Self)
        ensures
            registry@ == Seq::<DaemonInfoView>::empty(),
    {
        DaemonRegistry { entries: Vec::new() }
    }

    /// The number of records.
    pub fn len(&self) -> (n: usize)
        ensures
            n == self@.len(),
    {
        self.entries.len()
    }

    /// The records in registration order.
    pub fn list(&self) -> (listed: Vec<DaemonInfo>)
        ensures
            views_of(listed@) == self@,
    {
        let mut listed: Vec<DaemonInfo> = Vec::new();
        let mut i: usize = 0;
        while i < self.entries.len()
            invariant
                i <= self.entries.len(),
                views_of(listed@) == self@.take(i as int),
            decreases self.entries.len() - i,
        {
            let copy = self.entries[i].clone();
            let ghost so_far = views_of(listed@);
            listed.push(copy);
            assert(views_of(listed@) =~= so_far.push(copy@));
            assert(self@.take(i as int + 1) =~= self@.take(i as int).push(self@[i as int]));
            i += 1;
        }
        listed
    }

    /// Whether some record holds `port`.
    pub fn uses_port(&self, port: u16) -> (taken: bool)
        ensures
            taken == port_taken(self@, port),
    {
        let mut i: usize = 0;
        while i < self.entries.len()
            invariant
                i <= self.entries.len(),
                forall|j: int| 0 <= j < i ==> (#[trigger] self@[j]).port != port,
            decreases self.entries.len() - i,
        {
            if self.entries[i].port == port {
                assert(self@[i as int].port == port);
                return true;
            }
            i += 1;
        }
        false
    }

    /// Drops the records that a liveness sweep found dead: the record at
    /// position `i` goes exactly when `alive[i]` is `false`.
    pub fn retain_alive(&mut self, alive: &Vec<bool>)
        ensures
            final(self)@ == kept(old(self)@, alive@),
    {
        proof {
            use_type_invariant(&*self);
        }
        let mut entries: Vec<DaemonInfo> = Vec::new();
        core::mem::swap(&mut self.entries, &mut entries);
        let ghost before = views_of(entries@);
        let mut survivors: Vec<DaemonInfo> = Vec::new();
        let mut i: usize = 0;
        while i < entries.len()
            invariant
                i <= entries.len(),
                before == views_of(entries@),
                views_of(survivors@) == kept(before.take(i as int), alive@),
            decreases entries.len() - i,
        {
            let ghost seen = before.take(i as int + 1);
            assert(seen.drop_last() =~= before.take(i as int));
            assert(seen.last() == before[i as int]);
            if !(i < alive.len() && !alive[i]) {
                let copy = entries[i].clone();
                survivors.push(copy);
                assert(views_of(survivors@) =~= kept(before.take(i as int), alive@).push(
                    before[i as int],
                ));
            }
            i += 1;
        }
        proof {
            assert(before.take(entries.len() as int) =~= before);
            lemma_kept_distinct(before, alive@);
        }
        self.entries = survivors;
    }

    /// The position of the record for `repo_path`.
    fn position(&self, repo_path: &str) -> (found: Option<usize>)
        ensures
            found is Some <==> has_repo(self@, repo_path@),
            found matches Some(i) ==> i == repo_index(self@, repo_path@) && i < self@.len(),
    {
        proof {
            use_type_invariant(self);
        }
        let mut i: usize = 0;
        while i < self.entries.len()
            invariant
                i <= self.entries.len(),
                repos_distinct(self@),
                forall|j: int| 0 <= j < i ==> (#[trigger] self@[j]).repo_path != repo_path@,
            decreases self.entries.len() - i,
        {
            if str_eq(self.entries[i].repo_path.as_str(), repo_path) {
                proof {
                    lemma_index_is_unique(self@, i as int);
                }
                return Some(i);
            }
            i += 1;
        }
        None
    }

    /// The record registered for `repo_path`, if any.
    pub fn get(&self, repo_path: &str) -> (found: Option<&DaemonInfo>)
        ensures
            match found {
                Some(info) => lookup(self@, repo_path@) == Some(info@),
                None => lookup(self@, repo_path@) is None,
            },
    {
        match self.position(repo_path) {
            Some(i) => Some(&self.entries[i]),
            None => None,
        }
    }

    /// Registers `info`, replacing the record of the same repository.
    pub fn insert(&mut self, info: DaemonInfo)
        ensures
            final(self)@ == upsert(old(self)@, info@),
    {
        proof {
            use_type_invariant(&*self);
        }
        let found = self.position(info.repo_path.as_str());
        let mut entries: Vec<DaemonInfo> = Vec::new();
        core::mem::swap(&mut self.entries, &mut entries);
        let ghost before = views_of(entries@);
        match found {
            Some(i) => {
                entries[i] = info;
                assert(views_of(entries@) =~= before.update(i as int, info@));
            },
            None => {
                entries.push(info);
                assert(views_of(entries@) =~= before.push(info@));
            },
        }
        self.entries = entries;
    }

    /// Removes the record of `repo_path`; does nothing when there is none.
    pub fn remove(&mut self, repo_path: &str)
        ensures
            final(self)@ == without(old(self)@, repo_path@),
    {
        proof {
            use_type_invariant(&*self);
        }
        let found = self.position(repo_path);
        let mut entries: Vec<DaemonInfo> = Vec::new();
        core::mem::swap(&mut self.entries, &mut entries);
        let ghost before = views_of(entries@);
        if let Some(i) = found {
            entries.remove(i);
            assert(views_of(entries@) =~= before.remove(i as int));
        }
        self.entries = entries;
    }
}

} // verus!
