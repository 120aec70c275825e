//! The coordinator: the registry of the branches that are mirrored, each
//! with its settings and its cache.

use crate::branch_handler::BranchHandler;
use crate::branch_settings::BranchSettings;
use crate::cache::{Cache, Event, EventModel};
use crate::cache_branch::CacheBranch;
use crate::datum::Datum;
use crate::text::str_eq;
use vstd::prelude::*;

verus! {

/// What the coordinator can fail with.
#[derive(Debug, PartialEq)]
pub enum GitdisError {
    /// A branch of that key is registered already.
    RepoExists,
    /// The settings could not be handed to a worker.
    Sender(BranchSettings),
    /// No branch of that key is registered.
    BranchNotFound,
}

/// The settings of the coordinator.
#[derive(Clone, Debug)]
pub struct GitdisSettings {
    /// The capacity of the cache of each branch.
    pub total_branch_items: usize,
    /// The directory that the repositories are cloned into.
    pub local_clone_path: String,
}

/// A registered branch: its settings and its cache.
#[derive(Clone, Debug)]
pub struct Branch {
    pub settings: BranchSettings,
    pub cache: CacheBranch,
}

impl Branch {
    /// A branch of these settings with this cache.
    pub fn new(settings: BranchSettings, cache: CacheBranch) -> (b: Self)
        ensures
            b.settings == settings,
            b.cache == cache,
    {
        Branch { settings, cache }
    }

    /// The cache of the branch.
    pub fn get_data(&self) -> (c: &Cache<Datum>)
        ensures
            *c == self.cache.cache,
    {
        self.cache.get_data()
    }

    /// When the cache of the branch was created.
    pub fn get_create_at(&self) -> (t: u128)
        ensures
            t == self.cache.create_at,
    {
        self.cache.get_create_at()
    }

    /// The settings of the branch.
    pub fn get_settings(&self) -> (s: &BranchSettings)
        ensures
            *s == self.settings,
    {
        &self.settings
    }
}

/// The position of the first branch of key `key`, if any.
pub open spec fn find(branches: Seq<Branch>, key: Seq<char>) -> Option<int>
    decreases branches.len(),
{
    if branches.len() == 0 {
        None
    } else if branches.last().settings.key@ == key {
        match find(branches.drop_last(), key) {
            Some(i) => Some(i),
            None => Some(branches.len() - 1),
        }
    } else {
        find(branches.drop_last(), key)
    }
}

/// No two branches have the same key.
pub open spec fn distinct_keys(branches: Seq<Branch>) -> bool {
    forall|i: int, j: int|
        0 <= i < j < branches.len() ==> (#[trigger] branches[i]).settings.key@ != (
        #[trigger] branches[j]).settings.key@
}

/// The events that the caches of the branches hold, those of a branch in
/// their order, the branches in theirs.
pub open spec fn pending(branches: Seq<Branch>) -> Seq<EventModel<Datum>>
    decreases branches.len(),
{
    if branches.len() == 0 {
        Seq::empty()
    } else {
        pending(branches.drop_last()) + (match branches.last().cache.cache@.events {
            Some(log) => log,
            None => Seq::empty(),
        })
    }
}

/// What `find` gives is the first position of the key.
pub proof fn lemma_find(branches: Seq<Branch>, key: Seq<char>)
    ensures
        match find(branches, key) {
            Some(i) => {
                &&& 0 <= i < branches.len()
                &&& branches[i].settings.key@ == key
                &&& forall|j: int| 0 <= j < i ==> (#[trigger] branches[j]).settings.key@ != key
            },
            None => forall|j: int|
                0 <= j < branches.len() ==> (#[trigger] branches[j]).settings.key@ != key,
        },
    decreases branches.len(),
{
    if branches.len() > 0 {
        let init = branches.drop_last();
        lemma_find(init, key);
        match find(init, key) {
            Some(i) => {
                assert(init[i] == branches[i]);
                assert forall|j: int| 0 <= j < i implies (#[trigger] branches[j]).settings.key@
                    != key by {
                    assert(init[j] == branches[j]);
                }
            },
            None => {
                assert forall|j: int| 0 <= j < branches.len() - 1 implies (
                #[trigger] branches[j]).settings.key@ != key by {
                    assert(init[j] == branches[j]);
                }
            },
        }
    }
}

/// The coordinator.
#[derive(Debug)]
pub struct Gitdis {
    pub settings: GitdisSettings,
    /// The registered branches, in the order of their registration.
    pub branches: Vec<Branch>,
}

impl Gitdis {
    /// Validity: every cache is valid, no key is registered twice, and
    /// the capacity for new caches is at least one.
    pub open spec fn wf(&self) -> bool {
        &&& self.settings.total_branch_items >= 1
        &&& distinct_keys(self.branches@)
        &&& forall|i: int|
            0 <= i < self.branches@.len() ==> (#[trigger] self.branches@[i]).cache.cache.wf()
    }

    /// A coordinator without branches.
    pub fn new(settings: GitdisSettings) -> (g: Self)
        requires
            settings.total_branch_items >= 1,
        ensures
            g.wf(),
            g.settings == settings,
            g.branches@.len() == 0,
    {
        Gitdis { settings, branches: Vec::new() }
    }

    /// Replaces the settings. The caches of the registered branches keep
    /// their capacity.
    pub fn update_settings(&mut self, settings: GitdisSettings)
        requires
            old(self).wf(),
            settings.total_branch_items >= 1,
        ensures
            final(self).wf(),
            final(self).settings == settings,
            final(self).branches@ == old(self).branches@,
    {
        self.settings = settings;
    }

    /// The position of the branch of key `branch_key`.
    fn position(&self, branch_key: &str) -> (r: Option<usize>)
        ensures
            match r {
                Some(i) => find(self.branches@, branch_key@) == Some(i as int) && i
                    < self.branches@.len(),
                None => find(self.branches@, branch_key@) is None,
            },
    {
        let mut i: usize = 0;
        proof {
            lemma_find(self.branches@, branch_key@);
        }
        while i < self.branches.len()
            invariant
                0 <= i <= self.branches.len(),
                forall|j: int|
                    0 <= j < i ==> (#[trigger] self.branches@[j]).settings.key@ != branch_key@,
            decreases self.branches.len() - i,
        {
            if str_eq(self.branches[i].settings.key.as_str(), branch_key) {
                proof {
                    lemma_find(self.branches@, branch_key@);
                }
                return Some(i);
            }
            i += 1;
        }
        proof {
            lemma_find(self.branches@, branch_key@);
        }
        None
    }

    /// The branch of key `branch_key`.
    pub fn get_branch(&self, branch_key: &str) -> (r: Option<&Branch>)
        ensures
            match r {
                Some(b) => find(self.branches@, branch_key@) matches Some(i) && *b
                    == self.branches@[i],
                None => find(self.branches@, branch_key@) is None,
            },
    {
        match self.position(branch_key) {
            Some(i) => Some(&self.branches[i]),
            None => None,
        }
    }

    /// The cache of the branch of key `branch_key`.
    pub fn get_branch_cache(&self, branch_key: &str) -> (r: Option<&Cache<Datum>>)
        ensures
            match r {
                Some(c) => find(self.branches@, branch_key@) matches Some(i) && *c
                    == self.branches@[i].cache.cache,
                None => find(self.branches@, branch_key@) is None,
            },
    {
        match self.position(branch_key) {
            Some(i) => Some(&self.branches[i].cache.cache),
            None => None,
        }
    }

    /// The cache of the branch of key `branch_key`, to be changed in
    /// place. Nothing else of the coordinator is affected.
    pub fn get_branch_cache_mut(&mut self, branch_key: &str) -> (r: Option<&mut Cache<Datum>>)
        ensures
            final(self).settings == old(self).settings,
            match r {
                Some(c) => {
                    &&& find(old(self).branches@, branch_key@) matches Some(i)
                    &&& *c == old(self).branches@[i].cache.cache
                    &&& final(self).branches@ == old(self).branches@.update(
                        i,
                        Branch {
                            settings: old(self).branches@[i].settings,
                            cache: CacheBranch {
                                cache: *final(c),
                                create_at: old(self).branches@[i].cache.create_at,
                            },
                        },
                    )
                },
                None => find(old(self).branches@, branch_key@) is None && final(self).branches@
                    == old(self).branches@,
            },
    {
        match self.position(branch_key) {
            Some(i) => {
                let branch = &mut self.branches[i];
                Some(&mut branch.cache.cache)
            },
            None => None,
        }
    }

    /// Registers a branch with an empty cache created at `create_at`,
    /// unless a branch of its key is registered.
    pub fn add_branch(&mut self, settings: BranchSettings, create_at: u128) -> (r: Result<
        (),
        GitdisError,
    >)
        requires
            old(self).wf(),
        ensures
            final(self).wf(),
            final(self).settings == old(self).settings,
            match r {
                Ok(_) => {
                    &&& find(old(self).branches@, settings.key@) is None
                    &&& final(self).branches@.len() == old(self).branches@.len() + 1
                    &&& final(self).branches@.drop_last() == old(self).branches@
                    &&& final(self).branches@.last().settings == settings
                    &&& final(self).branches@.last().cache.create_at == create_at
                    &&& final(self).branches@.last().cache.cache@.entries.len() == 0
                    &&& final(self).branches@.last().cache.cache@.capacity
                        == old(self).settings.total_branch_items
                    &&& final(self).branches@.last().cache.cache@.events == Some(
                        Seq::<EventModel<Datum>>::empty(),
                    )
                },
                Err(e) => e == GitdisError::RepoExists && find(old(self).branches@, settings.key@)
                    is Some && final(self).branches@ == old(self).branches@,
            },
    {
        if self.position(settings.key.as_str()).is_some() {
            return Err(GitdisError::RepoExists);
        }
        proof {
            lemma_find(self.branches@, settings.key@);
        }
        let cache = CacheBranch::new(self.settings.total_branch_items, create_at);
        let ghost before = self.branches@;
        self.branches.push(Branch { settings, cache });
        assert(self.branches@.drop_last() =~= before);
        Ok(())
    }

    /// The synchronizer of the branch of key `branch_key`, ready to be
    /// run.
    pub fn listen_branch(&self, branch_key: &str) -> (r: Result<BranchHandler, GitdisError>)
        ensures
            match r {
                Ok(h) => find(self.branches@, branch_key@) matches Some(i) && handler_for(
                    self.settings,
                    self.branches@[i].settings,
                    h,
                ),
                Err(e) => e == GitdisError::BranchNotFound && find(self.branches@, branch_key@)
                    is None,
            },
    {
        match self.position(branch_key) {
            Some(i) => Ok(self.handler(i)),
            None => Err(GitdisError::BranchNotFound),
        }
    }

    /// The synchronizer of the branch at position `i`.
    fn handler(&self, i: usize) -> (h: BranchHandler)
        requires
            i < self.branches@.len(),
        ensures
            handler_for(self.settings, self.branches@[i as int].settings, h),
    {
        let settings = &self.branches[i].settings;
        BranchHandler::new(
            self.settings.local_clone_path.clone(),
            settings.url.clone(),
            settings.branch_name.clone(),
            settings.pull_request_interval_millis,
            settings.path_target.clone(),
        )
    }

    /// The synchronizers of all the branches, in the order of their
    /// registration.
    pub fn listen_all_branches(&self) -> (list: Vec<BranchHandler>)
        ensures
            list@.len() == self.branches@.len(),
            forall|i: int|
                0 <= i < list@.len() ==> handler_for(
                    self.settings,
                    (#[trigger] self.branches@[i]).settings,
                    list@[i],
                ),
    {
        let mut list: Vec<BranchHandler> = Vec::new();
        let mut i: usize = 0;
        while i < self.branches.len()
            invariant
                0 <= i <= self.branches.len(),
                list@.len() == i,
                forall|j: int|
                    0 <= j < i ==> handler_for(
                        self.settings,
                        (#[trigger] self.branches@[j]).settings,
                        list@[j],
                    ),
            decreases self.branches.len() - i,
        {
            list.push(self.handler(i));
            i += 1;
        }
        list
    }

    /// The events that the caches have recorded since the last call:
    /// those of one cache in the order of its changes. The logs are left
    /// empty.
    pub fn take_events(&mut self) -> (out: Vec<Event<Datum>>)
        requires
            old(self).wf(),
        ensures
            final(self).wf(),
            final(self).settings == old(self).settings,
            out@.map_values(|e: Event<Datum>| e@) == pending(old(self).branches@),
            pending(final(self).branches@).len() == 0,
            final(self).branches@.len() == old(self).branches@.len(),
            forall|i: int|
                0 <= i < final(self).branches@.len() ==> {
                    &&& (#[trigger] final(self).branches@[i]).settings
                        == old(self).branches@[i].settings
                    &&& final(self).branches@[i].cache.create_at
                        == old(self).branches@[i].cache.create_at
                    &&& final(self).branches@[i].cache.cache@.entries
                        == old(self).branches@[i].cache.cache@.entries
                    &&& final(self).branches@[i].cache.cache@.capacity
                        == old(self).branches@[i].cache.cache@.capacity
                },
    {
        let mut out: Vec<Event<Datum>> = Vec::new();
        let mut i: usize = 0;
        let ghost start = self.branches@;
        assert(start.take(0) =~= Seq::<Branch>::empty());
        assert(out@.map_values(|e: Event<Datum>| e@) =~= pending(start.take(0)));
        while i < self.branches.len()
            invariant
                0 <= i <= self.branches.len(),
                self.settings == old(self).settings,
                self.branches@.len() == start.len(),
                start == old(self).branches@,
                old(self).wf(),
                out@.map_values(|e: Event<Datum>| e@) == pending(start.take(i as int)),
                pending(self.branches@.take(i as int)).len() == 0,
                forall|j: int| i <= j < start.len() ==> self.branches@[j] == start[j],
                forall|j: int|
                    0 <= j < start.len() ==> {
                        &&& (#[trigger] self.branches@[j]).settings == start[j].settings
                        &&& self.branches@[j].cache.create_at == start[j].cache.create_at
                        &&& self.branches@[j].cache.cache@.entries == start[j].cache.cache@.entries
                        &&& self.branches@[j].cache.cache@.capacity
                            == start[j].cache.cache@.capacity
                        &&& self.branches@[j].cache.cache.wf()
                    },
            decreases self.branches.len() - i,
        {
            let ghost before = out@.map_values(|e: Event<Datum>| e@);
            let ghost current = self.branches@;
            let ghost log = match start[i as int].cache.cache@.events {
                Some(log) => log,
                None => Seq::empty(),
            };
            let mut taken = self.branches[i].cache.cache.take_events();
            assert(taken@.map_values(|e: Event<Datum>| e@) =~= log);
            out.append(&mut taken);
            proof {
                assert(out@.map_values(|e: Event<Datum>| e@) =~= before + log);
                assert(start.take(i + 1).drop_last() =~= start.take(i as int));
                assert(start.take(i + 1).last() == start[i as int]);
                assert(self.branches@.take(i + 1).drop_last() =~= current.take(i as int));
                assert(pending(self.branches@.take(i + 1)) =~= Seq::<EventModel<Datum>>::empty());
            }
            i += 1;
        }
        proof {
            assert(start.take(i as int) =~= start);
            assert(self.branches@.take(i as int) =~= self.branches@);
        }
        out
    }
}

/// Whether `h` is the synchronizer that the coordinator's settings and
/// those of a branch describe.
pub open spec fn handler_for(settings: GitdisSettings, branch: BranchSettings, h: BranchHandler)
    -> bool {
    &&& h.clone_path@ == settings.local_clone_path@
    &&& h.url@ == branch.url@
    &&& h.branch_name@ == branch.branch_name@
    &&& h.pull_request_interval_millis == branch.pull_request_interval_millis
    &&& h.current_commit_hash@.len() == 0
    &&& crate::text::views(h.ignore@) == BranchHandler::default_ignore()
    &&& h.repo_path@ == crate::text::path_in(
        settings.local_clone_path@,
        crate::branch_handler::repo_name(branch.url@),
    )
    &&& h.target_path@ == (match branch.path_target {
        Some(inner) => crate::text::path_in(h.repo_path@, inner@),
        None => h.repo_path@,
    })
}

} // verus!
