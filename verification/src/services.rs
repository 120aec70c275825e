//! The service: the coordinator behind the operations that a transport
//! offers, with the errors that a transport tells apart.

use crate::branch_handler::BranchHandler;
use crate::branch_settings::BranchSettings;
use crate::datum::{member, Datum, DatumModel};
use crate::entries::lookup;
use crate::gitdis::{find, handler_for, Gitdis, GitdisError, GitdisSettings};
use crate::text::{
    chars_of, find_first, find_last, first_index, last_index, lemma_first_index_found,
    lemma_last_index_found,
};
use vstd::prelude::*;
use vstd::string::StrSliceExecFns;

verus! {

/// What the service can fail with.
#[derive(Debug, Clone, PartialEq)]
pub enum GitdisServiceError {
    RepoAlreadyExists,
    BranchNotFound,
    InternalError(String),
}

/// The service.
#[derive(Debug)]
pub struct GitdisService {
    pub gitdis: Gitdis,
}

/// What the service answers when a branch is added.
#[derive(Clone, Debug, PartialEq)]
pub struct ServiceAddBranchResponse {
    pub url: String,
    pub branch_name: String,
    pub key: String,
    pub pull_request_interval_millis: u64,
    pub path_target: Option<String>,
    pub create_at: u128,
}

/// The key and the property that a link names. A link is a key, or a key
/// followed by a property between its first `(` and its last `)`.
pub open spec fn link_parts(link: Seq<char>) -> (Seq<char>, Option<Seq<char>>) {
    let open = first_index(link, '(');
    let close = last_index(link, ')');
    if open < close {
        (link.take(open), Some(link.subrange(open + 1, close)))
    } else {
        (link, None)
    }
}

/// What a link finds among the entries of a cache: the value under its
/// key, or the member that its property names of the object under its
/// key.
pub open spec fn resolved(entries: Seq<(Seq<char>, Datum)>, link: Seq<char>) -> Option<
    DatumModel,
> {
    let (key, property) = link_parts(link);
    match lookup(entries, key) {
        None => None,
        Some(value) => match property {
            None => Some(value@),
            Some(name) => match value@ {
                DatumModel::Object(members) => member(members, name),
                _ => None,
            },
        },
    }
}

/// The error of the service that an error of the coordinator becomes.
pub fn map_error(e: GitdisError) -> (r: GitdisServiceError)
    ensures
        match e {
            GitdisError::RepoExists => r == GitdisServiceError::RepoAlreadyExists,
            GitdisError::BranchNotFound => r == GitdisServiceError::BranchNotFound,
            GitdisError::Sender(_) => r matches GitdisServiceError::InternalError(detail)
                && detail@ == "the settings could not be sent"@,
        },
{
    match e {
        GitdisError::RepoExists => GitdisServiceError::RepoAlreadyExists,
        GitdisError::BranchNotFound => GitdisServiceError::BranchNotFound,
        GitdisError::Sender(_) => GitdisServiceError::InternalError(
            "the settings could not be sent".to_owned(),
        ),
    }
}

impl GitdisService {
    /// Validity: that of the coordinator.
    pub open spec fn wf(&self) -> bool {
        self.gitdis.wf()
    }

    /// A service without branches.
    pub fn new(settings: GitdisSettings) -> (s: Self)
        requires
            settings.total_branch_items >= 1,
        ensures
            s.wf(),
            s.gitdis.settings == settings,
            s.gitdis.branches@.len() == 0,
    {
        GitdisService { gitdis: Gitdis::new(settings) }
    }

    /// Registers a branch, created at `create_at`, and answers with its
    /// settings and the time of its creation.
    pub fn add_branch(&mut self, settings: BranchSettings, create_at: u128) -> (r: Result<
        ServiceAddBranchResponse,
        GitdisServiceError,
    >)
        requires
            old(self).wf(),
        ensures
            final(self).wf(),
            final(self).gitdis.settings == old(self).gitdis.settings,
            match r {
                Ok(response) => {
                    &&& find(old(self).gitdis.branches@, settings.key@) is None
                    &&& final(self).gitdis.branches@.len() == old(self).gitdis.branches@.len()
                        + 1
                    &&& final(self).gitdis.branches@.drop_last() == old(self).gitdis.branches@
                    &&& final(self).gitdis.branches@.last().settings@ == settings@
                    &&& final(self).gitdis.branches@.last().cache.cache@.entries.len() == 0
                    &&& final(self).gitdis.branches@.last().cache.create_at == create_at
                    &&& response.url@ == settings.url@
                    &&& response.branch_name@ == settings.branch_name@
                    &&& response.key@ == settings.key@
                    &&& response.pull_request_interval_millis
                        == settings.pull_request_interval_millis
                    &&& option_view(response.path_target) == option_view(settings.path_target)
                    &&& response.create_at == create_at
                },
                Err(e) => {
                    &&& e == GitdisServiceError::RepoAlreadyExists
                    &&& find(old(self).gitdis.branches@, settings.key@) is Some
                    &&& final(self).gitdis.branches@ == old(self).gitdis.branches@
                },
            },
    {
        let response = ServiceAddBranchResponse {
            url: settings.url.clone(),
            branch_name: settings.branch_name.clone(),
            key: settings.key.clone(),
            pull_request_interval_millis: settings.pull_request_interval_millis,
            path_target: clone_option(&settings.path_target),
            create_at,
        };
        match self.gitdis.add_branch(settings, create_at) {
            Ok(_) => Ok(response),
            Err(e) => Err(map_error(e)),
        }
    }

    /// The synchronizer of the branch of key `branch_key`, ready to be
    /// run.
    pub fn listen_branch(&self, branch_key: &str) -> (r: Result<BranchHandler, GitdisServiceError>)
        ensures
            match r {
                Ok(h) => find(self.gitdis.branches@, branch_key@) matches Some(i) && handler_for(
                    self.gitdis.settings,
                    self.gitdis.branches@[i].settings,
                    h,
                ),
                Err(e) => e == GitdisServiceError::BranchNotFound && find(
                    self.gitdis.branches@,
                    branch_key@,
                ) is None,
            },
    {
        match self.gitdis.listen_branch(branch_key) {
            Ok(h) => Ok(h),
            Err(e) => Err(map_error(e)),
        }
    }

    /// The key and the property that `link` names.
    pub fn get_key_and_property(link: &str) -> (r: (String, Option<String>))
        ensures
            r.0@ == link_parts(link@).0,
            option_view(r.1) == link_parts(link@).1,
    {
        let chars = chars_of(link);
        let n = chars.len();
        assert(chars@.subrange(0, n as int) =~= link@);
        let open = find_first(&chars, 0, n, '(');
        let after_close = find_last(&chars, 0, n, ')');
        proof {
            lemma_first_index_found(link@, '(');
            lemma_last_index_found(link@, ')');
        }
        if after_close > 0 && open < after_close - 1 {
            let key = link.substring_char(0, open).to_owned();
            let property = link.substring_char(open + 1, after_close - 1).to_owned();
            assert(key@ =~= link@.take(open as int));
            (key, Some(property))
        } else {
            (link.to_owned(), None)
        }
    }

    /// What `link` finds in the cache of the branch of key `branch_key`.
    pub fn get_data(&self, branch_key: &str, link: &str) -> (r: Result<
        Option<Datum>,
        GitdisServiceError,
    >)
        requires
            self.wf(),
        ensures
            match r {
                Ok(found) => {
                    &&& find(self.gitdis.branches@, branch_key@) matches Some(i)
                    &&& datum_view(found) == resolved(
                        self.gitdis.branches@[i].cache.cache@.entries,
                        link@,
                    )
                },
                Err(e) => e == GitdisServiceError::BranchNotFound && find(
                    self.gitdis.branches@,
                    branch_key@,
                ) is None,
            },
    {
        let (key, property) = Self::get_key_and_property(link);
        match self.gitdis.get_branch_cache(branch_key) {
            Some(cache) => {
                proof {
                    crate::gitdis::lemma_find(self.gitdis.branches@, branch_key@);
                }
                match cache.get(key.as_str()) {
                    None => Ok(None),
                    Some(value) => match property {
                        None => Ok(Some(value.clone())),
                        Some(name) => match value.get(name.as_str()) {
                            Some(inner) => Ok(Some(inner.clone())),
                            None => Ok(None),
                        },
                    },
                }
            },
            None => Err(GitdisServiceError::BranchNotFound),
        }
    }
}

/// The content of an optional string.
pub open spec fn option_view(s: Option<String>) -> Option<Seq<char>> {
    match s {
        Some(text) => Some(text@),
        None => None,
    }
}

/// The content of an optional value.
pub open spec fn datum_view(d: Option<Datum>) -> Option<DatumModel> {
    match d {
        Some(value) => Some(value@),
        None => None,
    }
}

/// A copy of an optional string.
fn clone_option(s: &Option<String>) -> (r: Option<String>)
    ensures
        option_view(r) == option_view(*s),
{
    match s {
        Some(text) => Some(text.clone()),
        None => None,
    }
}

} // verus!
