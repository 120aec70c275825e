//! What a transport asks of the service and what it is answered: the
//! bodies of requests, the parameters of paths, and how errors show.

use crate::branch_settings::{branch_key, BranchSettings};
use crate::services::GitdisServiceError;
use crate::text::{chars_of, find_first, has_char, lemma_first_index_found};
use vstd::prelude::*;
use vstd::string::StringExecFns;

verus! {

/// The request to mirror a branch.
#[derive(Clone, Debug, PartialEq)]
pub struct CreateRepo {
    pub url: String,
    /// The branch; `main` where none is given.
    pub branch_name: Option<String>,
    /// The time between two polls; 3000 where none is given.
    pub pull_request_interval_millis: Option<u64>,
}

/// The parameters of the path of a read.
#[derive(Clone, Debug, PartialEq)]
pub struct ObjectParams {
    pub owner: String,
    pub repo: String,
    pub branch: String,
    pub object_key: String,
}

/// The body of an answer that reports an error.
#[derive(Clone, Debug, PartialEq)]
pub struct MessageError {
    pub message: String,
}

/// The key of a branch and the time of its creation.
#[derive(Clone, Debug, PartialEq)]
pub struct ObjectBranchData {
    pub key: String,
    pub create_at: u128,
}

/// The status that reports an error of the service.
pub open spec fn error_status(e: GitdisServiceError) -> u16 {
    match e {
        GitdisServiceError::RepoAlreadyExists => 409,
        GitdisServiceError::BranchNotFound => 404,
        GitdisServiceError::InternalError(_) => 500,
    }
}

/// The message that reports an error of the service.
pub open spec fn error_message(e: GitdisServiceError) -> Seq<char> {
    match e {
        GitdisServiceError::RepoAlreadyExists => "Repo already exists"@,
        GitdisServiceError::BranchNotFound => "Branch not found"@,
        GitdisServiceError::InternalError(detail) => detail@,
    }
}

impl CreateRepo {
    /// The settings that the request asks for; nothing where its URL
    /// holds no `/`, or where it asks for no time between two polls.
    pub fn into_settings(self) -> (r: Option<BranchSettings>)
        ensures
            match r {
                Some(s) => {
                    &&& has_char(self.url@, '/')
                    &&& self.pull_request_interval_millis != Some(0u64)
                    &&& s.url@ == self.url@
                    &&& s.branch_name@ == (match self.branch_name {
                        Some(name) => name@,
                        None => "main"@,
                    })
                    &&& s.pull_request_interval_millis == (match self.pull_request_interval_millis {
                        Some(millis) => millis,
                        None => 3000,
                    })
                    &&& s.path_target is None
                    &&& s.key@ == branch_key(s.url@, s.branch_name@)
                },
                None => !has_char(self.url@, '/') || self.pull_request_interval_millis == Some(
                    0u64,
                ),
            },
    {
        let chars = chars_of(self.url.as_str());
        let n = chars.len();
        assert(chars@.subrange(0, n as int) =~= self.url@);
        let at = find_first(&chars, 0, n, '/');
        proof {
            lemma_first_index_found(self.url@, '/');
        }
        if at >= n {
            return None;
        }
        let branch_name = match self.branch_name {
            Some(name) => name,
            None => "main".to_owned(),
        };
        let millis = match self.pull_request_interval_millis {
            Some(millis) => millis,
            None => 3000,
        };
        if millis == 0 {
            return None;
        }
        Some(BranchSettings::new(self.url, branch_name, millis, None))
    }
}

impl ObjectParams {
    /// The key of the branch that the parameters name.
    pub fn get_branch_key(&self) -> (key: String)
        ensures
            key@ == self.owner@ + seq!['/'] + self.repo@ + seq!['/'] + self.branch@,
    {
        let mut key = self.owner.clone();
        proof {
            reveal_strlit("/");
        }
        key.append("/");
        key.append(self.repo.as_str());
        key.append("/");
        key.append(self.branch.as_str());
        assert(key@ =~= self.owner@ + seq!['/'] + self.repo@ + seq!['/'] + self.branch@);
        key
    }
}

impl MessageError {
    /// The body that reports `message`.
    pub fn new(message: String) -> (m: Self)
        ensures
            m.message == message,
    {
        MessageError { message }
    }
}

/// The status and the body that report an error of the service.
pub fn resolve_errors(e: GitdisServiceError) -> (r: (u16, MessageError))
    ensures
        r.0 == error_status(e),
        r.1.message@ == error_message(e),
{
    match e {
        GitdisServiceError::RepoAlreadyExists => (
            409,
            MessageError::new("Repo already exists".to_owned()),
        ),
        GitdisServiceError::BranchNotFound => (
            404,
            MessageError::new("Branch not found".to_owned()),
        ),
        GitdisServiceError::InternalError(detail) => (500, MessageError::new(detail)),
    }
}

} // verus!
