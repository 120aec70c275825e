//! The description of a branch to mirror, and the key it is known by.

use crate::text::{
    after_first, after_last, before_first, before_last, chars_of, find_first, find_last,
    has_char, lemma_first_index_found, lemma_last_index_found,
};
use vstd::prelude::*;
use vstd::string::{StrSliceExecFns, StringExecFns};

verus! {

/// A branch of a repository to mirror.
#[derive(Clone, Debug, PartialEq)]
pub struct BranchSettings {
    /// Where the repository is, protocol included.
    pub url: String,
    pub branch_name: String,
    /// The key of the branch: owner, repository and branch name.
    pub key: String,
    /// The time between two polls, at least one millisecond.
    pub pull_request_interval_millis: u64,
    /// A path inside the working tree to which the mirror is confined.
    pub path_target: Option<String>,
}

/// The mathematical content of a [`BranchSettings`].
pub struct BranchSettingsModel {
    pub url: Seq<char>,
    pub branch_name: Seq<char>,
    pub key: Seq<char>,
    pub pull_request_interval_millis: u64,
    pub path_target: Option<Seq<char>>,
}

impl View for BranchSettings {
    type V = BranchSettingsModel;

    open spec fn view(&self) -> BranchSettingsModel {
        BranchSettingsModel {
            url: self.url@,
            branch_name: self.branch_name@,
            key: self.key@,
            pull_request_interval_millis: self.pull_request_interval_millis,
            path_target: match self.path_target {
                Some(inner) => Some(inner@),
                None => None,
            },
        }
    }
}

/// The last but one segment of `url`, the segments being what `/` parts.
pub open spec fn owner_segment(url: Seq<char>) -> Seq<char> {
    after_last(before_last(url, '/'), '/')
}

/// The owner that a segment names: the segment itself, or where it holds a
/// colon what stands between its first colon and its second.
pub open spec fn owner_of(segment: Seq<char>) -> Seq<char> {
    if has_char(segment, ':') {
        before_first(after_first(segment, ':'), ':')
    } else {
        segment
    }
}

/// The name of the repository: the last segment of `url` up to its first
/// dot.
pub open spec fn repo_of(url: Seq<char>) -> Seq<char> {
    before_first(after_last(url, '/'), '.')
}

/// The key of the branch `branch` of the repository at `url`.
pub open spec fn branch_key(url: Seq<char>, branch: Seq<char>) -> Seq<char> {
    owner_of(owner_segment(url)) + seq!['/'] + repo_of(url) + seq!['/'] + branch
}

impl BranchSettings {
    /// The settings of a branch, with the key derived from the URL and the
    /// name of the branch.
    pub fn new(
        url: String,
        branch_name: String,
        pull_request_interval_millis: u64,
        path_target: Option<String>,
    ) -> (s: Self)
        requires
            has_char(url@, '/'),
            pull_request_interval_millis >= 1,
        ensures
            s.url == url,
            s.branch_name == branch_name,
            s.pull_request_interval_millis == pull_request_interval_millis,
            s.path_target == path_target,
            s.key@ == branch_key(url@, branch_name@),
    {
        let key = Self::create_branch_key(url.as_str(), branch_name.as_str());
        BranchSettings { url, branch_name, key, pull_request_interval_millis, path_target }
    }

    /// The key of a branch: owner, repository name and branch name, with
    /// `/` between them.
    pub fn create_branch_key(url: &str, branch_name: &str) -> (key: String)
        requires
            has_char(url@, '/'),
        ensures
            key@ == branch_key(url@, branch_name@),
    {
        let chars = chars_of(url);
        let n = chars.len();
        proof {
            assert(chars@.subrange(0, n as int) =~= url@);
            lemma_last_index_found(url@, '/');
        }
        let tail_from = find_last(&chars, 0, n, '/');
        let head_to: usize = tail_from - 1;
        let ghost head = before_last(url@, '/');
        assert(head =~= chars@.subrange(0, head_to as int));
        let segment_from = find_last(&chars, 0, head_to, '/');
        let ghost segment = owner_segment(url@);
        assert(segment =~= chars@.subrange(segment_from as int, head_to as int));
        let ghost tail = after_last(url@, '/');
        assert(tail =~= chars@.subrange(tail_from as int, n as int));
        let repo_to = find_first(&chars, tail_from, n, '.');
        proof {
            lemma_first_index_found(tail, '.');
            lemma_first_index_found(segment, ':');
        }
        assert(repo_of(url@) =~= url@.subrange(tail_from as int, repo_to as int));
        let colon = find_first(&chars, segment_from, head_to, ':');
        let mut owner_from: usize = segment_from;
        let mut owner_to: usize = head_to;
        if colon < head_to {
            owner_from = colon + 1;
            let ghost rest = after_first(segment, ':');
            assert(rest =~= chars@.subrange(owner_from as int, head_to as int));
            owner_to = find_first(&chars, owner_from, head_to, ':');
            proof {
                lemma_first_index_found(rest, ':');
            }
            assert(owner_of(segment) =~= url@.subrange(owner_from as int, owner_to as int));
        } else {
            assert(owner_of(segment) =~= url@.subrange(owner_from as int, owner_to as int));
        }
        let mut key = url.substring_char(owner_from, owner_to).to_owned();
        proof {
            reveal_strlit("/");
        }
        key.append("/");
        key.append(url.substring_char(tail_from, repo_to));
        key.append("/");
        key.append(branch_name);
        assert(key@ =~= branch_key(url@, branch_name@));
        key
    }
}

} // verus!
