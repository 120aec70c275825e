//! The synchronizer of one branch: where its working copy lies, which
//! files of it count, under which keys they enter the cache, and what a
//! new commit asks to be done.

use crate::cache::{Cache, CacheModel};
use crate::datum::{Datum, DatumModel};
use crate::document::{content, discard, discard_key, store_value, stored_value};
use crate::entries::Entries;
use crate::path_map::PathMap;
use crate::payload::{
    decodes_to, flatten_into, is_valid_file, leaves, parse_value, refs, valid_file, Ref,
    RefModel,
};
use crate::text::{
    after_last, before_first, chars_of, contains, dotted, ends_with, find_first, find_last,
    has_part, lemma_first_index_found, lemma_last_index_found, path_in,
    path_in_string, replaced, signed_decimal, signed_decimal_string, split, split_text, starts_with, str_eq, views, without_prefix,
    without_suffix,
};
use vstd::prelude::*;
use vstd::string::{StrSliceExecFns, StringExecFns};

verus! {

/// What a run of git failed with: its exit code, if it had one, and what
/// it wrote to its error stream.
#[derive(Debug, PartialEq)]
pub enum BranchHandlerError {
    GitError((Option<i32>, String)),
}

/// The report of a failed run of git.
pub open spec fn git_error_text(code: Option<i32>, stderr: Seq<char>) -> Seq<char> {
    "Git error: code: "@ + (match code {
        Some(c) => "Some("@ + signed_decimal(c as int) + ")"@,
        None => "None"@,
    }) + ", error: "@ + stderr
}

impl BranchHandlerError {
    /// The error in words.
    pub fn message(&self) -> (text: String)
        ensures
            match self {
                BranchHandlerError::GitError(e) => text@ == git_error_text(e.0, e.1@),
            },
    {
        match self {
            BranchHandlerError::GitError(e) => {
                let mut text = "Git error: code: ".to_owned();
                match e.0 {
                    Some(c) => {
                        text.append("Some(");
                        let digits = signed_decimal_string(c);
                        text.append(digits.as_str());
                        text.append(")");
                    },
                    None => {
                        text.append("None");
                    },
                }
                text.append(", error: ");
                text.append(e.1.as_str());
                assert(text@ =~= git_error_text(e.0, e.1@));
                text
            },
        }
    }
}

/// The synchronizer of one branch.
#[derive(Debug)]
pub struct BranchHandler {
    /// The directory that the repositories are cloned into.
    pub clone_path: String,
    pub url: String,
    pub branch_name: String,
    /// A path is ignored where it holds one of these.
    pub ignore: Vec<String>,
    /// The working copy of the repository.
    pub repo_path: String,
    /// The last commit observed; empty before the first.
    pub current_commit_hash: String,
    pub pull_request_interval_millis: u64,
    /// The part of the working copy that is walked at the start.
    pub target_path: String,
}

/// The name of the repository at `url`: its last segment without an
/// ending `.git`.
pub open spec fn repo_name(url: Seq<char>) -> Seq<char> {
    without_suffix(after_last(url, '/'), ".git"@)
}

/// The key under which the file at `path` enters the cache: the path
/// inside the working copy up to its first dot, with `.` for `/`.
pub open spec fn cache_key(repo_path: Seq<char>, path: Seq<char>) -> Seq<char> {
    replaced(before_first(without_prefix(path, repo_path + seq!['/']), '.'), '/', '.')
}

/// Whether `path` holds one of the `ignore` parts.
pub open spec fn ignored(ignore: Seq<Seq<char>>, path: Seq<char>) -> bool {
    exists|i: int| 0 <= i < ignore.len() && has_part(path, #[trigger] ignore[i])
}

/// Whether the file at `path` is left out: it is ignored, or it is no
/// configuration file.
pub open spec fn rejected(ignore: Seq<Seq<char>>, path: Seq<char>) -> bool {
    ignored(ignore, path) || !valid_file(path)
}

impl BranchHandler {
    /// The paths that every synchronizer ignores.
    pub open spec fn default_ignore() -> Seq<Seq<char>> {
        seq!["/.git/"@]
    }

    /// The synchronizer of the branch `branch_name` of the repository at
    /// `url`, whose working copy lies in `data_path` under the name of the
    /// repository, and whose walk starts at `target_path` inside it.
    pub fn new(
        data_path: String,
        url: String,
        branch_name: String,
        pull_request_interval_millis: u64,
        target_path: Option<String>,
    ) -> (h: Self)
        ensures
            h.clone_path == data_path,
            h.url == url,
            h.branch_name == branch_name,
            h.pull_request_interval_millis == pull_request_interval_millis,
            views(h.ignore@) == Self::default_ignore(),
            h.repo_path@ == path_in(data_path@, repo_name(url@)),
            h.current_commit_hash@.len() == 0,
            h.target_path@ == (match target_path {
                Some(inner) => path_in(h.repo_path@, inner@),
                None => h.repo_path@,
            }),
    {
        let chars = chars_of(url.as_str());
        let n = chars.len();
        assert(chars@.subrange(0, n as int) =~= url@);
        let from = find_last(&chars, 0, n, '/');
        proof {
            lemma_last_index_found(url@, '/');
        }
        let ghost tail = after_last(url@, '/');
        assert(tail =~= url@.subrange(from as int, n as int));
        let suffix = chars_of(".git");
        let to: usize = if ends_with(&chars, &suffix) && n - from >= suffix.len() {
            n - suffix.len()
        } else {
            n
        };
        proof {
            let m = suffix@.len();
            if m <= tail.len() {
                assert(tail.subrange(tail.len() - m, tail.len() as int) =~= url@.subrange(
                    n - m,
                    n as int,
                ));
            }
            assert(repo_name(url@) =~= url@.subrange(from as int, to as int));
        }
        let repo_path = path_in_string(data_path.as_str(), url.as_str().substring_char(from, to));
        let target_path = match &target_path {
            Some(inner) => path_in_string(repo_path.as_str(), inner.as_str()),
            None => repo_path.clone(),
        };
        let mut ignore: Vec<String> = Vec::new();
        ignore.push("/.git/".to_owned());
        assert(views(ignore@) =~= Self::default_ignore());
        BranchHandler {
            clone_path: data_path,
            url,
            branch_name,
            ignore,
            repo_path,
            current_commit_hash: String::new(),
            pull_request_interval_millis,
            target_path,
        }
    }

    /// Moves the working copy to `path` inside it.
    pub fn concat_repo_path(&mut self, path: &str)
        ensures
            final(self).repo_path@ == path_in(old(self).repo_path@, path@),
            final(self).clone_path == old(self).clone_path,
            final(self).url == old(self).url,
            final(self).branch_name == old(self).branch_name,
            final(self).ignore == old(self).ignore,
            final(self).current_commit_hash == old(self).current_commit_hash,
            final(self).pull_request_interval_millis == old(self).pull_request_interval_millis,
            final(self).target_path == old(self).target_path,
    {
        self.repo_path = path_in_string(self.repo_path.as_str(), path);
    }

    /// The key under which the file at `path` enters the cache.
    pub fn fix_key(&self, path: &str) -> (key: String)
        ensures
            key@ == cache_key(self.repo_path@, path@),
    {
        let chars = chars_of(path);
        let n = chars.len();
        let mut root = self.repo_path.clone();
        proof {
            reveal_strlit("/");
        }
        root.append("/");
        let prefix = chars_of(root.as_str());
        assert(prefix@ =~= self.repo_path@ + seq!['/']);
        let from: usize = if starts_with(&chars, &prefix) {
            prefix.len()
        } else {
            0
        };
        let ghost inside = without_prefix(path@, self.repo_path@ + seq!['/']);
        assert(inside =~= chars@.subrange(from as int, n as int));
        let to = find_first(&chars, from, n, '.');
        proof {
            lemma_first_index_found(inside, '.');
            assert(before_first(inside, '.') =~= path@.subrange(from as int, to as int));
        }
        dotted(path, from, to)
    }

    /// Whether `path` holds one of the ignored parts.
    pub fn is_ignore(&self, path: &str) -> (b: bool)
        ensures
            b == ignored(views(self.ignore@), path@),
    {
        let chars = chars_of(path);
        let mut i: usize = 0;
        while i < self.ignore.len()
            invariant
                0 <= i <= self.ignore.len(),
                chars@ == path@,
                forall|j: int| 0 <= j < i ==> !has_part(path@, #[trigger] views(self.ignore@)[j]),
            decreases self.ignore.len() - i,
        {
            let part = chars_of(self.ignore[i].as_str());
            assert(views(self.ignore@)[i as int] == part@);
            if contains(&chars, &part) {
                return true;
            }
            i += 1;
        }
        false
    }

    /// Whether `path` names a configuration file.
    pub fn is_valid_file(&self, path: &str) -> (b: bool)
        ensures
            b == valid_file(path@),
    {
        is_valid_file(path)
    }

    /// Whether the file at `path` is left out.
    pub fn rejects(&self, path: &str) -> (b: bool)
        ensures
            b == rejected(views(self.ignore@), path@),
    {
        self.is_ignore(path) || !self.is_valid_file(path)
    }

    /// Whether `head` is a commit other than the last one observed.
    pub fn has_moved(&self, head: &str) -> (b: bool)
        ensures
            b == (head@ != self.current_commit_hash@),
    {
        !str_eq(head, self.current_commit_hash.as_str())
    }

    /// Takes `head` for the last commit observed.
    pub fn advance(&mut self, head: String)
        ensures
            final(self).current_commit_hash == head,
            final(self).clone_path == old(self).clone_path,
            final(self).url == old(self).url,
            final(self).branch_name == old(self).branch_name,
            final(self).ignore == old(self).ignore,
            final(self).repo_path == old(self).repo_path,
            final(self).pull_request_interval_millis == old(self).pull_request_interval_millis,
            final(self).target_path == old(self).target_path,
    {
        self.current_commit_hash = head;
    }
}

/// What a commit did to a file.
#[derive(Debug, Clone, Copy, PartialEq, Eq)]
pub enum Status {
    Added,
    Modified,
    Deleted,
    Renamed,
    Copied,
}

/// One record of a name-status diff.
#[derive(Debug, Clone, PartialEq)]
pub struct Change {
    pub status: Status,
    /// The path of the file, inside the working copy.
    pub path: String,
    /// The second path of a renamed or copied file.
    pub new_path: Option<String>,
}

/// The mathematical content of a [`Change`].
pub struct ChangeModel {
    pub status: Status,
    pub path: Seq<char>,
    pub new_path: Option<Seq<char>>,
}

impl View for Change {
    type V = ChangeModel;

    open spec fn view(&self) -> ChangeModel {
        ChangeModel {
            status: self.status,
            path: self.path@,
            new_path: match self.new_path {
                Some(p) => Some(p@),
                None => None,
            },
        }
    }
}

/// The status that a status token stands for: `A` and `D` as they are,
/// and whatever begins with `R`, `C` or `M`.
pub open spec fn status_of(token: Seq<char>) -> Option<Status> {
    if token == seq!['A'] {
        Some(Status::Added)
    } else if token == seq!['D'] {
        Some(Status::Deleted)
    } else if token.len() > 0 && token[0] == 'R' {
        Some(Status::Renamed)
    } else if token.len() > 0 && token[0] == 'C' {
        Some(Status::Copied)
    } else if token.len() > 0 && token[0] == 'M' {
        Some(Status::Modified)
    } else {
        None
    }
}

/// Whether a record of this status has two paths.
pub open spec fn two_paths(status: Status) -> bool {
    status is Renamed || status is Copied
}

/// Whether the token at position `j` is a path: a token that is not
/// empty and that NUL ends. The last token is what follows the last NUL,
/// so no NUL ends it.
pub open spec fn path_at(tokens: Seq<Seq<char>>, j: int) -> bool {
    0 <= j < tokens.len() - 1 && tokens[j].len() > 0
}

/// The records that the tokens from position `i` on hold. A record is a
/// status token and after it the paths of the status, one or two. An
/// empty status token ends the records, and so does a record that is cut
/// off: one of whose paths is missing, empty, or not ended by NUL. A
/// status token that stands for no status is passed over.
pub open spec fn records(tokens: Seq<Seq<char>>, i: int) -> Seq<ChangeModel>
    decreases tokens.len() - i,
{
    if i < 0 || i >= tokens.len() || tokens[i].len() == 0 {
        Seq::empty()
    } else {
        match status_of(tokens[i]) {
            None => records(tokens, i + 1),
            Some(status) => if two_paths(status) {
                if path_at(tokens, i + 1) && path_at(tokens, i + 2) {
                    seq![
                        ChangeModel { status, path: tokens[i + 1], new_path: Some(tokens[i + 2]) },
                    ] + records(tokens, i + 3)
                } else {
                    Seq::empty()
                }
            } else {
                if path_at(tokens, i + 1) {
                    seq![ChangeModel { status, path: tokens[i + 1], new_path: None }] + records(
                        tokens,
                        i + 2,
                    )
                } else {
                    Seq::empty()
                }
            },
        }
    }
}

/// The records of a name-status diff, a text of tokens that NUL ends:
/// the complete records up to the first empty status token or the first
/// record that is cut off.
pub open spec fn diff_records(output: Seq<char>) -> Seq<ChangeModel> {
    records(split(output, '\0'), 0)
}

/// The contents of a list of changes.
pub open spec fn change_views(list: Seq<Change>) -> Seq<ChangeModel> {
    list.map_values(|c: Change| c@)
}

/// The status that a status token stands for.
fn classify(token: &str) -> (r: Option<Status>)
    ensures
        r == status_of(token@),
{
    let chars = chars_of(token);
    if chars.len() == 0 {
        return None;
    }
    let first = chars[0];
    if chars.len() == 1 && first == 'A' {
        assert(token@ =~= seq!['A']);
        Some(Status::Added)
    } else if chars.len() == 1 && first == 'D' {
        assert(token@ =~= seq!['D']);
        Some(Status::Deleted)
    } else if first == 'R' {
        Some(Status::Renamed)
    } else if first == 'C' {
        Some(Status::Copied)
    } else if first == 'M' {
        Some(Status::Modified)
    } else {
        None
    }
}

/// The complete records of a name-status diff, up to the first empty
/// status token or the first record that is cut off.
pub fn parse_diff(output: &str) -> (changes: Vec<Change>)
    ensures
        change_views(changes@) == diff_records(output@),
{
    let tokens = split_text(output, '\0');
    let ghost all = split(output@, '\0');
    let mut changes: Vec<Change> = Vec::new();
    let mut i: usize = 0;
    assert(change_views(changes@) + records(all, 0) =~= records(all, 0));
    loop
        invariant
            all == views(tokens@),
            all == split(output@, '\0'),
            0 <= i <= tokens.len() + 2,
            diff_records(output@) == change_views(changes@) + records(all, i as int),
        decreases tokens.len() + 2 - i,
    {
        if i >= tokens.len() {
            assert(change_views(changes@) + records(all, i as int) =~= change_views(changes@));
            return changes;
        }
        assert(all[i as int] == tokens@[i as int]@);
        if tokens[i].as_str().unicode_len() == 0 {
            assert(change_views(changes@) + records(all, i as int) =~= change_views(changes@));
            return changes;
        }
        let ghost before = change_views(changes@);
        match classify(tokens[i].as_str()) {
            None => {
                i += 1;
            },
            Some(status) => {
                let second = match status {
                    Status::Renamed => true,
                    Status::Copied => true,
                    _ => false,
                };
                if second {
                    if tokens.len() - i <= 3 {
                        assert(before + records(all, i as int) =~= before);
                        return changes;
                    }
                    assert(all[i + 1] == tokens@[i + 1]@);
                    assert(all[i + 2] == tokens@[i + 2]@);
                    if tokens[i + 1].as_str().unicode_len() == 0 || tokens[i
                        + 2].as_str().unicode_len() == 0 {
                        assert(before + records(all, i as int) =~= before);
                        return changes;
                    }
                    let change = Change {
                        status,
                        path: tokens[i + 1].clone(),
                        new_path: Some(tokens[i + 2].clone()),
                    };
                    changes.push(change);
                    assert(change_views(changes@) =~= before + seq![change@]);
                    assert(before + records(all, i as int) =~= change_views(changes@) + records(
                        all,
                        i + 3,
                    ));
                    i += 3;
                } else {
                    if tokens.len() - i <= 2 {
                        assert(before + records(all, i as int) =~= before);
                        return changes;
                    }
                    assert(all[i + 1] == tokens@[i + 1]@);
                    if tokens[i + 1].as_str().unicode_len() == 0 {
                        assert(before + records(all, i as int) =~= before);
                        return changes;
                    }
                    let change = Change { status, path: tokens[i + 1].clone(), new_path: None };
                    changes.push(change);
                    assert(change_views(changes@) =~= before + seq![change@]);
                    assert(before + records(all, i as int) =~= change_views(changes@) + records(
                        all,
                        i + 2,
                    ));
                    i += 2;
                }
            },
        }
    }
}

/// What is to be done to the cache for a change.
#[derive(Debug, Clone, PartialEq)]
pub enum Step {
    /// The file is to be read, decoded and stored under the key.
    Load { file: String, key: String },
    /// The key is to leave the cache.
    Remove { key: String },
}

/// The mathematical content of a [`Step`].
pub enum StepModel {
    Load { file: Seq<char>, key: Seq<char> },
    Remove { key: Seq<char> },
}

impl View for Step {
    type V = StepModel;

    open spec fn view(&self) -> StepModel {
        match self {
            Step::Load { file, key } => StepModel::Load { file: file@, key: key@ },
            Step::Remove { key } => StepModel::Remove { key: key@ },
        }
    }
}

/// The contents of a list of steps.
pub open spec fn step_views(list: Seq<Step>) -> Seq<StepModel> {
    list.map_values(|s: Step| s@)
}

/// The steps that a change asks for. A change whose file is left out asks
/// for none. An added, modified or copied file is loaded; a deleted one
/// leaves the cache. Of a renamed file the new path is loaded, unless it
/// is left out, and the old key leaves the cache, unless the new file was
/// loaded under that same key.
pub open spec fn steps_of(change: ChangeModel, repo_path: Seq<char>, ignore: Seq<Seq<char>>) -> Seq<
    StepModel,
> {
    let file = path_in(repo_path, change.path);
    let key = cache_key(repo_path, file);
    if rejected(ignore, file) {
        Seq::empty()
    } else {
        match change.status {
            Status::Deleted => seq![StepModel::Remove { key }],
            Status::Renamed => match change.new_path {
                Some(path) => {
                    let new_file = path_in(repo_path, path);
                    let new_key = cache_key(repo_path, new_file);
                    if rejected(ignore, new_file) {
                        seq![StepModel::Remove { key }]
                    } else if new_key == key {
                        seq![StepModel::Load { file: new_file, key: new_key }]
                    } else {
                        seq![
                            StepModel::Load { file: new_file, key: new_key },
                            StepModel::Remove { key },
                        ]
                    }
                },
                None => Seq::empty(),
            },
            _ => seq![StepModel::Load { file, key }],
        }
    }
}

/// The steps that the first `n` changes ask for, in their order.
pub open spec fn plan_of(
    changes: Seq<ChangeModel>,
    n: nat,
    repo_path: Seq<char>,
    ignore: Seq<Seq<char>>,
) -> Seq<StepModel>
    decreases n,
{
    if n == 0 || n > changes.len() {
        Seq::empty()
    } else {
        plan_of(changes, (n - 1) as nat, repo_path, ignore) + steps_of(
            changes[n - 1],
            repo_path,
            ignore,
        )
    }
}

/// What a step makes of a cache, `document` being what the file of a
/// `Load` step decodes to.
pub open spec fn applied(c: CacheModel<DatumModel>, step: StepModel, document: DatumModel)
    -> CacheModel<DatumModel> {
    match step {
        StepModel::Load { file, key } => stored_value(c, key, document),
        StepModel::Remove { key } => discard(c, key),
    }
}

impl BranchHandler {
    /// The steps that `change` asks for.
    pub fn steps(&self, change: &Change) -> (list: Vec<Step>)
        ensures
            step_views(list@) == steps_of(change@, self.repo_path@, views(self.ignore@)),
    {
        let mut list: Vec<Step> = Vec::new();
        let file = path_in_string(self.repo_path.as_str(), change.path.as_str());
        if self.rejects(file.as_str()) {
            assert(step_views(list@) =~= Seq::empty());
            return list;
        }
        let key = self.fix_key(file.as_str());
        match change.status {
            Status::Deleted => {
                list.push(Step::Remove { key });
            },
            Status::Renamed => {
                match &change.new_path {
                    Some(path) => {
                        let new_file = path_in_string(self.repo_path.as_str(), path.as_str());
                        if self.rejects(new_file.as_str()) {
                            list.push(Step::Remove { key });
                        } else {
                            let new_key = self.fix_key(new_file.as_str());
                            let same = str_eq(new_key.as_str(), key.as_str());
                            list.push(Step::Load { file: new_file, key: new_key });
                            if !same {
                                list.push(Step::Remove { key });
                            }
                        }
                    },
                    None => {},
                }
            },
            _ => {
                list.push(Step::Load { file, key });
            },
        }
        assert(step_views(list@) =~= steps_of(change@, self.repo_path@, views(self.ignore@)));
        list
    }

    /// The steps that `changes` ask for, in their order.
    pub fn plan(&self, changes: &Vec<Change>) -> (list: Vec<Step>)
        ensures
            step_views(list@) == plan_of(
                change_views(changes@),
                changes@.len(),
                self.repo_path@,
                views(self.ignore@),
            ),
    {
        let mut list: Vec<Step> = Vec::new();
        let mut i: usize = 0;
        assert(step_views(list@) =~= Seq::empty());
        while i < changes.len()
            invariant
                0 <= i <= changes.len(),
                step_views(list@) == plan_of(
                    change_views(changes@),
                    i as nat,
                    self.repo_path@,
                    views(self.ignore@),
                ),
            decreases changes.len() - i,
        {
            let ghost before = step_views(list@);
            let mut more = self.steps(&changes[i]);
            let ghost added = step_views(more@);
            assert(change_views(changes@)[i as int] == changes@[i as int]@);
            list.append(&mut more);
            assert(step_views(list@) =~= before + added);
            i += 1;
        }
        list
    }

    /// What a new commit asks for. Where `head` is the commit last
    /// observed there is nothing to do. Otherwise `head` becomes the
    /// commit last observed, and the steps are those that the records of
    /// `diff`, the name-status diff of the commit, ask for.
    pub fn update(&mut self, head: String, diff: &str) -> (list: Vec<Step>)
        ensures
            final(self).clone_path == old(self).clone_path,
            final(self).url == old(self).url,
            final(self).branch_name == old(self).branch_name,
            final(self).ignore == old(self).ignore,
            final(self).repo_path == old(self).repo_path,
            final(self).pull_request_interval_millis == old(self).pull_request_interval_millis,
            final(self).target_path == old(self).target_path,
            final(self).current_commit_hash@ == head@,
            step_views(list@) == (if head@ == old(self).current_commit_hash@ {
                Seq::empty()
            } else {
                plan_of(
                    diff_records(diff@),
                    diff_records(diff@).len(),
                    old(self).repo_path@,
                    views(old(self).ignore@),
                )
            }),
    {
        if !self.has_moved(head.as_str()) {
            let list: Vec<Step> = Vec::new();
            assert(step_views(list@) =~= Seq::empty());
            return list;
        }
        self.advance(head);
        let changes = parse_diff(diff);
        self.plan(&changes)
    }
}

/// Does to `cache` what `step` asks for, `document` being what the file
/// of a `Load` step decodes to.
pub fn apply_step(cache: &mut Cache<Datum>, step: &Step, document: &Datum)
    requires
        old(cache).wf(),
    ensures
        final(cache).wf(),
        content(final(cache)@) == applied(content(old(cache)@), step@, document@),
        old(cache)@.within_capacity() ==> final(cache)@.within_capacity(),
{
    match step {
        Step::Load { file, key } => {
            store_value(cache, key.as_str(), document);
        },
        Step::Remove { key } => {
            discard_key(cache, key.as_str());
        },
    }
}

/// Does to `cache` what `step` asks for, `text` being what the file of a
/// `Load` step holds: the step is applied with a document that the text
/// can decode to.
pub fn run_step(cache: &mut Cache<Datum>, step: &Step, text: &str)
    requires
        old(cache).wf(),
    ensures
        final(cache).wf(),
        old(cache)@.within_capacity() ==> final(cache)@.within_capacity(),
        exists|document: DatumModel|
            {
                &&& step@ matches StepModel::Load { file, key } ==> decodes_to(
                    file,
                    text@,
                    document,
                )
                &&& content(final(cache)@) == #[trigger] applied(
                    content(old(cache)@),
                    step@,
                    document,
                )
            },
{
    let ghost before = content(cache@);
    match step {
        Step::Load { file, key } => {
            let document = parse_value(file.as_str(), text);
            store_value(cache, key.as_str(), &document);
            assert(content(cache@) == applied(before, step@, document@));
        },
        Step::Remove { key } => {
            discard_key(cache, key.as_str());
            assert(content(cache@) == applied(before, step@, DatumModel::Undefined));
        },
    }
}

/// Key and content of each document of a list.
pub open spec fn document_views(docs: Seq<(String, Datum)>) -> Seq<(Seq<char>, DatumModel)> {
    docs.map_values(|d: (String, Datum)| (d.0@, d.1@))
}

/// The leaves of the first `n` documents, each rooted at its key, put
/// together in their order.
pub open spec fn merged_leaves(docs: Seq<(Seq<char>, DatumModel)>, n: nat) -> Entries<DatumModel>
    decreases n,
{
    if n == 0 || n > docs.len() {
        Seq::empty()
    } else {
        leaves(docs[n - 1].1, docs[n - 1].0, merged_leaves(docs, (n - 1) as nat))
    }
}

/// The reference records of the first `n` documents, put together in
/// their order.
pub open spec fn merged_refs(docs: Seq<(Seq<char>, DatumModel)>, n: nat) -> Entries<RefModel>
    decreases n,
{
    if n == 0 || n > docs.len() {
        Seq::empty()
    } else {
        refs(docs[n - 1].1, docs[n - 1].0, merged_refs(docs, (n - 1) as nat))
    }
}

/// The leaves and the reference records of `docs`, each a key and the
/// document rooted at it, put together in their order.
pub fn merge_documents(docs: &Vec<(String, Datum)>) -> (r: (PathMap<Datum>, PathMap<Ref>))
    ensures
        r.0.wf(),
        r.1.wf(),
        r.0.content() == merged_leaves(document_views(docs@), docs@.len()),
        r.1.content() == merged_refs(document_views(docs@), docs@.len()),
{
    let mut flat: PathMap<Datum> = PathMap::new();
    let mut index: PathMap<Ref> = PathMap::new();
    assert(flat.content() =~= Seq::empty());
    assert(index.content() =~= Seq::empty());
    let mut i: usize = 0;
    while i < docs.len()
        invariant
            0 <= i <= docs.len(),
            flat.wf(),
            index.wf(),
            flat.content() == merged_leaves(document_views(docs@), i as nat),
            index.content() == merged_refs(document_views(docs@), i as nat),
        decreases docs.len() - i,
    {
        assert(document_views(docs@)[i as int] == (docs@[i as int].0@, docs@[i as int].1@));
        flatten_into(&docs[i].1, docs[i].0.clone(), &mut flat, &mut index);
        i += 1;
    }
    (flat, index)
}

/// The files among the first `n` that are not left out, in their order.
pub open spec fn selected(
    files: Seq<(Seq<char>, Seq<char>)>,
    n: nat,
    ignore: Seq<Seq<char>>,
) -> Seq<(Seq<char>, Seq<char>)>
    decreases n,
{
    if n == 0 || n > files.len() {
        Seq::empty()
    } else if rejected(ignore, files[n - 1].0) {
        selected(files, (n - 1) as nat, ignore)
    } else {
        selected(files, (n - 1) as nat, ignore).push(files[n - 1])
    }
}

/// Whether `docs` can be the documents of `files`: one for each file,
/// with the key of the file and a document that its text can decode to.
pub open spec fn documents_of(
    files: Seq<(Seq<char>, Seq<char>)>,
    repo_path: Seq<char>,
    docs: Seq<(Seq<char>, DatumModel)>,
) -> bool {
    &&& docs.len() == files.len()
    &&& forall|i: int|
        0 <= i < docs.len() ==> {
            &&& (#[trigger] docs[i]).0 == cache_key(repo_path, files[i].0)
            &&& decodes_to(files[i].0, files[i].1, docs[i].1)
        }
}

/// Path and text of each file of a list.
pub open spec fn file_views(files: Seq<(String, String)>) -> Seq<(Seq<char>, Seq<char>)> {
    files.map_values(|f: (String, String)| (f.0@, f.1@))
}

impl BranchHandler {
    /// The documents of `files`, each a path and a text: for each file
    /// that is not left out, in their order, the key of the file and a
    /// document that its text decodes to.
    pub fn decode_files(&self, files: &Vec<(String, String)>) -> (docs: Vec<(String, Datum)>)
        ensures
            documents_of(
                selected(file_views(files@), files@.len(), views(self.ignore@)),
                self.repo_path@,
                document_views(docs@),
            ),
    {
        let mut docs: Vec<(String, Datum)> = Vec::new();
        let ghost all = file_views(files@);
        let ghost ignore = views(self.ignore@);
        let mut i: usize = 0;
        while i < files.len()
            invariant
                0 <= i <= files.len(),
                all == file_views(files@),
                ignore == views(self.ignore@),
                documents_of(selected(all, i as nat, ignore), self.repo_path@, document_views(docs@)),
            decreases files.len() - i,
        {
            let path = files[i].0.as_str();
            assert(all[i as int] == (files@[i as int].0@, files@[i as int].1@));
            if !self.rejects(path) {
                let key = self.fix_key(path);
                let document = parse_value(path, files[i].1.as_str());
                let ghost before = document_views(docs@);
                docs.push((key, document));
                proof {
                    let after = document_views(docs@);
                    assert(after =~= before.push((key@, document@)));
                    let chosen = selected(all, (i + 1) as nat, ignore);
                    assert forall|j: int| 0 <= j < after.len() implies {
                        &&& (#[trigger] after[j]).0 == cache_key(self.repo_path@, chosen[j].0)
                        &&& decodes_to(chosen[j].0, chosen[j].1, after[j].1)
                    } by {
                        if j < before.len() {
                            assert(after[j] == before[j]);
                        }
                    }
                }
            }
            i += 1;
        }
        docs
    }

    /// The leaves and the reference records of the files that are not
    /// left out, each decoded and rooted at its key, put together in the
    /// order of the files.
    pub fn get_initial_data(&self, files: &Vec<(String, String)>) -> (r: (
        PathMap<Datum>,
        PathMap<Ref>,
    ))
        ensures
            r.0.wf(),
            r.1.wf(),
            exists|docs: Seq<(Seq<char>, DatumModel)>|
                {
                    &&& documents_of(
                        selected(file_views(files@), files@.len(), views(self.ignore@)),
                        self.repo_path@,
                        docs,
                    )
                    &&& r.0.content() == #[trigger] merged_leaves(docs, docs.len())
                    &&& r.1.content() == merged_refs(docs, docs.len())
                },
    {
        let docs = self.decode_files(files);
        let r = merge_documents(&docs);
        assert(r.0.content() == merged_leaves(document_views(docs@), document_views(docs@).len()));
        r
    }
}

/// Where a synchronizer stands.
#[derive(Debug, Clone, Copy, PartialEq, Eq)]
pub enum WorkerState {
    /// Not set up yet.
    Created,
    /// Set up, and polling.
    Synchronizing,
    /// The setup failed: the worker has ended.
    Failed,
}

/// What happens to a synchronizer.
#[derive(Debug, Clone, Copy, PartialEq, Eq)]
pub enum WorkerEvent {
    SetupOk,
    SetupFailed,
    /// A poll went through.
    Tick,
    /// A run of git failed during a poll.
    GitError,
}

/// Where a synchronizer stands after an event. The setup decides between
/// `Synchronizing` and `Failed`; polls, failed ones too, leave a
/// synchronizer polling; what does not concern a state leaves it.
pub open spec fn next_state(state: WorkerState, event: WorkerEvent) -> WorkerState {
    match (state, event) {
        (WorkerState::Created, WorkerEvent::SetupOk) => WorkerState::Synchronizing,
        (WorkerState::Created, WorkerEvent::SetupFailed) => WorkerState::Failed,
        _ => state,
    }
}

/// Where a synchronizer stands after an event.
pub fn step_state(state: WorkerState, event: WorkerEvent) -> (next: WorkerState)
    ensures
        next == next_state(state, event),
{
    match state {
        WorkerState::Created => match event {
            WorkerEvent::SetupOk => WorkerState::Synchronizing,
            WorkerEvent::SetupFailed => WorkerState::Failed,
            _ => WorkerState::Created,
        },
        WorkerState::Synchronizing => WorkerState::Synchronizing,
        WorkerState::Failed => WorkerState::Failed,
    }
}

} // verus!
