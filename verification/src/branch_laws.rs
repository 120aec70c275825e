//! Laws of the key derivation of branches.

use crate::branch_settings::{branch_key, repo_of};
use crate::text::{
    after_first, after_last, before_first, before_last, first_index, has_char, last_index,
    lemma_first_index, lemma_last_index,
};
use vstd::prelude::*;

verus! {

/// The characters of `.git`.
pub open spec fn dot_git() -> Seq<char> {
    seq!['.', 'g', 'i', 't']
}

/// In `a`, `c`, `b` joined, the first `c` stands after `a` where `a`
/// holds none.
pub proof fn lemma_first_index_of_join(a: Seq<char>, c: char, b: Seq<char>)
    requires
        !has_char(a, c),
    ensures
        first_index(a + seq![c] + b, c) == a.len(),
        before_first(a + seq![c] + b, c) == a,
        after_first(a + seq![c] + b, c) == b,
{
    let s = a + seq![c] + b;
    assert forall|j: int| 0 <= j < a.len() implies s[j] != c by {
        assert(s[j] == a[j]);
    }
    assert(s[a.len() as int] == c);
    lemma_first_index(s, c, a.len() as int);
    assert(before_first(s, c) =~= a);
    assert(after_first(s, c) =~= b);
}

/// In `a`, `c`, `b` joined, the last `c` stands after `a` where `b` holds
/// none.
pub proof fn lemma_last_index_of_join(a: Seq<char>, c: char, b: Seq<char>)
    requires
        !has_char(b, c),
    ensures
        last_index(a + seq![c] + b, c) == a.len(),
        before_last(a + seq![c] + b, c) == a,
        after_last(a + seq![c] + b, c) == b,
{
    let s = a + seq![c] + b;
    assert forall|j: int| a.len() < j < s.len() implies s[j] != c by {
        assert(s[j] == b[j - a.len() - 1]);
    }
    assert(s[a.len() as int] == c);
    lemma_last_index(s, c, a.len() as int);
    assert(before_last(s, c) =~= a);
    assert(after_last(s, c) =~= b);
}

/// Where `s` holds no `c`, all of `s` stands before the first `c` and
/// after the last.
pub proof fn lemma_index_of_absent(s: Seq<char>, c: char)
    requires
        !has_char(s, c),
    ensures
        before_first(s, c) == s,
        after_last(s, c) == s,
{
    lemma_first_index(s, c, s.len() as int);
    lemma_last_index(s, c, -1);
    assert(before_first(s, c) =~= s);
    assert(after_last(s, c) =~= s);
}

/// The repository name of a URL that ends in `/<repo>.git` is `<repo>`.
pub proof fn lemma_repo_of_git_url(front: Seq<char>, repo: Seq<char>)
    requires
        !has_char(repo, '/'),
        !has_char(repo, '.'),
    ensures
        repo_of(front + seq!['/'] + (repo + dot_git())) == repo,
        before_last(front + seq!['/'] + (repo + dot_git()), '/') == front,
{
    let tail = repo + dot_git();
    assert(!has_char(tail, '/')) by {
        if has_char(tail, '/') {
            let i = choose|i: int| 0 <= i < tail.len() && tail[i] == '/';
            if i < repo.len() {
                assert(repo[i] == '/');
            }
        }
    }
    lemma_last_index_of_join(front, '/', tail);
    assert(tail =~= repo + seq!['.'] + seq!['g', 'i', 't']);
    lemma_first_index_of_join(repo, '.', seq!['g', 'i', 't']);
}

/// For a URL that ends in `/<owner>/<repo>.git` the key of a branch is
/// `<owner>/<repo>/<branch>`.
pub proof fn lemma_key_of_path_url(
    front: Seq<char>,
    owner: Seq<char>,
    repo: Seq<char>,
    branch: Seq<char>,
)
    requires
        !has_char(owner, '/'),
        !has_char(owner, ':'),
        !has_char(repo, '/'),
        !has_char(repo, '.'),
    ensures
        branch_key(front + seq!['/'] + owner + seq!['/'] + (repo + dot_git()), branch) == owner
            + seq!['/'] + repo + seq!['/'] + branch,
{
    let head = front + seq!['/'] + owner;
    lemma_repo_of_git_url(head, repo);
    lemma_last_index_of_join(front, '/', owner);
    lemma_index_of_absent(owner, ':');
}

/// For a URL of the form `<user@host>:<owner>/<repo>.git` the key of a
/// branch is `<owner>/<repo>/<branch>`.
pub proof fn lemma_key_of_scp_url(
    host: Seq<char>,
    owner: Seq<char>,
    repo: Seq<char>,
    branch: Seq<char>,
)
    requires
        !has_char(host, '/'),
        !has_char(host, ':'),
        !has_char(owner, '/'),
        !has_char(owner, ':'),
        !has_char(repo, '/'),
        !has_char(repo, '.'),
    ensures
        branch_key(host + seq![':'] + owner + seq!['/'] + (repo + dot_git()), branch) == owner
            + seq!['/'] + repo + seq!['/'] + branch,
{
    let head = host + seq![':'] + owner;
    lemma_repo_of_git_url(head, repo);
    assert(!has_char(head, '/')) by {
        if has_char(head, '/') {
            let i = choose|i: int| 0 <= i < head.len() && head[i] == '/';
            if i < host.len() {
                assert(host[i] == '/');
            } else if i > host.len() {
                assert(owner[i - host.len() - 1] == '/');
            }
        }
    }
    lemma_index_of_absent(head, '/');
    assert(has_char(head, ':')) by {
        assert(head[host.len() as int] == ':');
    }
    lemma_first_index_of_join(host, ':', owner);
    lemma_index_of_absent(owner, ':');
}

} // verus!
