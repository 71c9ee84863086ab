//! Commit objects: a line-oriented text record of a tree, an optional parent,
//! the author and committer, and a message.

use vstd::prelude::*;
use vstd::string::StringSliceAdditionalSpecFns;

use vstd::slice::slice_subrange;

use crate::bytes::append_bytes;
use crate::error::StoreError;
use crate::hash::{id_value, is_hex_digit, is_id_hex, GitHash};
use crate::tree::same_bytes;
use crate::digits::{digits_text, render_digits};
use crate::object::{Kind, Object};

verus! {

/// `"tree "`
pub open spec fn tree_word() -> Seq<u8> {
    seq![116u8, 114u8, 101u8, 101u8, 32u8]
}

/// `"parent "`
pub open spec fn parent_word() -> Seq<u8> {
    seq![112u8, 97u8, 114u8, 101u8, 110u8, 116u8, 32u8]
}

/// `"author "`
pub open spec fn author_word() -> Seq<u8> {
    seq![97u8, 117u8, 116u8, 104u8, 111u8, 114u8, 32u8]
}

/// `"committer "`
pub open spec fn committer_word() -> Seq<u8> {
    seq![99u8, 111u8, 109u8, 109u8, 105u8, 116u8, 116u8, 101u8, 114u8, 32u8]
}

/// `" +0000\n"`
pub open spec fn utc_suffix() -> Seq<u8> {
    seq![32u8, 43u8, 48u8, 48u8, 48u8, 48u8, 10u8]
}

/// `"<name> <<email>> <seconds> +0000\n"`
pub open spec fn signature_text(name: Seq<u8>, email: Seq<u8>, seconds: nat) -> Seq<u8> {
    name + seq![32u8, 60u8] + email + seq![62u8, 32u8] + digits_text(seconds, 10) + utc_suffix()
}

/// The `parent` line, or nothing for a root commit.
pub open spec fn parent_line(parent: Option<Seq<u8>>) -> Seq<u8> {
    match parent {
        Some(p) => parent_word() + p + seq![10u8],
        None => Seq::empty(),
    }
}

/// The author and committer lines, a blank line, then the message and a
/// newline.
pub open spec fn commit_tail(name: Seq<u8>, email: Seq<u8>, seconds: nat, message: Seq<u8>) -> Seq<
    u8,
> {
    author_word() + signature_text(name, email, seconds) + committer_word() + signature_text(
        name,
        email,
        seconds,
    ) + seq![10u8] + message + seq![10u8]
}

/// The body of a commit: tree line, optional parent line, author and
/// committer lines, a blank line, then the message and a newline.
pub open spec fn commit_text(
    tree: Seq<u8>,
    parent: Option<Seq<u8>>,
    name: Seq<u8>,
    email: Seq<u8>,
    seconds: nat,
    message: Seq<u8>,
) -> Seq<u8> {
    tree_word() + tree + seq![10u8] + parent_line(parent) + commit_tail(
        name,
        email,
        seconds,
        message,
    )
}

pub open spec fn opt_bytes(s: Option<&str>) -> Option<Seq<u8>> {
    match s {
        Some(p) => Some(p.spec_bytes()),
        None => None,
    }
}

fn append_str(v: &mut Vec<u8>, s: &str)
    ensures
        final(v)@ == old(v)@ + s.spec_bytes(),
{
    append_bytes(v, s.as_bytes());
}

fn append_signature(v: &mut Vec<u8>, name: &str, email: &str, seconds: u64)
    ensures
        final(v)@ == old(v)@ + signature_text(name.spec_bytes(), email.spec_bytes(), seconds as nat),
{
    let ghost start = v@;
    append_str(v, name);
    v.push(32u8);
    v.push(60u8);
    append_str(v, email);
    v.push(62u8);
    v.push(32u8);
    let d = render_digits(seconds, 10);
    append_bytes(v, d.as_slice());
    let suffix: Vec<u8> = vec![32u8, 43u8, 48u8, 48u8, 48u8, 48u8, 10u8];
    append_bytes(v, suffix.as_slice());
    assert(suffix@ =~= utc_suffix());
    assert(v@ =~= start + signature_text(name.spec_bytes(), email.spec_bytes(), seconds as nat));
}

impl Object {
    /// A commit object for the tree `tree_hash` (hex text) with an optional
    /// parent (hex text), authored and committed by `author <email>` at
    /// `seconds` since the epoch, UTC.
    pub fn commit_obj(
        tree_hash: &str,
        author: &str,
        email: &str,
        commit_message: &str,
        parent: Option<&str>,
        seconds: u64,
    ) -> (r: Object)
        ensures
            r.kind == Kind::Commit,
            r.content@.len() == r.expected_size,
            r.content@ == commit_text(
                tree_hash.spec_bytes(),
                opt_bytes(parent),
                author.spec_bytes(),
                email.spec_bytes(),
                seconds as nat,
                commit_message.spec_bytes(),
            ),
    {
        let mut c: Vec<u8> = Vec::new();
        let tree_w: Vec<u8> = vec![116u8, 114u8, 101u8, 101u8, 32u8];
        append_bytes(&mut c, tree_w.as_slice());
        append_str(&mut c, tree_hash);
        c.push(10u8);
        let ghost after_tree = c@;
        match parent {
            Some(p) => {
                let parent_w: Vec<u8> = vec![112u8, 97u8, 114u8, 101u8, 110u8, 116u8, 32u8];
                append_bytes(&mut c, parent_w.as_slice());
                append_str(&mut c, p);
                c.push(10u8);
                assert(parent_w@ =~= parent_word());
                assert(c@ =~= after_tree + parent_line(opt_bytes(parent)));
            },
            None => {
                assert(c@ =~= after_tree + parent_line(opt_bytes(parent)));
            },
        }
        let author_w: Vec<u8> = vec![97u8, 117u8, 116u8, 104u8, 111u8, 114u8, 32u8];
        append_bytes(&mut c, author_w.as_slice());
        append_signature(&mut c, author, email, seconds);
        let committer_w: Vec<u8> = vec![
            99u8,
            111u8,
            109u8,
            109u8,
            105u8,
            116u8,
            116u8,
            101u8,
            114u8,
            32u8,
        ];
        append_bytes(&mut c, committer_w.as_slice());
        append_signature(&mut c, author, email, seconds);
        c.push(10u8);
        append_str(&mut c, commit_message);
        c.push(10u8);
        assert(tree_w@ =~= tree_word());
        assert(author_w@ =~= author_word());
        assert(committer_w@ =~= committer_word());
        assert(c@ =~= commit_text(
            tree_hash.spec_bytes(),
            opt_bytes(parent),
            author.spec_bytes(),
            email.spec_bytes(),
            seconds as nat,
            commit_message.spec_bytes(),
        ));
        Object { kind: Kind::Commit, expected_size: c.len() as u64, content: c }
    }
}

/// Position of the first byte `b` at or after `k`, or the length where none.
pub open spec fn next_byte(p: Seq<u8>, k: int, b: u8) -> int
    decreases p.len() - k,
{
    if k < 0 || k >= p.len() {
        p.len() as int
    } else if p[k] == b {
        k
    } else {
        next_byte(p, k + 1, b)
    }
}

/// The bytes `w` stand in `p` at position `k`.
pub open spec fn starts_at(p: Seq<u8>, k: int, w: Seq<u8>) -> bool {
    0 <= k && k + w.len() <= p.len() && p.subrange(k, k + w.len()) == w
}

/// The text of the tree and the parent that a commit body names: the rest of
/// a first line that starts with `tree `, and the rest of a second line that
/// starts with `parent `, if it does. A body whose first line is not a
/// complete `tree` line is malformed.
pub open spec fn commit_link_text(p: Seq<u8>) -> Result<(Seq<u8>, Option<Seq<u8>>), StoreError> {
    let e1 = next_byte(p, 0, 10);
    if !starts_at(p, 0, tree_word()) || e1 >= p.len() {
        Err(StoreError::Format)
    } else if starts_at(p, e1 + 1, parent_word()) {
        Ok((p.subrange(5, e1), Some(p.subrange(e1 + 8, next_byte(p, e1 + 1, 10)))))
    } else {
        Ok((p.subrange(5, e1), None))
    }
}

/// The identifiers of the tree and the parent that a commit body names; text
/// in either place that is not forty hexadecimal digits is malformed.
pub open spec fn commit_links(p: Seq<u8>) -> Result<(Seq<u8>, Option<Seq<u8>>), StoreError> {
    match commit_link_text(p) {
        Err(e) => Err(e),
        Ok((t, parent)) => if !is_id_hex(t) {
            Err(StoreError::Format)
        } else {
            match parent {
                None => Ok((id_value(t), None)),
                Some(q) => if is_id_hex(q) {
                    Ok((id_value(t), Some(id_value(q))))
                } else {
                    Err(StoreError::Format)
                },
            }
        },
    }
}

pub open spec fn no_newline(s: Seq<u8>) -> bool {
    forall|i: int| 0 <= i < s.len() ==> s[i] != 10
}

proof fn lemma_next_byte_bounds(p: Seq<u8>, k: int, b: u8)
    requires
        0 <= k <= p.len(),
    ensures
        k <= next_byte(p, k, b) <= p.len(),
        next_byte(p, k, b) < p.len() ==> p[next_byte(p, k, b)] == b,
    decreases p.len() - k,
{
    if k < p.len() && p[k] != b {
        lemma_next_byte_bounds(p, k + 1, b);
    }
}

proof fn lemma_next_byte_at(p: Seq<u8>, k: int, j: int, b: u8)
    requires
        0 <= k <= j < p.len(),
        p[j] == b,
        forall|i: int| k <= i < j ==> p[i] != b,
    ensures
        next_byte(p, k, b) == j,
    decreases j - k,
{
    if k < j {
        lemma_next_byte_at(p, k + 1, j, b);
    }
}

/// Finds the first byte `b` at or after `k`.
fn find_byte(p: &[u8], k: usize, b: u8) -> (r: usize)
    requires
        k <= p.len(),
    ensures
        r == next_byte(p@, k as int, b),
{
    let mut j: usize = k;
    while j < p.len() && p[j] != b
        invariant
            k <= j <= p.len(),
            next_byte(p@, k as int, b) == next_byte(p@, j as int, b),
        decreases p.len() - j,
    {
        j = j + 1;
    }
    j
}

/// Whether the bytes `w` stand in `p` at position `k`.
fn bytes_at(p: &[u8], k: usize, w: &[u8]) -> (r: bool)
    ensures
        r == starts_at(p@, k as int, w@),
{
    if k > p.len() || p.len() - k < w.len() {
        return false;
    }
    let part = slice_subrange(p, k, k + w.len());
    same_bytes(part, w)
}

/// The links of a commit: the tree it records and its parent, if any.
#[derive(Debug, Clone, Copy)]
pub struct Commit {
    pub tree: GitHash,
    pub parent: Option<GitHash>,
}

impl Commit {
    /// Reads the tree and parent lines of a commit object.
    pub fn from_obj(obj: &Object) -> (r: Result<Commit, StoreError>)
        ensures
            obj.kind != Kind::Commit ==> r == Err::<Commit, StoreError>(StoreError::Format),
            obj.kind == Kind::Commit ==> match r {
                Ok(c) => commit_links(obj.content@) == Ok::<
                    (Seq<u8>, Option<Seq<u8>>),
                    StoreError,
                >(
                    (
                        c.tree@,
                        match c.parent {
                            Some(v) => Some(v@),
                            None => None,
                        },
                    ),
                ),
                Err(e) => commit_links(obj.content@) == Err::<
                    (Seq<u8>, Option<Seq<u8>>),
                    StoreError,
                >(e),
            },
    {
        if obj.kind != Kind::Commit {
            return Err(StoreError::Format);
        }
        let p = obj.content.as_slice();
        let tree_w: Vec<u8> = vec![116u8, 114u8, 101u8, 101u8, 32u8];
        let parent_w: Vec<u8> = vec![112u8, 97u8, 114u8, 101u8, 110u8, 116u8, 32u8];
        assert(tree_w@ =~= tree_word());
        assert(parent_w@ =~= parent_word());
        let e1 = find_byte(p, 0, 10u8);
        if !bytes_at(p, 0, tree_w.as_slice()) || e1 >= p.len() {
            return Err(StoreError::Format);
        }
        proof {
            lemma_next_byte_bounds(p@, 0, 10u8);
            assert(p@.subrange(0, 5)[4] == 32u8);
            if e1 < 5 {
                assert(p@[e1 as int] == p@.subrange(0, 5)[e1 as int]);
            }
        }
        let tree = GitHash::from_hex(slice_subrange(p, 5, e1))?;
        if bytes_at(p, e1 + 1, parent_w.as_slice()) {
            let e2 = find_byte(p, e1 + 1, 10u8);
            proof {
                lemma_next_byte_bounds(p@, e1 + 1, 10u8);
                assert(p@.subrange(e1 + 1, e1 + 8)[6] == 32u8);
                if e2 < e1 + 8 {
                    assert(p@[e2 as int] == p@.subrange(e1 + 1, e1 + 8)[e2 - e1 - 1]);
                }
            }
            let parent = GitHash::from_hex(slice_subrange(p, e1 + 8, e2))?;
            Ok(Commit { tree, parent: Some(parent) })
        } else {
            Ok(Commit { tree, parent: None })
        }
    }
}

proof fn lemma_id_hex_no_newline(s: Seq<u8>)
    requires
        is_id_hex(s),
    ensures
        no_newline(s),
{
    assert forall|i: int| 0 <= i < s.len() implies s[i] != 10 by {
        assert(is_hex_digit(s[i]));
    }
}

/// Reading the links of an encoded commit gives back the identifiers of the
/// tree and parent it was made with.
pub proof fn lemma_commit_links_round_trip(
    tree: Seq<u8>,
    parent: Option<Seq<u8>>,
    name: Seq<u8>,
    email: Seq<u8>,
    seconds: nat,
    message: Seq<u8>,
)
    requires
        is_id_hex(tree),
        parent matches Some(q) ==> is_id_hex(q),
    ensures
        commit_links(commit_text(tree, parent, name, email, seconds, message)) == Ok::<
            (Seq<u8>, Option<Seq<u8>>),
            StoreError,
        >(
            (
                id_value(tree),
                match parent {
                    Some(q) => Some(id_value(q)),
                    None => None,
                },
            ),
        ),
{
    lemma_id_hex_no_newline(tree);
    if let Some(q) = parent {
        lemma_id_hex_no_newline(q);
    }
    lemma_link_text_round_trip(tree, parent, name, email, seconds, message);
}

proof fn lemma_link_text_round_trip(
    tree: Seq<u8>,
    parent: Option<Seq<u8>>,
    name: Seq<u8>,
    email: Seq<u8>,
    seconds: nat,
    message: Seq<u8>,
)
    requires
        no_newline(tree),
        parent matches Some(q) ==> no_newline(q),
    ensures
        commit_link_text(commit_text(tree, parent, name, email, seconds, message)) == Ok::<
            (Seq<u8>, Option<Seq<u8>>),
            StoreError,
        >((tree, parent)),
{
    let p = commit_text(tree, parent, name, email, seconds, message);
    let t = commit_tail(name, email, seconds, message);
    let a = tree_word() + tree + seq![10u8];
    let b = parent_line(parent) + t;
    assert(t[0] == 97u8);
    assert(p =~= a + b);
    let e1: int = 5 + tree.len() as int;
    assert(a.len() == e1 + 1);
    assert(p.subrange(0, 5) =~= tree_word());
    assert forall|i: int| 0 <= i < e1 implies p[i] != 10 by {
        assert(p[i] == a[i]);
        if i >= 5 {
            assert(a[i] == tree[i - 5]);
        }
    }
    assert(p[e1] == a[e1]);
    lemma_next_byte_at(p, 0, e1, 10u8);
    assert(p.subrange(5, e1) =~= tree);
    match parent {
        Some(q) => {
            let c = parent_word() + q + seq![10u8];
            assert(b =~= c + t);
            let e2: int = e1 + 8 + q.len() as int;
            assert forall|i: int| e1 + 1 <= i <= e2 implies p[i] == c[i - e1 - 1] by {
                assert(p[i] == b[i - e1 - 1]);
            }
            assert(p.subrange(e1 + 1, e1 + 8) =~= parent_word());
            assert forall|i: int| e1 + 1 <= i < e2 implies p[i] != 10 by {
                if i >= e1 + 8 {
                    assert(c[i - e1 - 1] == q[i - e1 - 8]);
                }
            }
            assert(p[e2] == c[e2 - e1 - 1]);
            lemma_next_byte_at(p, e1 + 1, e2, 10u8);
            assert(p.subrange(e1 + 8, e2) =~= q);
        },
        None => {
            assert(b =~= t);
            assert(p[e1 + 1] == b[0]);
            assert(p.subrange(e1 + 1, e1 + 8)[0] == 97u8);
        },
    }
}

} // verus!
