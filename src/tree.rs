//! Tree objects: directory listings whose entries are ordered by name, with a
//! directory's name compared as if it ended in `/`.

use vstd::multiset::Multiset;
use vstd::prelude::*;

use crate::bytes::{append_bytes, copy_range};
use crate::digits::{digits_text, is_digit, lemma_digits_text_valid, render_digits};
use crate::error::StoreError;
use crate::object::{Kind, Object};

verus! {

broadcast use vstd::seq_lib::group_to_multiset_ensures;

/// Strict lexicographic order on byte strings; a proper prefix comes first.
pub open spec fn bytes_lt(a: Seq<u8>, b: Seq<u8>) -> bool
    decreases a.len(),
{
    if a.len() == 0 {
        b.len() > 0
    } else if b.len() == 0 {
        false
    } else if a[0] != b[0] {
        a[0] < b[0]
    } else {
        bytes_lt(a.drop_first(), b.drop_first())
    }
}

pub proof fn lemma_lt_irreflexive(a: Seq<u8>)
    ensures
        !bytes_lt(a, a),
    decreases a.len(),
{
    if a.len() > 0 {
        lemma_lt_irreflexive(a.drop_first());
    }
}

pub proof fn lemma_lt_transitive(a: Seq<u8>, b: Seq<u8>, c: Seq<u8>)
    requires
        bytes_lt(a, b),
        bytes_lt(b, c),
    ensures
        bytes_lt(a, c),
    decreases a.len(),
{
    if a.len() > 0 && b.len() > 0 && c.len() > 0 && a[0] == b[0] && b[0] == c[0] {
        lemma_lt_transitive(a.drop_first(), b.drop_first(), c.drop_first());
    }
}

pub proof fn lemma_lt_total(a: Seq<u8>, b: Seq<u8>)
    ensures
        a == b || bytes_lt(a, b) || bytes_lt(b, a),
    decreases a.len(),
{
    if a.len() > 0 && b.len() > 0 && a[0] == b[0] {
        lemma_lt_total(a.drop_first(), b.drop_first());
        if a.drop_first() == b.drop_first() {
            assert(a =~= seq![a[0]] + a.drop_first());
            assert(b =~= seq![b[0]] + b.drop_first());
        }
    } else if a.len() == 0 && b.len() == 0 {
        assert(a =~= b);
    }
}

pub proof fn lemma_lt_asymmetric(a: Seq<u8>, b: Seq<u8>)
    requires
        bytes_lt(a, b),
    ensures
        !bytes_lt(b, a),
{
    if bytes_lt(b, a) {
        lemma_lt_transitive(a, b, a);
        lemma_lt_irreflexive(a);
    }
}

/// One entry of a tree: a name (raw bytes), a file mode, the identifier of
/// the blob or tree it names, and which of the two that is.
#[derive(Debug, Clone)]
pub struct TreeEntry {
    pub name: Vec<u8>,
    pub mode: u32,
    pub hash: [u8; 20],
    pub kind: Kind,
}

/// The bytes an entry is ordered by: its name, with `/` after a directory's.
pub open spec fn sort_key(e: TreeEntry) -> Seq<u8> {
    if e.kind == Kind::Tree {
        e.name@.push(47u8)
    } else {
        e.name@
    }
}

pub open spec fn entry_le(a: TreeEntry, b: TreeEntry) -> bool {
    !bytes_lt(sort_key(b), sort_key(a))
}

/// Entries stand in order of their sort keys.
pub open spec fn sorted_entries(s: Seq<TreeEntry>) -> bool {
    forall|i: int, j: int| 0 <= i < j < s.len() ==> entry_le(#[trigger] s[i], #[trigger] s[j])
}

/// No two different entries share a sort key.
pub open spec fn keys_distinct(s: Seq<TreeEntry>) -> bool {
    forall|i: int, j: int|
        0 <= i < s.len() && 0 <= j < s.len() && sort_key(#[trigger] s[i]) == sort_key(
            #[trigger] s[j],
        ) ==> s[i] == s[j]
}

/// The encoding of one entry: octal mode, a space, the name, a NUL, and the
/// twenty raw identifier bytes.
pub open spec fn entry_bytes(e: TreeEntry) -> Seq<u8> {
    digits_text(e.mode as nat, 8) + seq![32u8] + e.name@ + seq![0u8] + e.hash@
}

/// The encodings of the entries of `s`, back to back.
pub open spec fn tree_payload(s: Seq<TreeEntry>) -> Seq<u8>
    decreases s.len(),
{
    if s.len() == 0 {
        Seq::empty()
    } else {
        tree_payload(s.drop_last()) + entry_bytes(s.last())
    }
}

/// `p` is the payload of a tree listing the entries `e`: their encodings in
/// sorted order.
pub open spec fn is_tree_payload_of(e: Seq<TreeEntry>, p: Seq<u8>) -> bool {
    exists|s: Seq<TreeEntry>|
        sorted_entries(s) && s.to_multiset() == e.to_multiset() && p == tree_payload(s)
}

/// Compares two byte strings in lexicographic order.
pub fn bytes_less(a: &[u8], b: &[u8]) -> (r: bool)
    ensures
        r == bytes_lt(a@, b@),
{
    let mut i: usize = 0;
    assert(a@.skip(0) =~= a@ && b@.skip(0) =~= b@);
    while i < a.len() && i < b.len()
        invariant
            i <= a.len(),
            i <= b.len(),
            bytes_lt(a@, b@) == bytes_lt(a@.skip(i as int), b@.skip(i as int)),
        decreases a.len() - i,
    {
        if a[i] != b[i] {
            return a[i] < b[i];
        }
        assert(a@.skip(i as int).drop_first() =~= a@.skip(i + 1));
        assert(b@.skip(i as int).drop_first() =~= b@.skip(i + 1));
        i = i + 1;
    }
    i == a.len() && i < b.len()
}

/// The sort key of an entry, as bytes.
fn entry_key(e: &TreeEntry) -> (r: Vec<u8>)
    ensures
        r@ == sort_key(*e),
{
    let mut k = copy_range(e.name.as_slice(), 0, e.name.len());
    assert(e.name@.subrange(0, e.name@.len() as int) =~= e.name@);
    if e.kind == Kind::Tree {
        k.push(47u8);
    }
    k
}

proof fn lemma_insert_multiset(s: Seq<TreeEntry>, p: int, e: TreeEntry)
    requires
        0 <= p <= s.len(),
    ensures
        s.insert(p, e).to_multiset() == s.to_multiset().insert(e),
{
    let t = s.insert(p, e);
    assert(t.remove(p) =~= s);
    assert(t[p] == e);
    assert(t.to_multiset().remove(e) == s.to_multiset());
    assert(t.contains(e));
    assert(t.to_multiset().count(e) > 0);
    assert(t.to_multiset() =~= s.to_multiset().insert(e));
}

/// Puts the entries in order of their sort keys.
pub fn sort_entries(entries: &mut Vec<TreeEntry>)
    ensures
        sorted_entries(final(entries)@),
        final(entries)@.to_multiset() == old(entries)@.to_multiset(),
{
    let mut out: Vec<TreeEntry> = Vec::new();
    while entries.len() > 0
        invariant
            sorted_entries(out@),
            out@.to_multiset().add(entries@.to_multiset()) == old(entries)@.to_multiset(),
        decreases entries.len(),
    {
        let ghost before = entries@;
        let e = match entries.pop() {
            Some(e) => e,
            None => {
                return;
            },
        };
        proof {
            assert(before =~= entries@.push(e));
        }
        let ek = entry_key(&e);
        let mut p: usize = 0;
        while p < out.len()
            invariant_except_break
                p <= out.len(),
                ek@ == sort_key(e),
                forall|j: int| 0 <= j < p ==> entry_le(#[trigger] out@[j], e),
            ensures
                p <= out.len(),
                forall|j: int| 0 <= j < p ==> entry_le(#[trigger] out@[j], e),
                p < out.len() ==> bytes_lt(sort_key(e), sort_key(out@[p as int])),
            decreases out.len() - p,
        {
            let ok = entry_key(&out[p]);
            if bytes_less(ek.as_slice(), ok.as_slice()) {
                break;
            }
            p = p + 1;
        }
        let ghost old_out = out@;
        out.insert(p, e);
        proof {
            lemma_insert_multiset(old_out, p as int, e);
            assert forall|i: int, j: int| 0 <= i < j < out@.len() implies entry_le(
                #[trigger] out@[i],
                #[trigger] out@[j],
            ) by {
                let ki = sort_key(out@[i]);
                let kj = sort_key(out@[j]);
                if j < p {
                    assert(out@[i] == old_out[i] && out@[j] == old_out[j]);
                } else if j == p {
                    assert(out@[i] == old_out[i]);
                } else if i == p {
                    assert(out@[j] == old_out[j - 1]);
                    if j - 1 > p {
                        assert(entry_le(old_out[p as int], old_out[j - 1]));
                    }
                    lemma_lt_total(sort_key(e), kj);
                    if bytes_lt(kj, sort_key(e)) {
                        if j - 1 > p {
                            lemma_lt_transitive(kj, sort_key(e), sort_key(old_out[p as int]));
                        } else {
                            lemma_lt_asymmetric(sort_key(e), kj);
                        }
                    }
                } else if i < p {
                    assert(out@[i] == old_out[i] && out@[j] == old_out[j - 1]);
                } else {
                    assert(out@[i] == old_out[i - 1] && out@[j] == old_out[j - 1]);
                }
            }
        }
    }
    proof {
        assert(entries@.to_multiset() =~= Multiset::empty());
        assert(out@.to_multiset().add(Multiset::empty()) =~= out@.to_multiset());
    }
    *entries = out;
}

/// The encoding of one entry.
fn encode_entry(e: &TreeEntry) -> (r: Vec<u8>)
    ensures
        r@ == entry_bytes(*e),
{
    let mut r = render_digits(e.mode as u64, 8);
    r.push(32u8);
    append_bytes(&mut r, e.name.as_slice());
    r.push(0u8);
    append_bytes(&mut r, e.hash.as_slice());
    assert(r@ =~= entry_bytes(*e));
    r
}

/// The encodings of the entries, back to back, in the order given.
pub fn encode_entries(entries: &Vec<TreeEntry>) -> (r: Vec<u8>)
    ensures
        r@ == tree_payload(entries@),
{
    let mut r: Vec<u8> = Vec::new();
    let mut i: usize = 0;
    assert(entries@.subrange(0, 0) =~= Seq::<TreeEntry>::empty());
    while i < entries.len()
        invariant
            i <= entries.len(),
            r@ == tree_payload(entries@.subrange(0, i as int)),
        decreases entries.len() - i,
    {
        let b = encode_entry(&entries[i]);
        append_bytes(&mut r, b.as_slice());
        assert(entries@.subrange(0, i + 1).drop_last() =~= entries@.subrange(0, i as int));
        i = i + 1;
    }
    assert(entries@.subrange(0, entries.len() as int) =~= entries@);
    r
}

impl Object {
    /// A tree object listing the entries, in sorted order.
    pub fn tree_obj_from_vec(entries: Vec<TreeEntry>) -> (r: Object)
        ensures
            r.kind == Kind::Tree,
            r.content@.len() == r.expected_size,
            is_tree_payload_of(entries@, r.content@),
    {
        let mut sorted = entries;
        sort_entries(&mut sorted);
        let content = encode_entries(&sorted);
        Object { kind: Kind::Tree, expected_size: content.len() as u64, content }
    }
}

proof fn lemma_contains_permuted(s: Seq<TreeEntry>, t: Seq<TreeEntry>, x: TreeEntry)
    requires
        s.to_multiset() == t.to_multiset(),
        s.contains(x),
    ensures
        t.contains(x),
{
    assert(s.to_multiset().count(x) > 0);
    assert(t.to_multiset().count(x) > 0);
}

proof fn lemma_keys_distinct_permuted(e: Seq<TreeEntry>, s: Seq<TreeEntry>)
    requires
        e.to_multiset() == s.to_multiset(),
        keys_distinct(e),
    ensures
        keys_distinct(s),
{
    assert forall|i: int, j: int|
        0 <= i < s.len() && 0 <= j < s.len() && sort_key(#[trigger] s[i]) == sort_key(
            #[trigger] s[j],
        ) implies s[i] == s[j] by {
        assert(s.contains(s[i]) && s.contains(s[j]));
        lemma_contains_permuted(s, e, s[i]);
        lemma_contains_permuted(s, e, s[j]);
        let a = choose|a: int| 0 <= a < e.len() && e[a] == s[i];
        let b = choose|b: int| 0 <= b < e.len() && e[b] == s[j];
        assert(sort_key(e[a]) == sort_key(e[b]));
    }
}

proof fn lemma_sorted_permutations_equal(s1: Seq<TreeEntry>, s2: Seq<TreeEntry>)
    requires
        sorted_entries(s1),
        sorted_entries(s2),
        s1.to_multiset() == s2.to_multiset(),
        keys_distinct(s1),
    ensures
        s1 == s2,
    decreases s1.len(),
{
    assert(s1.to_multiset().len() == s1.len());
    assert(s2.to_multiset().len() == s2.len());
    if s1.len() == 0 {
        assert(s1 =~= s2);
    } else {
        assert(s1.contains(s1[0]));
        lemma_contains_permuted(s1, s2, s1[0]);
        let j = choose|j: int| 0 <= j < s2.len() && s2[j] == s1[0];
        assert(s2.contains(s2[0]));
        lemma_contains_permuted(s2, s1, s2[0]);
        let k = choose|k: int| 0 <= k < s1.len() && s1[k] == s2[0];
        if j > 0 {
            assert(entry_le(s2[0], s2[j]));
        }
        if k > 0 {
            assert(entry_le(s1[0], s1[k]));
        }
        lemma_lt_total(sort_key(s1[0]), sort_key(s2[0]));
        assert(sort_key(s1[0]) == sort_key(s1[k]));
        assert(s1[0] == s2[0]);
        let t1 = s1.drop_first();
        let t2 = s2.drop_first();
        assert(s1.remove(0) =~= t1);
        assert(s2.remove(0) =~= t2);
        assert(t1.to_multiset() == t2.to_multiset());
        assert(sorted_entries(t1)) by {
            assert forall|a: int, b: int| 0 <= a < b < t1.len() implies entry_le(
                #[trigger] t1[a],
                #[trigger] t1[b],
            ) by {
                assert(t1[a] == s1[a + 1] && t1[b] == s1[b + 1]);
            }
        }
        assert(sorted_entries(t2)) by {
            assert forall|a: int, b: int| 0 <= a < b < t2.len() implies entry_le(
                #[trigger] t2[a],
                #[trigger] t2[b],
            ) by {
                assert(t2[a] == s2[a + 1] && t2[b] == s2[b + 1]);
            }
        }
        assert(keys_distinct(t1)) by {
            assert forall|a: int, b: int|
                0 <= a < t1.len() && 0 <= b < t1.len() && sort_key(#[trigger] t1[a]) == sort_key(
                    #[trigger] t1[b],
                ) implies t1[a] == t1[b] by {
                assert(t1[a] == s1[a + 1] && t1[b] == s1[b + 1]);
            }
        }
        lemma_sorted_permutations_equal(t1, t2);
        assert forall|a: int| 0 <= a < s1.len() implies s1[a] == s2[a] by {
            if a > 0 {
                assert(s1[a] == t1[a - 1] && s2[a] == t2[a - 1]);
            }
        }
        assert(s1 =~= s2);
    }
}

/// The payload of a tree does not depend on the order in which its entries
/// were listed: any two listings of the same entries, where no two different
/// entries share a name and kind, give the same payload.
pub proof fn lemma_tree_payload_order_independent(
    e1: Seq<TreeEntry>,
    e2: Seq<TreeEntry>,
    p1: Seq<u8>,
    p2: Seq<u8>,
)
    requires
        e1.to_multiset() == e2.to_multiset(),
        keys_distinct(e1),
        is_tree_payload_of(e1, p1),
        is_tree_payload_of(e2, p2),
    ensures
        p1 == p2,
{
    let s1 = choose|s: Seq<TreeEntry>|
        sorted_entries(s) && s.to_multiset() == e1.to_multiset() && p1 == tree_payload(s);
    let s2 = choose|s: Seq<TreeEntry>|
        sorted_entries(s) && s.to_multiset() == e2.to_multiset() && p2 == tree_payload(s);
    lemma_keys_distinct_permuted(e1, s1);
    lemma_sorted_permutations_equal(s1, s2);
}

/// What a directory listing reports an entry to be.
#[derive(Debug, Clone, Copy, PartialEq, Eq, Structural)]
pub enum EntryType {
    File,
    Dir,
    Other,
}

/// The mode recorded for a directory entry.
pub const DIR_MODE: u32 = 0o40000;

/// The names that a tree built from a directory leaves out: the store's own
/// directory `.git` and the build directory `target`.
pub open spec fn skipped_name(name: Seq<u8>) -> bool {
    name == seq![46u8, 103u8, 105u8, 116u8] || name == seq![116u8, 97u8, 114u8, 103u8, 101u8, 116u8]
}

/// Whether a directory entry of this name is left out of the tree.
pub fn is_skipped_name(name: &[u8]) -> (r: bool)
    ensures
        r == skipped_name(name@),
{
    let git: Vec<u8> = vec![46u8, 103u8, 105u8, 116u8];
    let target: Vec<u8> = vec![116u8, 97u8, 114u8, 103u8, 101u8, 116u8];
    let a = same_bytes(name, git.as_slice());
    let b = same_bytes(name, target.as_slice());
    assert(git@ =~= seq![46u8, 103u8, 105u8, 116u8]);
    assert(target@ =~= seq![116u8, 97u8, 114u8, 103u8, 101u8, 116u8]);
    a || b
}

/// Whether two byte strings are equal.
pub fn same_bytes(a: &[u8], b: &[u8]) -> (r: bool)
    ensures
        r == (a@ == b@),
{
    if a.len() != b.len() {
        return false;
    }
    let mut i: usize = 0;
    while i < a.len()
        invariant
            i <= a.len() == b.len(),
            a@.subrange(0, i as int) == b@.subrange(0, i as int),
        decreases a.len() - i,
    {
        if a[i] != b[i] {
            return false;
        }
        assert(a@.subrange(0, i + 1) =~= a@.subrange(0, i as int).push(a@[i as int]));
        assert(b@.subrange(0, i + 1) =~= b@.subrange(0, i as int).push(b@[i as int]));
        i = i + 1;
    }
    assert(a@.subrange(0, a.len() as int) =~= a@);
    assert(b@.subrange(0, b.len() as int) =~= b@);
    true
}

/// The tree entry for a directory entry: a file keeps its own mode and names
/// a blob; a directory gets the directory mode and names a tree; anything
/// else is unsupported.
pub fn dir_entry(name: Vec<u8>, ty: EntryType, file_mode: u32, hash: [u8; 20]) -> (r: Result<
    TreeEntry,
    StoreError,
>)
    ensures
        ty == EntryType::File ==> (r matches Ok(e) && e.name@ == name@ && e.mode == file_mode
            && e.hash@ == hash@ && e.kind == Kind::Blob),
        ty == EntryType::Dir ==> (r matches Ok(e) && e.name@ == name@ && e.mode == DIR_MODE
            && e.hash@ == hash@ && e.kind == Kind::Tree),
        ty == EntryType::Other ==> r == Err::<TreeEntry, StoreError>(
            StoreError::UnsupportedEntryType,
        ),
{
    match ty {
        EntryType::File => Ok(TreeEntry { name, mode: file_mode, hash, kind: Kind::Blob }),
        EntryType::Dir => Ok(TreeEntry { name, mode: DIR_MODE, hash, kind: Kind::Tree }),
        EntryType::Other => Err(StoreError::UnsupportedEntryType),
    }
}

/// An entry as read back from a tree payload: the mode text, the name and the
/// twenty identifier bytes.
#[derive(Debug, Clone)]
pub struct ListedEntry {
    pub mode: Vec<u8>,
    pub name: Vec<u8>,
    pub hash: Vec<u8>,
}

pub open spec fn listed_view(e: ListedEntry) -> (Seq<u8>, Seq<u8>, Seq<u8>) {
    (e.mode@, e.name@, e.hash@)
}

/// Position of the first NUL at or after `k`, or the length where none.
pub open spec fn next_nul(p: Seq<u8>, k: int) -> int
    decreases p.len() - k,
{
    if k < 0 || k >= p.len() {
        p.len() as int
    } else if p[k] == 0 {
        k
    } else {
        next_nul(p, k + 1)
    }
}

/// Position of the first space in `p[k..end]`, or `end` where none.
pub open spec fn next_space(p: Seq<u8>, k: int, end: int) -> int
    decreases end - k,
{
    if k < 0 || k >= end {
        end
    } else if p[k] == 32 {
        k
    } else {
        next_space(p, k + 1, end)
    }
}

proof fn lemma_next_nul_bounds(p: Seq<u8>, k: int)
    requires
        0 <= k <= p.len(),
    ensures
        k <= next_nul(p, k) <= p.len(),
    decreases p.len() - k,
{
    if k < p.len() && p[k] != 0 {
        lemma_next_nul_bounds(p, k + 1);
    }
}

proof fn lemma_next_space_bounds(p: Seq<u8>, k: int, end: int)
    requires
        0 <= k <= end,
    ensures
        k <= next_space(p, k, end) <= end,
    decreases end - k,
{
    if k < end && p[k] != 32 {
        lemma_next_space_bounds(p, k + 1, end);
    }
}

#[via_fn]
proof fn listing_decreases(p: Seq<u8>, k: int) {
    if !(k < 0 || k >= p.len()) {
        lemma_next_nul_bounds(p, k);
    }
}

/// The entries that the tree payload `p` lists from position `k` on: each is
/// a mode, a space, a name, a NUL and twenty identifier bytes. An entry
/// without a space before its NUL, or cut short, is a format error.
pub open spec fn listing_from(p: Seq<u8>, k: int) -> Result<
    Seq<(Seq<u8>, Seq<u8>, Seq<u8>)>,
    StoreError,
>
    decreases p.len() - k,
    via listing_decreases
{
    if k < 0 || k >= p.len() {
        Ok(Seq::empty())
    } else {
        let z = next_nul(p, k);
        let s = next_space(p, k, z);
        if z + 21 > p.len() || s >= z {
            Err(StoreError::Format)
        } else {
            match listing_from(p, z + 21) {
                Ok(rest) => Ok(
                    seq![(p.subrange(k, s), p.subrange(s + 1, z), p.subrange(z + 1, z + 21))]
                        + rest,
                ),
                Err(e) => Err(e),
            }
        }
    }
}

pub open spec fn prepend_listing(
    h: Seq<(Seq<u8>, Seq<u8>, Seq<u8>)>,
    r: Result<Seq<(Seq<u8>, Seq<u8>, Seq<u8>)>, StoreError>,
) -> Result<Seq<(Seq<u8>, Seq<u8>, Seq<u8>)>, StoreError> {
    match r {
        Ok(t) => Ok(h + t),
        Err(e) => Err(e),
    }
}

/// Reads the entries of a tree payload, in the order they are stored.
pub fn parse_tree_entries(p: &[u8]) -> (r: Result<Vec<ListedEntry>, StoreError>)
    ensures
        match r {
            Ok(v) => listing_from(p@, 0) == Ok::<Seq<(Seq<u8>, Seq<u8>, Seq<u8>)>, StoreError>(
                v@.map_values(|e: ListedEntry| listed_view(e)),
            ),
            Err(e) => listing_from(p@, 0) == Err::<Seq<(Seq<u8>, Seq<u8>, Seq<u8>)>, StoreError>(
                e,
            ),
        },
{
    let mut out: Vec<ListedEntry> = Vec::new();
    let mut k: usize = 0;
    assert(prepend_listing(out@.map_values(|e: ListedEntry| listed_view(e)), listing_from(p@, 0))
        =~= listing_from(p@, 0)) by {
        if let Ok(t) = listing_from(p@, 0) {
            assert(out@.map_values(|e: ListedEntry| listed_view(e)) + t =~= t);
        }
    }
    while k < p.len()
        invariant
            k <= p.len(),
            listing_from(p@, 0) == prepend_listing(
                out@.map_values(|e: ListedEntry| listed_view(e)),
                listing_from(p@, k as int),
            ),
        decreases p.len() - k,
    {
        let mut z: usize = k;
        while z < p.len() && p[z] != 0
            invariant
                k <= z <= p.len(),
                next_nul(p@, k as int) == next_nul(p@, z as int),
            decreases p.len() - z,
        {
            z = z + 1;
        }
        let mut sp: usize = k;
        while sp < z && p[sp] != 32
            invariant
                k <= sp <= z <= p.len(),
                next_space(p@, k as int, z as int) == next_space(p@, sp as int, z as int),
            decreases z - sp,
        {
            sp = sp + 1;
        }
        if p.len() - z < 21 || sp >= z {
            return Err(StoreError::Format);
        }
        let mode = copy_range(p, k, sp);
        let name = copy_range(p, sp + 1, z);
        let hash = copy_range(p, z + 1, z + 21);
        let e = ListedEntry { mode, name, hash };
        let ghost before = out@.map_values(|e: ListedEntry| listed_view(e));
        out.push(e);
        proof {
            let after = out@.map_values(|e: ListedEntry| listed_view(e));
            assert(after =~= before.push(listed_view(e)));
            let head = seq![listed_view(e)];
            if let Ok(rest) = listing_from(p@, z + 21) {
                assert(before + (head + rest) =~= after + rest);
            }
        }
        k = z + 21;
    }
    proof {
        let v = out@.map_values(|e: ListedEntry| listed_view(e));
        assert(v + Seq::<(Seq<u8>, Seq<u8>, Seq<u8>)>::empty() =~= v);
    }
    Ok(out)
}

proof fn lemma_payload_front(s: Seq<TreeEntry>)
    requires
        s.len() > 0,
    ensures
        tree_payload(s) == entry_bytes(s[0]) + tree_payload(s.drop_first()),
    decreases s.len(),
{
    if s.len() == 1 {
        assert(s.drop_last() =~= Seq::<TreeEntry>::empty());
        assert(s.drop_first() =~= Seq::<TreeEntry>::empty());
        assert(tree_payload(s) =~= entry_bytes(s[0]) + tree_payload(s.drop_first()));
    } else {
        lemma_payload_front(s.drop_last());
        assert(s.drop_last().drop_first() =~= s.drop_first().drop_last());
        assert(s.drop_first().last() == s.last());
        assert(s.drop_last()[0] == s[0]);
        assert(tree_payload(s) =~= entry_bytes(s[0]) + tree_payload(s.drop_first()));
    }
}

proof fn lemma_next_nul_at(p: Seq<u8>, k: int, j: int)
    requires
        0 <= k <= j < p.len(),
        p[j] == 0,
        forall|i: int| k <= i < j ==> p[i] != 0,
    ensures
        next_nul(p, k) == j,
    decreases j - k,
{
    if k < j {
        lemma_next_nul_at(p, k + 1, j);
    }
}

proof fn lemma_next_space_at(p: Seq<u8>, k: int, j: int, end: int)
    requires
        0 <= k <= j < end <= p.len(),
        p[j] == 32,
        forall|i: int| k <= i < j ==> p[i] != 32,
    ensures
        next_space(p, k, end) == j,
    decreases j - k,
{
    if k < j {
        lemma_next_space_at(p, k + 1, j, end);
    }
}

/// The mode digits, name and identifier bytes of an entry, as a listing
/// reads them back.
pub open spec fn encoded_view(e: TreeEntry) -> (Seq<u8>, Seq<u8>, Seq<u8>) {
    (digits_text(e.mode as nat, 8), e.name@, e.hash@)
}

pub open spec fn names_without_nul(s: Seq<TreeEntry>) -> bool {
    forall|i: int, j: int| 0 <= i < s.len() && 0 <= j < s[i].name@.len() ==> #[trigger] s[i].name@[j] != 0
}

proof fn lemma_listing_after(a: Seq<u8>, t: Seq<TreeEntry>)
    requires
        names_without_nul(t),
    ensures
        listing_from(a + tree_payload(t), a.len() as int) == Ok::<
            Seq<(Seq<u8>, Seq<u8>, Seq<u8>)>,
            StoreError,
        >(t.map_values(|e: TreeEntry| encoded_view(e))),
    decreases t.len(),
{
    let p = a + tree_payload(t);
    let k = a.len() as int;
    if t.len() == 0 {
        assert(p =~= a);
        assert(t.map_values(|e: TreeEntry| encoded_view(e)) =~= Seq::<
            (Seq<u8>, Seq<u8>, Seq<u8>),
        >::empty());
    } else {
        let e = t[0];
        let rest = t.drop_first();
        lemma_payload_front(t);
        let eb = entry_bytes(e);
        let a2 = a + eb;
        assert(p =~= a2 + tree_payload(rest));
        let m = digits_text(e.mode as nat, 8);
        lemma_digits_text_valid(e.mode as nat, 8);
        let sp = k + m.len();
        let z = sp + 1 + e.name@.len();
        assert(eb =~= m + seq![32u8] + e.name@ + seq![0u8] + e.hash@);
        assert forall|i: int| k <= i < z + 21 implies p[i] == eb[i - k] by {
            assert(p[i] == a2[i]);
        }
        assert forall|i: int| k <= i < sp implies p[i] != 0 && p[i] != 32 by {
            assert(p[i] == m[i - k]);
            assert(is_digit(m[i - k], 8));
        }
        assert forall|i: int| sp < i < z implies p[i] != 0 by {
            assert(p[i] == e.name@[i - sp - 1]);
            assert(t[0].name@[i - sp - 1] != 0);
        }
        assert(p[sp] == 32u8);
        assert(p[z] == 0u8);
        lemma_next_nul_at(p, k, z);
        lemma_next_space_at(p, k, sp, z);
        assert(names_without_nul(rest)) by {
            assert forall|i: int, j: int|
                0 <= i < rest.len() && 0 <= j < rest[i].name@.len() implies #[trigger] rest[i].name@[j]
                != 0 by {
                assert(rest[i] == t[i + 1]);
            }
        }
        lemma_listing_after(a2, rest);
        assert(a2.len() == z + 21);
        assert(p.subrange(k, sp) =~= m);
        assert(p.subrange(sp + 1, z) =~= e.name@);
        assert(p.subrange(z + 1, z + 21) =~= e.hash@);
        assert(t.map_values(|e: TreeEntry| encoded_view(e)) =~= seq![encoded_view(e)]
            + rest.map_values(|e: TreeEntry| encoded_view(e)));
    }
}

/// Reading back an encoded tree payload lists every entry, in order, as its
/// mode digits, its name and its identifier bytes, where no name holds a NUL.
pub proof fn lemma_listing_round_trip(s: Seq<TreeEntry>)
    requires
        names_without_nul(s),
    ensures
        listing_from(tree_payload(s), 0) == Ok::<Seq<(Seq<u8>, Seq<u8>, Seq<u8>)>, StoreError>(
            s.map_values(|e: TreeEntry| encoded_view(e)),
        ),
{
    lemma_listing_after(Seq::empty(), s);
    assert(Seq::<u8>::empty() + tree_payload(s) =~= tree_payload(s));
}

} // verus!
