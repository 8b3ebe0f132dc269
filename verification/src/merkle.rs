//! The Merkle tree that commits to every account balance.

use crate::hashing::{
    append_bytes, bytes_less, bytes_lt, digests_equal, i64_le_bytes, i64_to_le_bytes,
    lemma_bytes_lt_irreflexive, lemma_bytes_lt_total, lemma_bytes_lt_transitive,
    lemma_le_bytes_injective, lemma_utf8_injective, sha256, spec_sha256, zero_digest, zero_hash,
};
use vstd::prelude::*;
use vstd::utf8::encode_utf8;

verus! {

/// Merkle proof for a single account balance
#[derive(Debug, Clone)]
pub struct BalanceProof {
    pub account: String,
    /// In micro-dollars.
    pub balance: i64,
    /// Position of the account's leaf: bit `i` says whether the node at
    /// level `i` on the path is a right child.
    pub leaf_index: usize,
    /// Sibling hashes from leaf to root.
    pub proof_hashes: Vec<[u8; 32]>,
    pub root_hash: [u8; 32],
}

/// Merkleized account balance tree for cryptographic verification.
///
/// The leaves are kept sorted by the UTF-8 bytes of their accounts, so the
/// tree, and its root, depend only on each account's balance. A cached root
/// is always the root of the current leaves.
pub struct BalanceTree {
    leaves: Vec<(String, i64)>,
    root: Option<[u8; 32]>,
}

/// What a balance tree holds: its leaves in order, and the root last
/// computed for them, if it is still current.
pub struct BalanceTreeView {
    pub leaves: Seq<(Seq<char>, i64)>,
    pub root: Option<Seq<u8>>,
}

/// The byte contents of a sequence of digests.
pub open spec fn digest_views(s: Seq<[u8; 32]>) -> Seq<Seq<u8>> {
    s.map_values(|h: [u8; 32]| h@)
}

/// The key leaves are ordered by: the account's UTF-8 bytes.
pub open spec fn account_key(account: Seq<char>) -> Seq<u8> {
    encode_utf8(account)
}

/// The leaves are in strictly increasing order of their accounts' keys, so
/// no account occurs twice.
pub open spec fn sorted_accounts(leaves: Seq<(Seq<char>, i64)>) -> bool {
    forall|i: int, j: int|
        0 <= i < j < leaves.len() ==> bytes_lt(
            account_key(#[trigger] leaves[i].0),
            account_key(#[trigger] leaves[j].0),
        )
}

/// The position of the last leaf of `account`, if there is one.
pub open spec fn find_leaf(leaves: Seq<(Seq<char>, i64)>, account: Seq<char>) -> Option<int>
    decreases leaves.len(),
{
    if leaves.len() == 0 {
        None
    } else if leaves.last().0 == account {
        Some(leaves.len() - 1)
    } else {
        find_leaf(leaves.drop_last(), account)
    }
}

/// The balance recorded for `account`, if any.
pub open spec fn lookup(leaves: Seq<(Seq<char>, i64)>, account: Seq<char>) -> Option<i64> {
    match find_leaf(leaves, account) {
        Some(i) => Some(leaves[i].1),
        None => None,
    }
}

/// The leaves after recording `balance` for `account` in sorted leaves: the
/// account's leaf is overwritten in place, or a new leaf is inserted before
/// the first account that comes after it.
pub open spec fn upsert(leaves: Seq<(Seq<char>, i64)>, account: Seq<char>, balance: i64) -> Seq<
    (Seq<char>, i64),
>
    decreases leaves.len(),
{
    if leaves.len() == 0 {
        seq![(account, balance)]
    } else if leaves.last().0 == account {
        leaves.drop_last().push((account, balance))
    } else if bytes_lt(account_key(leaves.last().0), account_key(account)) {
        leaves.push((account, balance))
    } else {
        upsert(leaves.drop_last(), account, balance).push(leaves.last())
    }
}

/// The hash of one leaf: SHA-256 over the account's UTF-8 bytes followed by
/// the balance's little-endian bytes.
pub open spec fn leaf_hash(account: Seq<char>, balance: i64) -> Seq<u8> {
    spec_sha256(encode_utf8(account) + i64_le_bytes(balance))
}

/// The hash of an inner node over its two children.
pub open spec fn node_hash(left: Seq<u8>, right: Seq<u8>) -> Seq<u8> {
    spec_sha256(left + right)
}

/// The hashes of all leaves, in order.
pub open spec fn leaf_hashes(leaves: Seq<(Seq<char>, i64)>) -> Seq<Seq<u8>> {
    Seq::new(leaves.len(), |i: int| leaf_hash(leaves[i].0, leaves[i].1))
}

/// A level with its last hash repeated where its length is odd.
pub open spec fn padded(level: Seq<Seq<u8>>) -> Seq<Seq<u8>> {
    if level.len() % 2 != 0 {
        level.push(level.last())
    } else {
        level
    }
}

/// The level above: each pair of neighbours hashed together.
pub open spec fn parent_level(level: Seq<Seq<u8>>) -> Seq<Seq<u8>> {
    let p = padded(level);
    Seq::new(p.len() / 2, |i: int| node_hash(p[2 * i], p[2 * i + 1]))
}

/// The root over a level of hashes: the zero digest for none, the hash itself
/// for one, and otherwise the root over the level above.
pub open spec fn merkle_root(level: Seq<Seq<u8>>) -> Seq<u8>
    decreases level.len(),
{
    if level.len() == 0 {
        zero_digest()
    } else if level.len() == 1 {
        level[0]
    } else {
        merkle_root(parent_level(level))
    }
}

/// The neighbour that the node at `index` is paired with.
pub open spec fn sibling(level: Seq<Seq<u8>>, index: int) -> Seq<u8> {
    if index % 2 == 0 {
        padded(level)[index + 1]
    } else {
        padded(level)[index - 1]
    }
}

/// The siblings on the way from the node at `index` to the root, lowest
/// first: one per level above a single node.
pub open spec fn proof_path(level: Seq<Seq<u8>>, index: int) -> Seq<Seq<u8>>
    decreases level.len(),
{
    if level.len() <= 1 {
        Seq::empty()
    } else {
        seq![sibling(level, index)] + proof_path(parent_level(level), index / 2)
    }
}

/// The hash a proof path leads to from a node: at each level the node is
/// hashed with its sibling, on the left where the index is even.
pub open spec fn fold_path(node: Seq<u8>, index: int, siblings: Seq<Seq<u8>>) -> Seq<u8>
    decreases siblings.len(),
{
    if siblings.len() == 0 {
        node
    } else {
        let next = if index % 2 == 0 {
            node_hash(node, siblings[0])
        } else {
            node_hash(siblings[0], node)
        };
        fold_path(next, index / 2, siblings.drop_first())
    }
}

/// Whether a proof leads from its leaf to its root.
pub open spec fn proof_holds(
    account: Seq<char>,
    balance: i64,
    index: int,
    siblings: Seq<Seq<u8>>,
    root: Seq<u8>,
) -> bool {
    fold_path(leaf_hash(account, balance), index, siblings) == root
}

proof fn lemma_find_leaf_take(leaves: Seq<(Seq<char>, i64)>, account: Seq<char>, i: int)
    requires
        0 <= i < leaves.len(),
    ensures
        find_leaf(leaves.take(i + 1), account) == if leaves[i].0 == account {
            Some(i)
        } else {
            find_leaf(leaves.take(i), account)
        },
{
    assert(leaves.take(i + 1).drop_last() =~= leaves.take(i));
}

/// A position that `find_leaf` gives holds that account, and where it gives
/// none, no leaf holds it.
pub proof fn lemma_find_leaf(leaves: Seq<(Seq<char>, i64)>, account: Seq<char>)
    ensures
        match find_leaf(leaves, account) {
            Some(i) => 0 <= i < leaves.len() && leaves[i].0 == account,
            None => forall|j: int| 0 <= j < leaves.len() ==> #[trigger] leaves[j].0 != account,
        },
    decreases leaves.len(),
{
    if leaves.len() > 0 {
        lemma_find_leaf(leaves.drop_last(), account);
        if leaves.last().0 != account {
            if find_leaf(leaves, account) is None {
                assert forall|j: int| 0 <= j < leaves.len() implies #[trigger] leaves[j].0 != account by {
                    if j < leaves.len() - 1 {
                        assert(leaves.drop_last()[j] == leaves[j]);
                    }
                }
            }
        }
    }
}

/// Looking up from the last leaf back.
pub proof fn lemma_lookup_unfold(leaves: Seq<(Seq<char>, i64)>, account: Seq<char>)
    requires
        leaves.len() > 0,
    ensures
        lookup(leaves, account) == if leaves.last().0 == account {
            Some(leaves.last().1)
        } else {
            lookup(leaves.drop_last(), account)
        },
{
    lemma_find_leaf(leaves.drop_last(), account);
}

/// Reading back after a write: the account written holds the new balance,
/// and every other account keeps its own.
pub proof fn law_lookup_upsert(leaves: Seq<(Seq<char>, i64)>, account: Seq<char>, balance: i64, other: Seq<char>)
    ensures
        lookup(upsert(leaves, account, balance), other) == if other == account {
            Some(balance)
        } else {
            lookup(leaves, other)
        },
    decreases leaves.len(),
{
    let u = upsert(leaves, account, balance);
    lemma_lookup_unfold(u, other);
    if leaves.len() == 0 {
        assert(u.drop_last() =~= Seq::<(Seq<char>, i64)>::empty());
    } else {
        lemma_lookup_unfold(leaves, other);
        if leaves.last().0 == account {
            assert(u.drop_last() =~= leaves.drop_last());
        } else if bytes_lt(account_key(leaves.last().0), account_key(account)) {
            assert(u.drop_last() =~= leaves);
        } else {
            assert(u.drop_last() =~= upsert(leaves.drop_last(), account, balance));
            law_lookup_upsert(leaves.drop_last(), account, balance, other);
        }
    }
}

/// Writing keeps every key below a bound that the old keys and the new one
/// are below.
proof fn lemma_upsert_bound(leaves: Seq<(Seq<char>, i64)>, account: Seq<char>, balance: i64, bound: Seq<u8>)
    requires
        forall|i: int| 0 <= i < leaves.len() ==> bytes_lt(account_key(#[trigger] leaves[i].0), bound),
        bytes_lt(account_key(account), bound),
    ensures
        forall|i: int|
            0 <= i < upsert(leaves, account, balance).len() ==> bytes_lt(
                account_key(#[trigger] upsert(leaves, account, balance)[i].0),
                bound,
            ),
    decreases leaves.len(),
{
    let u = upsert(leaves, account, balance);
    if leaves.len() == 0 {
    } else if leaves.last().0 == account {
        assert forall|i: int| 0 <= i < u.len() implies bytes_lt(account_key(#[trigger] u[i].0), bound) by {
            if i < leaves.len() - 1 {
                assert(u[i] == leaves[i]);
            }
        }
    } else if bytes_lt(account_key(leaves.last().0), account_key(account)) {
        assert forall|i: int| 0 <= i < u.len() implies bytes_lt(account_key(#[trigger] u[i].0), bound) by {
            if i < leaves.len() {
                assert(u[i] == leaves[i]);
            }
        }
    } else {
        let dl = leaves.drop_last();
        assert forall|i: int| 0 <= i < dl.len() implies bytes_lt(account_key(#[trigger] dl[i].0), bound) by {
            assert(dl[i] == leaves[i]);
        }
        lemma_upsert_bound(dl, account, balance, bound);
        let ud = upsert(dl, account, balance);
        assert forall|i: int| 0 <= i < u.len() implies bytes_lt(account_key(#[trigger] u[i].0), bound) by {
            if i < ud.len() {
                assert(u[i] == ud[i]);
            } else {
                assert(u[i] == leaves.last());
            }
        }
    }
}

/// Writing keeps the leaves sorted.
pub proof fn lemma_upsert_sorted(leaves: Seq<(Seq<char>, i64)>, account: Seq<char>, balance: i64)
    requires
        sorted_accounts(leaves),
    ensures
        sorted_accounts(upsert(leaves, account, balance)),
        upsert(leaves, account, balance).len() >= 1,
        upsert(leaves, account, balance).len() >= leaves.len(),
    decreases leaves.len(),
{
    let u = upsert(leaves, account, balance);
    if leaves.len() == 0 {
    } else if leaves.last().0 == account {
        assert forall|i: int, j: int| 0 <= i < j < u.len() implies bytes_lt(
            account_key(#[trigger] u[i].0),
            account_key(#[trigger] u[j].0),
        ) by {
            assert(u[i].0 == leaves[i].0);
            assert(u[j].0 == leaves[j].0);
        }
    } else if bytes_lt(account_key(leaves.last().0), account_key(account)) {
        assert forall|i: int, j: int| 0 <= i < j < u.len() implies bytes_lt(
            account_key(#[trigger] u[i].0),
            account_key(#[trigger] u[j].0),
        ) by {
            if j == leaves.len() && i < leaves.len() - 1 {
                lemma_bytes_lt_transitive(
                    account_key(leaves[i].0),
                    account_key(leaves.last().0),
                    account_key(account),
                );
            }
        }
    } else {
        let dl = leaves.drop_last();
        let last = leaves.last();
        lemma_bytes_lt_total(account_key(account), account_key(last.0));
        lemma_utf8_injective(account, last.0);
        assert(bytes_lt(account_key(account), account_key(last.0)));
        assert forall|i: int, j: int| 0 <= i < j < dl.len() implies bytes_lt(
            account_key(#[trigger] dl[i].0),
            account_key(#[trigger] dl[j].0),
        ) by {
            assert(dl[i] == leaves[i]);
            assert(dl[j] == leaves[j]);
        }
        lemma_upsert_sorted(dl, account, balance);
        assert forall|i: int| 0 <= i < dl.len() implies bytes_lt(
            account_key(#[trigger] dl[i].0),
            account_key(last.0),
        ) by {
            assert(dl[i] == leaves[i]);
        }
        lemma_upsert_bound(dl, account, balance, account_key(last.0));
        let ud = upsert(dl, account, balance);
        assert forall|i: int, j: int| 0 <= i < j < u.len() implies bytes_lt(
            account_key(#[trigger] u[i].0),
            account_key(#[trigger] u[j].0),
        ) by {
            assert(u[i] == ud[i]);
            if j < ud.len() {
                assert(u[j] == ud[j]);
            }
        }
    }
}

/// In sorted leaves, an account whose key comes after the last one has no
/// balance.
pub proof fn lemma_sorted_absent(leaves: Seq<(Seq<char>, i64)>, account: Seq<char>)
    requires
        sorted_accounts(leaves),
        leaves.len() > 0,
        bytes_lt(account_key(leaves.last().0), account_key(account)),
    ensures
        lookup(leaves, account) is None,
{
    lemma_find_leaf(leaves, account);
    if let Some(i) = find_leaf(leaves, account) {
        if i < leaves.len() - 1 {
            lemma_bytes_lt_transitive(
                account_key(leaves[i].0),
                account_key(leaves.last().0),
                account_key(account),
            );
        }
        lemma_bytes_lt_irreflexive(account_key(account));
    }
}

/// In sorted leaves, the last account does not occur before the last leaf.
pub proof fn lemma_sorted_last_unique(leaves: Seq<(Seq<char>, i64)>)
    requires
        sorted_accounts(leaves),
        leaves.len() > 0,
    ensures
        lookup(leaves.drop_last(), leaves.last().0) is None,
        sorted_accounts(leaves.drop_last()),
{
    let dl = leaves.drop_last();
    lemma_find_leaf(dl, leaves.last().0);
    if let Some(i) = find_leaf(dl, leaves.last().0) {
        assert(dl[i] == leaves[i]);
        lemma_bytes_lt_irreflexive(account_key(leaves.last().0));
    }
    assert forall|i: int, j: int| 0 <= i < j < dl.len() implies bytes_lt(
        account_key(#[trigger] dl[i].0),
        account_key(#[trigger] dl[j].0),
    ) by {
        assert(dl[i] == leaves[i]);
        assert(dl[j] == leaves[j]);
    }
}

/// Sorted leaves are determined by the balance of each account: two sorted
/// leaf sequences that agree on every account are the same.
pub proof fn law_sorted_leaves_determined(a: Seq<(Seq<char>, i64)>, b: Seq<(Seq<char>, i64)>)
    requires
        sorted_accounts(a),
        sorted_accounts(b),
        forall|k: Seq<char>| #[trigger] lookup(a, k) == lookup(b, k),
    ensures
        a == b,
    decreases a.len() + b.len(),
{
    if a.len() == 0 && b.len() == 0 {
        assert(a =~= b);
    } else if a.len() == 0 {
        lemma_lookup_unfold(b, b.last().0);
        assert(lookup(a, b.last().0) == lookup(b, b.last().0));
    } else if b.len() == 0 {
        lemma_lookup_unfold(a, a.last().0);
        assert(lookup(a, a.last().0) == lookup(b, a.last().0));
    } else {
        let x = a.last();
        let y = b.last();
        lemma_lookup_unfold(a, x.0);
        lemma_lookup_unfold(b, y.0);
        assert(lookup(a, x.0) == lookup(b, x.0));
        assert(lookup(a, y.0) == lookup(b, y.0));
        lemma_find_leaf(b, x.0);
        lemma_find_leaf(a, y.0);
        lemma_bytes_lt_irreflexive(account_key(x.0));
        let jb = find_leaf(b, x.0)->0;
        let ja = find_leaf(a, y.0)->0;
        if jb != b.len() - 1 {
            assert(bytes_lt(account_key(b[jb].0), account_key(y.0)));
            if ja != a.len() - 1 {
                assert(bytes_lt(account_key(a[ja].0), account_key(x.0)));
                lemma_bytes_lt_transitive(account_key(x.0), account_key(y.0), account_key(x.0));
            }
        }
        assert(x == y);
        lemma_sorted_last_unique(a);
        lemma_sorted_last_unique(b);
        let da = a.drop_last();
        let db = b.drop_last();
        assert forall|k: Seq<char>| #[trigger] lookup(da, k) == lookup(db, k) by {
            lemma_lookup_unfold(a, k);
            lemma_lookup_unfold(b, k);
            assert(lookup(a, k) == lookup(b, k));
        }
        law_sorted_leaves_determined(da, db);
        assert(a =~= da.push(x));
        assert(b =~= db.push(y));
    }
}

/// The root depends only on each account's balance, not on the order in
/// which the balances were written.
pub proof fn law_root_determined_by_balances(a: Seq<(Seq<char>, i64)>, b: Seq<(Seq<char>, i64)>)
    requires
        sorted_accounts(a),
        sorted_accounts(b),
        forall|k: Seq<char>| #[trigger] lookup(a, k) == lookup(b, k),
    ensures
        merkle_root(leaf_hashes(a)) == merkle_root(leaf_hashes(b)),
{
    law_sorted_leaves_determined(a, b);
}

proof fn lemma_parent_level_shorter(level: Seq<Seq<u8>>)
    requires
        level.len() >= 2,
    ensures
        parent_level(level).len() < level.len(),
        parent_level(level).len() >= 1,
{
}

/// The level above, pair by pair: it has one node per two nodes, rounded
/// up; each node hashes a pair of neighbours; and at a level of odd length,
/// of whatever size, the last node is paired with itself.
pub proof fn law_parent_level_pairs(level: Seq<Seq<u8>>)
    requires
        level.len() >= 1,
    ensures
        parent_level(level).len() == (level.len() + 1) / 2,
        forall|i: int|
            0 <= i < parent_level(level).len() ==> #[trigger] parent_level(level)[i] == node_hash(
                level[2 * i],
                if 2 * i + 1 < level.len() {
                    level[2 * i + 1]
                } else {
                    level[2 * i]
                },
            ),
        level.len() % 2 == 1 ==> parent_level(level).last() == node_hash(level.last(), level.last()),
{
    let p = padded(level);
    let n = level.len();
    assert forall|i: int| 0 <= i < parent_level(level).len() implies #[trigger] parent_level(level)[i]
        == node_hash(
        level[2 * i],
        if 2 * i + 1 < n {
            level[2 * i + 1]
        } else {
            level[2 * i]
        },
    ) by {
        assert(p[2 * i] == level[2 * i]);
        if 2 * i + 1 < n {
            assert(p[2 * i + 1] == level[2 * i + 1]);
        } else {
            assert(2 * i == n - 1);
            assert(p[2 * i + 1] == level.last());
        }
    }
    if n % 2 == 1 {
        let k = parent_level(level).len() - 1;
        assert(2 * k == n - 1);
        assert(parent_level(level)[k] == node_hash(level[2 * k], level[2 * k]));
    }
}

/// The root over a level, from the levels up: the zero digest for none, the
/// single hash for one, and otherwise the root over the level above it,
/// where neighbours are hashed pairwise and a last unpaired hash is hashed
/// with itself.
pub proof fn law_merkle_root_characterized(level: Seq<Seq<u8>>)
    ensures
        level.len() == 0 ==> merkle_root(level) == Seq::new(32, |i: int| 0u8),
        level.len() == 1 ==> merkle_root(level) == level[0],
        level.len() >= 2 ==> merkle_root(level) == merkle_root(
            Seq::new(
                ((level.len() + 1) / 2) as nat,
                |i: int|
                    node_hash(
                        level[2 * i],
                        if 2 * i + 1 < level.len() {
                            level[2 * i + 1]
                        } else {
                            level[2 * i]
                        },
                    ),
            ),
        ),
{
    assert(zero_digest() =~= Seq::new(32, |i: int| 0u8));
    if level.len() >= 2 {
        law_parent_level_pairs(level);
        assert(parent_level(level) =~= Seq::new(
            ((level.len() + 1) / 2) as nat,
            |i: int|
                node_hash(
                    level[2 * i],
                    if 2 * i + 1 < level.len() {
                        level[2 * i + 1]
                    } else {
                        level[2 * i]
                    },
                ),
        ));
    }
}

/// The sibling a proof carries at a level: the right neighbour of a node at
/// an even position, the left neighbour of one at an odd position, and the
/// node itself for the last node of a level of odd length, of whatever size.
pub proof fn law_sibling_characterized(level: Seq<Seq<u8>>, index: int)
    requires
        0 <= index < level.len(),
    ensures
        sibling(level, index) == if index % 2 == 1 {
            level[index - 1]
        } else if index + 1 < level.len() {
            level[index + 1]
        } else {
            level[index]
        },
{
}

/// Folding the proof path of a node from that node gives the root.
pub proof fn lemma_proof_path(level: Seq<Seq<u8>>, index: int)
    requires
        0 <= index < level.len(),
    ensures
        fold_path(level[index], index, proof_path(level, index)) == merkle_root(level),
    decreases level.len(),
{
    if level.len() > 1 {
        let p = padded(level);
        let parent = parent_level(level);
        lemma_parent_level_shorter(level);
        let path = proof_path(level, index);
        assert(path[0] == sibling(level, index));
        assert(path.drop_first() =~= proof_path(parent, index / 2));
        assert(p[index] == level[index]);
        assert(0 <= index / 2 < parent.len());
        if index % 2 == 0 {
            assert(2 * (index / 2) == index);
        } else {
            assert(2 * (index / 2) + 1 == index);
        }
        assert(parent[index / 2] == node_hash(p[2 * (index / 2)], p[2 * (index / 2) + 1]));
        lemma_proof_path(parent, index / 2);
    }
}

/// A generated proof verifies: the proof path of a leaf leads from its hash
/// to the root of the leaves.
pub proof fn law_generated_proof_holds(leaves: Seq<(Seq<char>, i64)>, index: int)
    requires
        0 <= index < leaves.len(),
    ensures
        proof_holds(
            leaves[index].0,
            leaves[index].1,
            index,
            proof_path(leaf_hashes(leaves), index),
            merkle_root(leaf_hashes(leaves)),
        ),
{
    lemma_proof_path(leaf_hashes(leaves), index);
}

proof fn lemma_concat_cancel(x: Seq<u8>, y: Seq<u8>, s: Seq<u8>)
    requires
        x + s == y + s,
    ensures
        x == y,
{
    assert((x + s).len() == (y + s).len());
    assert((x + s).len() == x.len() + s.len());
    assert((y + s).len() == y.len() + s.len());
    assert(x.len() == y.len());
    assert forall|i: int| 0 <= i < x.len() implies x[i] == y[i] by {
        assert((x + s)[i] == x[i]);
        assert((y + s)[i] == y[i]);
    }
    assert(x =~= y);
}

proof fn lemma_fold_path_injective(n1: Seq<u8>, n2: Seq<u8>, index: int, siblings: Seq<Seq<u8>>)
    requires
        forall|x: Seq<u8>, y: Seq<u8>| #[trigger] spec_sha256(x) == #[trigger] spec_sha256(y) ==> x == y,
        fold_path(n1, index, siblings) == fold_path(n2, index, siblings),
    ensures
        n1 == n2,
    decreases siblings.len(),
{
    if siblings.len() > 0 {
        let s = siblings[0];
        if index % 2 == 0 {
            lemma_fold_path_injective(node_hash(n1, s), node_hash(n2, s), index / 2, siblings.drop_first());
            lemma_concat_cancel(n1, n2, s);
        } else {
            lemma_fold_path_injective(node_hash(s, n1), node_hash(s, n2), index / 2, siblings.drop_first());
            assert(s + n1 == s + n2);
            assert(n1.len() == n2.len());
            assert forall|i: int| 0 <= i < n1.len() implies n1[i] == n2[i] by {
                assert((s + n1)[s.len() + i] == (s + n2)[s.len() + i]);
            }
            assert(n1 =~= n2);
        }
    }
}

/// A proof cannot be reused: where SHA-256 has no collisions, a path and
/// root that verify one account and balance verify no other.
pub proof fn law_proof_not_reusable(
    account1: Seq<char>,
    balance1: i64,
    account2: Seq<char>,
    balance2: i64,
    index: int,
    siblings: Seq<Seq<u8>>,
    root: Seq<u8>,
)
    requires
        forall|x: Seq<u8>, y: Seq<u8>| #[trigger] spec_sha256(x) == #[trigger] spec_sha256(y) ==> x == y,
        proof_holds(account1, balance1, index, siblings, root),
        proof_holds(account2, balance2, index, siblings, root),
    ensures
        account1 == account2,
        balance1 == balance2,
{
    let m1 = encode_utf8(account1) + i64_le_bytes(balance1);
    let m2 = encode_utf8(account2) + i64_le_bytes(balance2);
    let h1 = leaf_hash(account1, balance1);
    let h2 = leaf_hash(account2, balance2);
    lemma_fold_path_injective(h1, h2, index, siblings);
    assert(m1 == m2);
    lemma_le_bytes_injective(balance1, balance2);
    lemma_le_bytes_injective(balance2, balance1);
    assert(m1.len() == m2.len());
    let n1 = encode_utf8(account1).len();
    let n2 = encode_utf8(account2).len();
    assert(n1 == n2);
    assert(m1.subrange(0, n1 as int) =~= encode_utf8(account1));
    assert(m2.subrange(0, n2 as int) =~= encode_utf8(account2));
    lemma_utf8_injective(account1, account2);
    assert(m1.skip(n1 as int) =~= i64_le_bytes(balance1));
    assert(m2.skip(n2 as int) =~= i64_le_bytes(balance2));
}

impl View for BalanceTree {
    type V = BalanceTreeView;

    closed spec fn view(&self) -> BalanceTreeView {
        BalanceTreeView {
            leaves: self.leaves@.map_values(|p: (String, i64)| (p.0@, p.1)),
            root: match self.root {
                Some(r) => Some(r@),
                None => None,
            },
        }
    }
}

/// The tree's invariant: sorted leaves, and a cached root that is the root
/// of the current leaves.
pub open spec fn tree_valid(t: BalanceTreeView) -> bool {
    &&& sorted_accounts(t.leaves)
    &&& match t.root {
        Some(r) => t.leaves.len() > 0 && r == merkle_root(leaf_hashes(t.leaves)),
        None => true,
    }
}

/// The level above a level of digests.
fn parent_of(level: Vec<[u8; 32]>) -> (next: Vec<[u8; 32]>)
    requires
        level@.len() >= 1,
    ensures
        digest_views(next@) == parent_level(digest_views(level@)),
        next@.len() == (level@.len() + 1) / 2,
        forall|i: int|
            0 <= i < next@.len() ==> #[trigger] next@[i]@ == node_hash(
                level@[2 * i]@,
                if 2 * i + 1 < level@.len() {
                    level@[2 * i + 1]@
                } else {
                    level@[2 * i]@
                },
            ),
{
    proof {
        law_parent_level_pairs(digest_views(level@));
    }
    let ghost orig = level@;
    let ghost before = digest_views(level@);
    let mut level = level;
    if level.len() % 2 != 0 {
        let last = level[level.len() - 1];
        level.push(last);
    }
    assert(digest_views(level@) =~= padded(before));
    assert(level@.len() % 2 == 0);
    let half = level.len() / 2;
    let mut next: Vec<[u8; 32]> = Vec::new();
    let mut i: usize = 0;
    while i < half
        invariant
            level@.len() == 2 * half,
            i <= half,
            digest_views(level@) == padded(before),
            digest_views(next@) =~= parent_level(before).take(i as int),
        decreases half - i,
    {
        let mut msg: Vec<u8> = Vec::new();
        assert(2 * i + 1 < level.len());
        append_bytes(&mut msg, level[2 * i].as_slice());
        append_bytes(&mut msg, level[2 * i + 1].as_slice());
        let h = sha256(msg.as_slice());
        next.push(h);
        proof {
            let p = padded(before);
            assert(p[2 * i] == level@[2 * i as int]@);
            assert(p[2 * i + 1] == level@[2 * i + 1]@);
            assert(parent_level(before).take(i + 1) =~= parent_level(before).take(i as int).push(
                h@,
            ));
        }
        i = i + 1;
    }
    assert(parent_level(before).take(half as int) =~= parent_level(before));
    proof {
        assert forall|i: int| 0 <= i < next@.len() implies #[trigger] next@[i]@ == node_hash(
            orig[2 * i]@,
            if 2 * i + 1 < orig.len() {
                orig[2 * i + 1]@
            } else {
                orig[2 * i]@
            },
        ) by {
            assert(next@[i]@ == digest_views(next@)[i]);
            assert(before[2 * i] == orig[2 * i]@);
            if 2 * i + 1 < orig.len() {
                assert(before[2 * i + 1] == orig[2 * i + 1]@);
            }
        }
    }
    next
}

impl BalanceTree {
    #[verifier::type_invariant]
    pub open spec fn tree_invariant(self) -> bool {
        tree_valid(self@)
    }

    /// An empty tree with no root.
    pub fn new() -> (t: BalanceTree)
        ensures
            t@.leaves == Seq::<(Seq<char>, i64)>::empty(),
            t@.root is None,
    {
        let t = BalanceTree { leaves: Vec::new(), root: None };
        assert(t@.leaves =~= Seq::<(Seq<char>, i64)>::empty());
        t
    }

    /// Records `balance` for `account`, keeping the leaves sorted, and
    /// invalidates the cached root.
    pub fn update(&mut self, account: &str, balance: i64)
        ensures
            final(self)@.leaves == upsert(old(self)@.leaves, account@, balance),
            final(self)@.root is None,
            sorted_accounts(final(self)@.leaves),
    {
        proof {
            use_type_invariant(&*self);
        }
        let key: String = account.to_owned();
        let key_bytes = account.as_bytes();
        let ghost old_leaves = self@.leaves;
        let ghost k = account@;
        let ghost target = upsert(old_leaves, k, balance);
        let mut i: usize = self.leaves.len();
        let mut done = false;
        assert(old_leaves.take(i as int) =~= old_leaves);
        assert(old_leaves.skip(i as int) =~= Seq::<(Seq<char>, i64)>::empty());
        assert(target =~= upsert(old_leaves.take(i as int), k, balance) + old_leaves.skip(i as int));
        while !done && i > 0
            invariant
                i <= self.leaves@.len(),
                old_leaves == self@.leaves,
                key@ == k,
                key_bytes@ == account_key(k),
                target == upsert(old_leaves.take(i as int), k, balance) + old_leaves.skip(i as int),
                done ==> i > 0 && (old_leaves[i - 1].0 == k || bytes_lt(
                    account_key(old_leaves[i - 1].0),
                    account_key(k),
                )),
            decreases i + if done { 0int } else { 1int },
        {
            let found = self.leaves[i - 1].0 == key;
            let before = bytes_less(self.leaves[i - 1].0.as_str().as_bytes(), key_bytes);
            if found || before {
                done = true;
            } else {
                proof {
                    let t = old_leaves.take(i as int);
                    assert(t.last() == old_leaves[i - 1]);
                    assert(t.drop_last() =~= old_leaves.take(i - 1));
                    assert(upsert(t, k, balance) == upsert(t.drop_last(), k, balance).push(t.last()));
                    assert(old_leaves.skip(i - 1) =~= seq![old_leaves[i - 1]] + old_leaves.skip(i as int));
                    assert(upsert(old_leaves.take(i - 1), k, balance).push(old_leaves[i - 1])
                        + old_leaves.skip(i as int) =~= upsert(old_leaves.take(i - 1), k, balance)
                        + old_leaves.skip(i - 1));
                }
                i = i - 1;
            }
        }
        proof {
            lemma_upsert_sorted(old_leaves, k, balance);
        }
        self.root = None;
        let mut leaves: Vec<(String, i64)> = Vec::new();
        std::mem::swap(&mut leaves, &mut self.leaves);
        if i > 0 && leaves[i - 1].0 == key {
            proof {
                let t = old_leaves.take(i as int);
                assert(t.last() == old_leaves[i - 1]);
                assert(t.drop_last() =~= old_leaves.take(i - 1));
                assert(target =~= old_leaves.update(i - 1, (k, balance)));
            }
            leaves.set(i - 1, (key, balance));
        } else {
            proof {
                let t = old_leaves.take(i as int);
                if i > 0 {
                    assert(t.last() == old_leaves[i - 1]);
                    assert(target =~= old_leaves.insert(i as int, (k, balance)));
                } else {
                    assert(t =~= Seq::<(Seq<char>, i64)>::empty());
                    assert(old_leaves.skip(0) =~= old_leaves);
                    assert(target =~= old_leaves.insert(0, (k, balance)));
                }
            }
            leaves.insert(i, (key, balance));
        }
        proof {
            assert(leaves@.map_values(|p: (String, i64)| (p.0@, p.1)) =~= target);
        }
        self.leaves = leaves;
    }

    /// The hash of each leaf, in order.
    fn hash_leaves(&self) -> (hashes: Vec<[u8; 32]>)
        ensures
            digest_views(hashes@) == leaf_hashes(self@.leaves),
    {
        let mut hashes: Vec<[u8; 32]> = Vec::new();
        let mut i: usize = 0;
        while i < self.leaves.len()
            invariant
                i <= self.leaves@.len(),
                digest_views(hashes@) =~= leaf_hashes(self@.leaves).take(i as int),
            decreases self.leaves@.len() - i,
        {
            let mut msg: Vec<u8> = Vec::new();
            append_bytes(&mut msg, self.leaves[i].0.as_str().as_bytes());
            let balance_bytes = i64_to_le_bytes(self.leaves[i].1);
            append_bytes(&mut msg, balance_bytes.as_slice());
            let h = sha256(msg.as_slice());
            hashes.push(h);
            proof {
                assert(leaf_hashes(self@.leaves).take(i + 1) =~= leaf_hashes(self@.leaves).take(
                    i as int,
                ).push(h@));
            }
            i = i + 1;
        }
        hashes
    }

    /// Computes Merkle root from current leaves, and caches it where there is
    /// at least one leaf.
    pub fn compute_root(&mut self) -> (root: [u8; 32])
        ensures
            final(self)@.leaves == old(self)@.leaves,
            old(self)@.leaves.len() == 0 ==> root@ == zero_digest() && final(self)@.root == old(
                self,
            )@.root,
            old(self)@.leaves.len() > 0 ==> root@ == merkle_root(leaf_hashes(old(self)@.leaves))
                && final(self)@.root == Some(root@),
            sorted_accounts(final(self)@.leaves),
    {
        proof {
            use_type_invariant(&*self);
        }
        if self.leaves.len() == 0 {
            return zero_hash();
        }
        let mut level = self.hash_leaves();
        let ghost target = merkle_root(leaf_hashes(self@.leaves));
        while level.len() > 1
            invariant
                level@.len() >= 1,
                merkle_root(digest_views(level@)) == target,
            decreases level@.len(),
        {
            proof {
                lemma_parent_level_shorter(digest_views(level@));
            }
            level = parent_of(level);
        }
        let root = level[0];
        self.root = Some(root);
        root
    }

    /// The balance recorded for `account`, if any.
    pub fn get(&self, account: &str) -> (balance: Option<i64>)
        ensures
            balance == lookup(self@.leaves, account@),
    {
        let key: String = account.to_owned();
        let ghost leaves = self@.leaves;
        let mut found: Option<i64> = None;
        let mut i: usize = 0;
        while i < self.leaves.len()
            invariant
                i <= self.leaves@.len(),
                leaves == self@.leaves,
                key@ == account@,
                match find_leaf(leaves.take(i as int), account@) {
                    Some(j) => found == Some(leaves[j].1),
                    None => found is None,
                },
            decreases self.leaves@.len() - i,
        {
            proof {
                lemma_find_leaf_take(leaves, account@, i as int);
            }
            if self.leaves[i].0 == key {
                found = Some(self.leaves[i].1);
            }
            i = i + 1;
        }
        assert(leaves.take(leaves.len() as int) =~= leaves);
        found
    }

    /// Generates a Merkle proof for a specific account: its balance, the
    /// position of its leaf, the sibling on each level from its leaf up, and
    /// the cached root. Such a proof always verifies.
    pub fn generate_proof(&self, account: &str) -> (proof: Option<BalanceProof>)
        ensures
            match (find_leaf(self@.leaves, account@), self@.root) {
                (Some(i), Some(r)) => proof matches Some(p) && p.account@ == account@ && p.balance
                    == self@.leaves[i].1 && p.leaf_index == i && digest_views(p.proof_hashes@)
                    == proof_path(leaf_hashes(self@.leaves), i) && p.root_hash@ == r
                    && proof_holds(
                    p.account@,
                    p.balance,
                    p.leaf_index as int,
                    digest_views(p.proof_hashes@),
                    p.root_hash@,
                ),
                _ => proof is None,
            },
    {
        proof {
            use_type_invariant(self);
        }
        let key: String = account.to_owned();
        let ghost leaves = self@.leaves;
        let ghost k = account@;
        let mut found: Option<usize> = None;
        let mut i: usize = 0;
        while i < self.leaves.len()
            invariant
                i <= self.leaves@.len(),
                leaves == self@.leaves,
                key@ == k,
                match found {
                    Some(j) => find_leaf(leaves.take(i as int), k) == Some(j as int),
                    None => find_leaf(leaves.take(i as int), k) is None,
                },
            decreases self.leaves@.len() - i,
        {
            proof {
                lemma_find_leaf_take(leaves, k, i as int);
            }
            if self.leaves[i].0 == key {
                found = Some(i);
            }
            i = i + 1;
        }
        assert(leaves.take(leaves.len() as int) =~= leaves);
        proof {
            lemma_find_leaf(leaves, k);
        }
        let pos = match found {
            Some(j) => j,
            None => return None,
        };
        let root = match self.root {
            Some(r) => r,
            None => return None,
        };
        let ghost full = leaf_hashes(leaves);
        let mut level = self.hash_leaves();
        let mut siblings: Vec<[u8; 32]> = Vec::new();
        let mut idx: usize = pos;
        assert(digest_views(siblings@) + proof_path(digest_views(level@), idx as int) =~= proof_path(
            full,
            pos as int,
        ));
        while level.len() > 1
            invariant
                level@.len() >= 1,
                idx < level@.len(),
                digest_views(siblings@) + proof_path(digest_views(level@), idx as int) == proof_path(
                    full,
                    pos as int,
                ),
            decreases level@.len(),
        {
            let ghost before = digest_views(level@);
            let ghost old_siblings = digest_views(siblings@);
            let sib = if idx % 2 == 0 {
                if idx + 1 < level.len() {
                    level[idx + 1]
                } else {
                    level[idx]
                }
            } else {
                level[idx - 1]
            };
            assert(sib@ == sibling(before, idx as int));
            siblings.push(sib);
            proof {
                lemma_parent_level_shorter(before);
                assert(proof_path(before, idx as int) == seq![sib@] + proof_path(
                    parent_level(before),
                    idx as int / 2,
                ));
                assert(digest_views(siblings@) =~= old_siblings.push(sib@));
                assert(digest_views(siblings@) + proof_path(parent_level(before), idx as int / 2)
                    =~= old_siblings + proof_path(before, idx as int));
            }
            level = parent_of(level);
            idx = idx / 2;
        }
        assert(proof_path(digest_views(level@), idx as int) =~= Seq::<Seq<u8>>::empty());
        assert(digest_views(siblings@) =~= proof_path(full, pos as int));
        proof {
            law_generated_proof_holds(leaves, pos as int);
        }
        Some(
            BalanceProof {
                account: account.to_owned(),
                balance: self.leaves[pos].1,
                leaf_index: pos,
                proof_hashes: siblings,
                root_hash: root,
            },
        )
    }

    /// Verifies a balance proof against a root hash: the leaf hash is folded
    /// with each sibling, the sibling on the left where the index bit is set.
    pub fn verify_proof(proof: &BalanceProof) -> (valid: bool)
        ensures
            valid == proof_holds(
                proof.account@,
                proof.balance,
                proof.leaf_index as int,
                digest_views(proof.proof_hashes@),
                proof.root_hash@,
            ),
    {
        let mut msg: Vec<u8> = Vec::new();
        append_bytes(&mut msg, proof.account.as_str().as_bytes());
        let balance_bytes = i64_to_le_bytes(proof.balance);
        append_bytes(&mut msg, balance_bytes.as_slice());
        let mut current = sha256(msg.as_slice());
        let ghost leaf = leaf_hash(proof.account@, proof.balance);
        let ghost siblings = digest_views(proof.proof_hashes@);
        let mut idx: usize = proof.leaf_index;
        let mut i: usize = 0;
        assert(siblings.skip(0) =~= siblings);
        while i < proof.proof_hashes.len()
            invariant
                i <= proof.proof_hashes@.len(),
                siblings == digest_views(proof.proof_hashes@),
                fold_path(leaf, proof.leaf_index as int, siblings) == fold_path(
                    current@,
                    idx as int,
                    siblings.skip(i as int),
                ),
            decreases proof.proof_hashes@.len() - i,
        {
            let mut pair: Vec<u8> = Vec::new();
            if idx % 2 == 0 {
                append_bytes(&mut pair, current.as_slice());
                append_bytes(&mut pair, proof.proof_hashes[i].as_slice());
            } else {
                append_bytes(&mut pair, proof.proof_hashes[i].as_slice());
                append_bytes(&mut pair, current.as_slice());
            }
            assert(siblings.skip(i as int)[0] == proof.proof_hashes@[i as int]@);
            assert(siblings.skip(i as int).drop_first() =~= siblings.skip(i + 1));
            current = sha256(pair.as_slice());
            idx = idx / 2;
            i = i + 1;
        }
        digests_equal(&current, &proof.root_hash)
    }
}

} // verus!
