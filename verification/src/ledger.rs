//! The posting rules of the double-entry ledger: which postings are
//! accepted, what an accepted posting does to the balances, the chain head
//! and the Merkle root, and how a stored hash chain is checked.
//!
//! Storage, locking and the clock stay with the caller: a posting is first
//! prepared (checked, and its journal entry built and hashed), the caller
//! stores the entry, and the prepared posting is then committed.

use crate::hashing::{digests_equal, sha256, spec_sha256, zero_digest, zero_hash};
use crate::hashing::bytes_lt;
use crate::merkle::{
    account_key, digest_views, find_leaf, law_lookup_upsert, law_sorted_leaves_determined,
    leaf_hashes, lemma_find_leaf,
    lemma_lookup_unfold, lemma_sorted_absent, lemma_sorted_last_unique, lemma_upsert_sorted,
    lookup, merkle_root, proof_holds, proof_path, sorted_accounts, upsert, BalanceProof,
    BalanceTree,
};
use crate::text::{int_decimal, push_i64_decimal};
use crate::types::{entry_bytes, entry_message, law_entry_bytes_injective, AccountId, Entry, MicroDollar};
use vstd::utf8::encode_utf8;
use vstd::prelude::*;

verus! {

/// Result of applying a journal entry
#[derive(Debug)]
pub enum PostingResult {
    Applied { entry_id: u64, new_state_root: [u8; 32] },
    Rejected { reason: String },
}

/// Why a posting is refused before anything is stored.
#[derive(Debug, Clone, Copy, PartialEq, Eq, Structural)]
pub enum Rejection {
    /// The amount is zero or negative.
    NonPositiveAmount { amount: MicroDollar },
    /// Debit and credit name the same account.
    SameAccount,
    /// The credit account's balance minus the amount leaves the range of `i64`.
    CreditOverflow { balance: i64, amount: i64 },
    /// The debit account's balance plus the amount leaves the range of `i64`.
    DebitOverflow { balance: i64, amount: i64 },
}

/// The message that explains a rejection.
pub open spec fn rejection_text(r: Rejection) -> Seq<char> {
    match r {
        Rejection::NonPositiveAmount { amount } => "Amount must be positive, got MicroDollar("@
            + int_decimal(amount.0 as int) + ")"@,
        Rejection::SameAccount => "Debit and credit accounts must differ"@,
        Rejection::CreditOverflow { balance, amount } => "Overflow in credit balance: "@
            + int_decimal(balance as int) + " - "@ + int_decimal(amount as int) + " micros"@,
        Rejection::DebitOverflow { balance, amount } => "Overflow in debit balance: "@
            + int_decimal(balance as int) + " + "@ + int_decimal(amount as int) + " micros"@,
    }
}

impl Rejection {
    /// The message that explains this rejection.
    pub fn reason(&self) -> (text: String)
        ensures
            text@ == rejection_text(*self),
    {
        let mut s = String::new();
        match *self {
            Rejection::NonPositiveAmount { amount } => {
                proof {
                    reveal_strlit("Amount must be positive, got MicroDollar(");
                    reveal_strlit(")");
                }
                s.append("Amount must be positive, got MicroDollar(");
                push_i64_decimal(&mut s, amount.0);
                s.append(")");
            },
            Rejection::SameAccount => {
                proof {
                    reveal_strlit("Debit and credit accounts must differ");
                }
                s.append("Debit and credit accounts must differ");
            },
            Rejection::CreditOverflow { balance, amount } => {
                proof {
                    reveal_strlit("Overflow in credit balance: ");
                    reveal_strlit(" - ");
                    reveal_strlit(" micros");
                }
                s.append("Overflow in credit balance: ");
                push_i64_decimal(&mut s, balance);
                s.append(" - ");
                push_i64_decimal(&mut s, amount);
                s.append(" micros");
            },
            Rejection::DebitOverflow { balance, amount } => {
                proof {
                    reveal_strlit("Overflow in debit balance: ");
                    reveal_strlit(" + ");
                    reveal_strlit(" micros");
                }
                s.append("Overflow in debit balance: ");
                push_i64_decimal(&mut s, balance);
                s.append(" + ");
                push_i64_decimal(&mut s, amount);
                s.append(" micros");
            },
        }
        assert(s@ =~= rejection_text(*self));
        s
    }
}

/// The balance of `account`, zero for an account never posted to.
pub open spec fn balance_or_zero(leaves: Seq<(Seq<char>, i64)>, account: Seq<char>) -> i64 {
    match lookup(leaves, account) {
        Some(b) => b,
        None => 0,
    }
}

/// The sum of all balances.
pub open spec fn total_balance(leaves: Seq<(Seq<char>, i64)>) -> int
    decreases leaves.len(),
{
    if leaves.len() == 0 {
        0
    } else {
        total_balance(leaves.drop_last()) + leaves.last().1
    }
}

/// Whether a posting of `amount` from `credit` to `debit` is accepted
/// against the balances `leaves`, with the new debit and credit balances if
/// so. The checks run in this order: the amount, the accounts, the credit
/// balance, the debit balance.
pub open spec fn posting_check(
    leaves: Seq<(Seq<char>, i64)>,
    debit: Seq<char>,
    credit: Seq<char>,
    amount: i64,
) -> Result<(i64, i64), Rejection> {
    let credit_balance = balance_or_zero(leaves, credit);
    let debit_balance = balance_or_zero(leaves, debit);
    if amount <= 0 {
        Err(Rejection::NonPositiveAmount { amount: MicroDollar(amount) })
    } else if debit == credit {
        Err(Rejection::SameAccount)
    } else if !(i64::MIN <= credit_balance - amount <= i64::MAX) {
        Err(Rejection::CreditOverflow { balance: credit_balance, amount })
    } else if !(i64::MIN <= debit_balance + amount <= i64::MAX) {
        Err(Rejection::DebitOverflow { balance: debit_balance, amount })
    } else {
        Ok(((debit_balance + amount) as i64, (credit_balance - amount) as i64))
    }
}

/// A hash chain, oldest first, as pairs of (entry hash, parent hash): each
/// parent is the hash before it, and the first parent is the zero digest.
pub open spec fn chain_valid(links: Seq<(Seq<u8>, Seq<u8>)>) -> bool {
    forall|i: int|
        0 <= i < links.len() ==> #[trigger] links[i].1 == (if i == 0 {
            zero_digest()
        } else {
            links[i - 1].0
        })
}

/// A chain verifies exactly when it starts at genesis and never breaks: the
/// first entry's parent is the 32 zero bytes, and every later entry's
/// parent is the hash of the entry before it. So a chain whose genesis entry
/// was removed, or that starts from any other parent, does not verify.
pub proof fn law_chain_valid_characterized(links: Seq<(Seq<u8>, Seq<u8>)>)
    ensures
        chain_valid(links) <==> ({
            &&& links.len() > 0 ==> links[0].1 == Seq::new(32, |i: int| 0u8)
            &&& forall|i: int| 1 <= i < links.len() ==> #[trigger] links[i].1 == links[i - 1].0
        }),
{
    assert(zero_digest() =~= Seq::new(32, |i: int| 0u8));
    if links.len() > 0 && links[0].1 == zero_digest() && (forall|i: int|
        1 <= i < links.len() ==> #[trigger] links[i].1 == links[i - 1].0) {
        assert forall|i: int| 0 <= i < links.len() implies #[trigger] links[i].1 == (if i == 0 {
            zero_digest()
        } else {
            links[i - 1].0
        }) by {
            if i > 0 {
                assert(links[i].1 == links[i - 1].0);
            }
        }
    }
    if chain_valid(links) {
        if links.len() > 0 {
            assert(links[0].1 == zero_digest());
        }
        assert forall|i: int| 1 <= i < links.len() implies #[trigger] links[i].1 == links[i - 1].0 by {
            assert(links[i].1 == (if i == 0 {
                zero_digest()
            } else {
                links[i - 1].0
            }));
        }
    }
}

/// The hash a new entry chains to: the last entry hash, or the zero digest.
pub open spec fn chain_tip(links: Seq<(Seq<u8>, Seq<u8>)>) -> Seq<u8> {
    if links.len() == 0 {
        zero_digest()
    } else {
        links.last().0
    }
}

/// A posting that passed the checks, with its journal entry and the entry's
/// hash, waiting to be stored and committed.
pub struct PreparedEntry {
    entry: Entry,
    entry_hash: [u8; 32],
    new_debit_balance: MicroDollar,
    new_credit_balance: MicroDollar,
}

impl PreparedEntry {
    #[verifier::type_invariant]
    closed spec fn hash_matches(self) -> bool {
        self.entry_hash@ == spec_sha256(entry_bytes(self.entry))
    }

    pub closed spec fn spec_entry(self) -> Entry {
        self.entry
    }

    pub closed spec fn spec_entry_hash(self) -> Seq<u8> {
        self.entry_hash@
    }

    pub closed spec fn spec_new_debit_balance(self) -> MicroDollar {
        self.new_debit_balance
    }

    pub closed spec fn spec_new_credit_balance(self) -> MicroDollar {
        self.new_credit_balance
    }

    /// The journal entry to store.
    pub fn entry(&self) -> (e: &Entry)
        ensures
            *e == self.spec_entry(),
    {
        &self.entry
    }

    /// The entry's hash, which becomes the chain head.
    pub fn entry_hash(&self) -> (h: [u8; 32])
        ensures
            h@ == self.spec_entry_hash(),
            h@ == spec_sha256(entry_bytes(self.spec_entry())),
    {
        proof {
            use_type_invariant(self);
        }
        self.entry_hash
    }

    /// The debit account's balance once committed.
    pub fn new_debit_balance(&self) -> (m: MicroDollar)
        ensures
            m == self.spec_new_debit_balance(),
    {
        self.new_debit_balance
    }

    /// The credit account's balance once committed.
    pub fn new_credit_balance(&self) -> (m: MicroDollar)
        ensures
            m == self.spec_new_credit_balance(),
    {
        self.new_credit_balance
    }
}

/// Core double-entry ledger with Merkle-verifiable state
pub struct Ledger {
    balance_tree: BalanceTree,
    next_entry_id: u64,
    chain_head: [u8; 32],
}

/// What a ledger holds: the balance leaves in order, the cached root, the id
/// of the next entry and the hash of the last one.
#[verifier::ext_equal]
pub struct LedgerView {
    pub leaves: Seq<(Seq<char>, i64)>,
    pub root: Option<Seq<u8>>,
    pub next_entry_id: u64,
    pub chain_head: Seq<u8>,
}

impl View for Ledger {
    type V = LedgerView;

    closed spec fn view(&self) -> LedgerView {
        LedgerView {
            leaves: self.balance_tree@.leaves,
            root: self.balance_tree@.root,
            next_entry_id: self.next_entry_id,
            chain_head: self.chain_head@,
        }
    }
}

impl Ledger {
    /// Whether `p` was prepared against this ledger as it stands: it is the
    /// next entry, it chains to the current head, its accounts differ, its
    /// new balances are the current ones moved by its amount, and the entry
    /// counter can still advance.
    pub open spec fn accepts(&self, p: PreparedEntry) -> bool {
        let v = self@;
        let e = p.spec_entry();
        &&& e.entry_id == v.next_entry_id
        &&& v.next_entry_id < u64::MAX
        &&& e.parent_hash@ == v.chain_head
        &&& e.debit_account@ != e.credit_account@
        &&& p.spec_new_debit_balance().0 == balance_or_zero(v.leaves, e.debit_account@)
            + e.amount.0
        &&& p.spec_new_credit_balance().0 == balance_or_zero(v.leaves, e.credit_account@)
            - e.amount.0
    }

    /// An empty ledger: no balances, no root, entry ids from 0, and the zero
    /// digest as chain head.
    pub fn new() -> (l: Ledger)
        ensures
            l@.leaves == Seq::<(Seq<char>, i64)>::empty(),
            l@.root is None,
            l@.next_entry_id == 0,
            l@.chain_head == zero_digest(),
    {
        Ledger { balance_tree: BalanceTree::new(), next_entry_id: 0, chain_head: zero_hash() }
    }

    /// The stored balance of `account`, zero where it has none.
    fn balance_of(&self, account: &AccountId) -> (b: MicroDollar)
        ensures
            b.0 == balance_or_zero(self@.leaves, account@),
    {
        match self.balance_tree.get(account.as_str()) {
            Some(b) => MicroDollar(b),
            None => MicroDollar(0),
        }
    }

    /// Checks a double-entry posting of `amount` that `debit` gains and
    /// `credit` loses, and builds its journal entry and hash.
    pub fn prepare_entry(
        &self,
        debit: AccountId,
        credit: AccountId,
        amount: MicroDollar,
        metadata: Vec<u8>,
        timestamp: i64,
    ) -> (res: Result<PreparedEntry, Rejection>)
        ensures
            match res {
                Ok(p) => {
                    &&& posting_check(self@.leaves, debit@, credit@, amount.0) == Ok::<
                        (i64, i64),
                        Rejection,
                    >((p.spec_new_debit_balance().0, p.spec_new_credit_balance().0))
                    &&& p.spec_entry() == (Entry {
                        entry_id: self@.next_entry_id,
                        debit_account: debit,
                        credit_account: credit,
                        amount,
                        timestamp,
                        metadata,
                        parent_hash: p.spec_entry().parent_hash,
                    })
                    &&& p.spec_entry().parent_hash@ == self@.chain_head
                    &&& p.spec_entry_hash() == spec_sha256(entry_bytes(p.spec_entry()))
                },
                Err(r) => posting_check(self@.leaves, debit@, credit@, amount.0) == Err::<
                    (i64, i64),
                    Rejection,
                >(r),
            },
    {
        if amount.0 <= 0 {
            return Err(Rejection::NonPositiveAmount { amount });
        }
        if debit == credit {
            return Err(Rejection::SameAccount);
        }
        let credit_balance = self.balance_of(&credit);
        let new_credit_balance = match credit_balance.checked_sub(amount) {
            Some(b) => b,
            None => {
                return Err(
                    Rejection::CreditOverflow { balance: credit_balance.0, amount: amount.0 },
                );
            },
        };
        let debit_balance = self.balance_of(&debit);
        let new_debit_balance = match debit_balance.checked_add(amount) {
            Some(b) => b,
            None => {
                return Err(Rejection::DebitOverflow { balance: debit_balance.0, amount: amount.0 });
            },
        };
        let entry = Entry {
            entry_id: self.next_entry_id,
            debit_account: debit,
            credit_account: credit,
            amount,
            timestamp,
            metadata,
            parent_hash: self.chain_head,
        };
        let entry_hash = entry.hash();
        Ok(PreparedEntry { entry, entry_hash, new_debit_balance, new_credit_balance })
    }

    /// Whether `prepared` may be committed to this ledger now.
    pub fn is_current(&self, prepared: &PreparedEntry) -> (ok: bool)
        ensures
            ok == self.accepts(*prepared),
            sorted_accounts(self@.leaves),
    {
        proof {
            use_type_invariant(&self.balance_tree);
        }
        let e = prepared.entry();
        if e.entry_id != self.next_entry_id || self.next_entry_id == u64::MAX {
            return false;
        }
        if !digests_equal(&e.parent_hash, &self.chain_head) {
            return false;
        }
        if e.debit_account == e.credit_account {
            return false;
        }
        let debit_balance = self.balance_of(&e.debit_account);
        let credit_balance = self.balance_of(&e.credit_account);
        let amount = e.amount.0 as i128;
        prepared.new_debit_balance().0 as i128 == debit_balance.0 as i128 + amount
            && prepared.new_credit_balance().0 as i128 == credit_balance.0 as i128 - amount
    }

    /// Applies a stored posting: the debit account gains the amount, the
    /// credit account loses it, the root is recomputed, the entry's hash
    /// becomes the chain head and the entry id advances.
    pub fn commit_entry(&mut self, prepared: &PreparedEntry) -> (result: PostingResult)
        requires
            old(self).accepts(*prepared),
        ensures
            ({
                let e = prepared.spec_entry();
                let leaves = upsert(
                    upsert(
                        old(self)@.leaves,
                        e.debit_account@,
                        prepared.spec_new_debit_balance().0,
                    ),
                    e.credit_account@,
                    prepared.spec_new_credit_balance().0,
                );
                &&& final(self)@.leaves == leaves
                &&& sorted_accounts(old(self)@.leaves)
                &&& sorted_accounts(leaves)
                &&& total_balance(leaves) == total_balance(old(self)@.leaves)
                &&& lookup(leaves, e.debit_account@) == Some(prepared.spec_new_debit_balance().0)
                &&& lookup(leaves, e.credit_account@) == Some(prepared.spec_new_credit_balance().0)
                &&& final(self)@.root == Some(merkle_root(leaf_hashes(leaves)))
                &&& final(self)@.next_entry_id == old(self)@.next_entry_id + 1
                &&& final(self)@.chain_head == prepared.spec_entry_hash()
                &&& result matches PostingResult::Applied { entry_id, new_state_root }
                    && entry_id == old(self)@.next_entry_id && new_state_root@ == merkle_root(
                    leaf_hashes(leaves),
                )
            }),
    {
        proof {
            use_type_invariant(&self.balance_tree);
            let e = prepared.spec_entry();
            law_posting_conserves_total(
                self@.leaves,
                e.debit_account@,
                e.credit_account@,
                e.amount.0,
                prepared.spec_new_debit_balance().0,
                prepared.spec_new_credit_balance().0,
                e.debit_account@,
            );
            law_lookup_upsert(
                upsert(self@.leaves, e.debit_account@, prepared.spec_new_debit_balance().0),
                e.credit_account@,
                prepared.spec_new_credit_balance().0,
                e.debit_account@,
            );
            law_lookup_upsert(
                self@.leaves,
                e.debit_account@,
                prepared.spec_new_debit_balance().0,
                e.debit_account@,
            );
        }
        let e = prepared.entry();
        let entry_id = self.next_entry_id;
        self.balance_tree.update(e.debit_account.as_str(), prepared.new_debit_balance().0);
        self.balance_tree.update(e.credit_account.as_str(), prepared.new_credit_balance().0);
        proof {
            law_lookup_upsert(
                upsert(
                    old(self)@.leaves,
                    e.debit_account@,
                    prepared.spec_new_debit_balance().0,
                ),
                e.credit_account@,
                prepared.spec_new_credit_balance().0,
                e.credit_account@,
            );
            lemma_find_leaf(self@.leaves, e.credit_account@);
        }
        let new_root = self.balance_tree.compute_root();
        self.chain_head = prepared.entry_hash();
        self.next_entry_id = self.next_entry_id + 1;
        PostingResult::Applied { entry_id, new_state_root: new_root }
    }

    /// Posts a double-entry transaction held in memory only: the posting is
    /// checked, and if accepted its entry is hashed onto the chain and the
    /// balances, root and entry id are updated; a rejected posting changes
    /// nothing.
    pub fn post_entry(
        &mut self,
        debit: AccountId,
        credit: AccountId,
        amount: MicroDollar,
        metadata: Vec<u8>,
        timestamp: i64,
    ) -> (result: PostingResult)
        requires
            old(self)@.next_entry_id < u64::MAX,
        ensures
            final(self)@ == post_step(
                old(self)@,
                (PostingRequest {
                    debit: debit@,
                    credit: credit@,
                    amount: amount.0,
                    metadata: metadata@,
                    timestamp,
                }),
            ),
            sorted_accounts(old(self)@.leaves),
            sorted_accounts(final(self)@.leaves),
            total_balance(final(self)@.leaves) == total_balance(old(self)@.leaves),
            match posting_check(old(self)@.leaves, debit@, credit@, amount.0) {
                Err(r) => {
                    &&& result matches PostingResult::Rejected { reason } && reason@
                        == rejection_text(r)
                    &&& final(self)@ == old(self)@
                },
                Ok((new_debit, new_credit)) => {
                    let leaves = upsert(
                        upsert(old(self)@.leaves, debit@, new_debit),
                        credit@,
                        new_credit,
                    );
                    &&& final(self)@.leaves == leaves
                    &&& lookup(leaves, debit@) == Some(new_debit)
                    &&& lookup(leaves, credit@) == Some(new_credit)
                    &&& final(self)@.root == Some(merkle_root(leaf_hashes(leaves)))
                    &&& final(self)@.next_entry_id == old(self)@.next_entry_id + 1
                    &&& final(self)@.chain_head == spec_sha256(
                        entry_message(
                            old(self)@.next_entry_id,
                            debit@,
                            credit@,
                            amount.0,
                            timestamp,
                            metadata@,
                            old(self)@.chain_head,
                        ),
                    )
                    &&& result matches PostingResult::Applied { entry_id, new_state_root }
                        && entry_id == old(self)@.next_entry_id && new_state_root@
                        == merkle_root(leaf_hashes(leaves))
                },
            },
    {
        proof {
            use_type_invariant(&self.balance_tree);
        }
        let ghost debit_view = debit@;
        let ghost credit_view = credit@;
        let ghost metadata_view = metadata@;
        let ghost old_leaves = self@.leaves;
        match self.prepare_entry(debit, credit, amount, metadata, timestamp) {
            Err(r) => PostingResult::Rejected { reason: r.reason() },
            Ok(p) => {
                assert(p.spec_entry().debit_account@ == debit_view);
                assert(p.spec_entry().credit_account@ == credit_view);
                assert(entry_bytes(p.spec_entry()) == entry_message(
                    self@.next_entry_id,
                    debit_view,
                    credit_view,
                    amount.0,
                    timestamp,
                    metadata_view,
                    self@.chain_head,
                ));
                self.commit_entry(&p)
            },
        }
    }

    /// Restores the in-memory state from stored balances and, where entries
    /// exist, the last entry's hash and the next entry id.
    pub fn load_state(&mut self, balances: &Vec<(AccountId, MicroDollar)>, last_entry: Option<([u8; 32], u64)>)
        ensures
            final(self)@.leaves == upsert_all(
                old(self)@.leaves,
                balances@.map_values(|b: (AccountId, MicroDollar)| (b.0@, b.1.0)),
            ),
            final(self)@.leaves.len() > 0 ==> final(self)@.root == Some(
                merkle_root(leaf_hashes(final(self)@.leaves)),
            ),
            final(self)@.leaves.len() == 0 ==> final(self)@.root == old(self)@.root,
            sorted_accounts(final(self)@.leaves),
            match last_entry {
                Some((h, n)) => final(self)@.chain_head == h@ && final(self)@.next_entry_id == n,
                None => final(self)@.chain_head == old(self)@.chain_head
                    && final(self)@.next_entry_id == old(self)@.next_entry_id,
            },
    {
        let ghost rows = balances@.map_values(|b: (AccountId, MicroDollar)| (b.0@, b.1.0));
        let ghost start = self@;
        let mut i: usize = 0;
        while i < balances.len()
            invariant
                i <= balances@.len(),
                rows == balances@.map_values(|b: (AccountId, MicroDollar)| (b.0@, b.1.0)),
                self@.leaves == upsert_all(start.leaves, rows.take(i as int)),
                i == 0 ==> self@.root == start.root,
                i > 0 ==> self@.root is None,
                i > 0 ==> self@.leaves.len() > 0,
                self@.chain_head == start.chain_head,
                self@.next_entry_id == start.next_entry_id,
            decreases balances@.len() - i,
        {
            proof {
                lemma_find_leaf(self@.leaves, balances@[i as int].0@);
            }
            self.balance_tree.update(balances[i].0.as_str(), balances[i].1.0);
            assert(rows.take(i + 1).drop_last() =~= rows.take(i as int));
            i = i + 1;
        }
        assert(rows.take(rows.len() as int) =~= rows);
        let _root = self.balance_tree.compute_root();
        match last_entry {
            Some((h, n)) => {
                self.chain_head = h;
                self.next_entry_id = n;
            },
            None => {},
        }
    }

    /// Generates a cryptographic proof of balance for any account
    pub fn prove_balance(&self, account: &AccountId) -> (proof: Option<BalanceProof>)
        ensures
            sorted_accounts(self@.leaves),
            match (find_leaf(self@.leaves, account@), self@.root) {
                (Some(i), Some(r)) => proof matches Some(p) && p.account@ == account@ && p.balance
                    == self@.leaves[i].1 && p.leaf_index == i && digest_views(p.proof_hashes@)
                    == proof_path(leaf_hashes(self@.leaves), i) && p.root_hash@ == r
                    && proof_holds(
                    p.account@,
                    p.balance,
                    p.leaf_index as int,
                    digest_views(p.proof_hashes@),
                    p.root_hash@,
                ),
                _ => proof is None,
            },
    {
        proof {
            use_type_invariant(&self.balance_tree);
        }
        self.balance_tree.generate_proof(account.as_str())
    }

    /// Verifies the entire entry chain from genesis: `entries` holds each
    /// stored entry with its stored hash, in entry order. The chain holds when
    /// every stored hash is the hash of its entry's fields and every parent is
    /// the hash before it, the first being the zero digest.
    pub fn verify_chain_integrity(entries: &Vec<(Entry, [u8; 32])>) -> (valid: bool)
        ensures
            valid == (chain_valid(stored_links(entries@)) && hashes_match(entries@)),
            valid <==> ({
                &&& entries@.len() > 0 ==> entries@[0].0.parent_hash@ == zero_digest()
                &&& forall|i: int|
                    1 <= i < entries@.len() ==> #[trigger] entries@[i].0.parent_hash@
                        == entries@[i - 1].1@
                &&& forall|i: int|
                    0 <= i < entries@.len() ==> #[trigger] entries@[i].1@ == spec_sha256(
                        entry_bytes(entries@[i].0),
                    )
            }),
    {
        proof {
            law_chain_valid_characterized(stored_links(entries@));
        }
        let ghost links = stored_links(entries@);
        let mut expected_parent = zero_hash();
        let mut i: usize = 0;
        while i < entries.len()
            invariant
                i <= entries@.len(),
                links == stored_links(entries@),
                chain_valid(links.take(i as int)),
                hashes_match(entries@.take(i as int)),
                expected_parent@ == chain_tip(links.take(i as int)),
            decreases entries@.len() - i,
        {
            if !digests_equal(&entries[i].0.parent_hash, &expected_parent) {
                assert(!chain_valid(links)) by {
                    assert(links[i as int].1 != chain_tip(links.take(i as int)));
                }
                return false;
            }
            let recomputed = entries[i].0.hash();
            if !digests_equal(&recomputed, &entries[i].1) {
                assert(!hashes_match(entries@)) by {
                    assert(entries@[i as int].1@ != spec_sha256(entry_bytes(entries@[i as int].0)));
                }
                return false;
            }
            expected_parent = entries[i].1;
            assert(links.take(i + 1).drop_last() =~= links.take(i as int));
            assert forall|j: int| 0 <= j < i + 1 implies #[trigger] entries@.take(i + 1)[j].1@
                == spec_sha256(entry_bytes(entries@.take(i + 1)[j].0)) by {
                if j < i {
                    assert(entries@.take(i + 1)[j] == entries@.take(i as int)[j]);
                }
            }
            i = i + 1;
        }
        assert(links.take(links.len() as int) =~= links);
        assert(entries@.take(entries@.len() as int) =~= entries@);
        assert forall|j: int| 0 <= j < entries@.len() implies links[j].1
            == entries@[j].0.parent_hash@ && links[j].0 == entries@[j].1@ by {}
        assert forall|j: int| 1 <= j < entries@.len() implies #[trigger] entries@[j].0.parent_hash@
            == entries@[j - 1].1@ by {
            assert(links[j].1 == links[j - 1].0);
        }
        assert(entries@.len() > 0 ==> links[0].1 == entries@[0].0.parent_hash@);
        true
    }
}

/// The (stored hash, parent hash) links of stored entries.
pub open spec fn stored_links(entries: Seq<(Entry, [u8; 32])>) -> Seq<(Seq<u8>, Seq<u8>)> {
    entries.map_values(|r: (Entry, [u8; 32])| (r.1@, r.0.parent_hash@))
}

/// Every stored hash is the hash of its entry's fields.
pub open spec fn hashes_match(entries: Seq<(Entry, [u8; 32])>) -> bool {
    forall|i: int|
        0 <= i < entries.len() ==> #[trigger] entries[i].1@ == spec_sha256(entry_bytes(entries[i].0))
}

/// Tampering is detected: where SHA-256 has no collisions, an entry whose
/// fields were edited after its hash was stored no longer matches that
/// hash, so the chain no longer verifies.
pub proof fn law_edited_entry_is_detected(
    entries: Seq<(Entry, [u8; 32])>,
    i: int,
    edited: Entry,
)
    requires
        forall|x: Seq<u8>, y: Seq<u8>| #[trigger] spec_sha256(x) == #[trigger] spec_sha256(y) ==> x == y,
        0 <= i < entries.len(),
        entries[i].1@ == spec_sha256(entry_bytes(entries[i].0)),
        encode_utf8(edited.debit_account@).len() <= u64::MAX,
        encode_utf8(edited.credit_account@).len() <= u64::MAX,
        encode_utf8(entries[i].0.debit_account@).len() <= u64::MAX,
        encode_utf8(entries[i].0.credit_account@).len() <= u64::MAX,
        !({
            let e = entries[i].0;
            &&& edited.entry_id == e.entry_id
            &&& edited.debit_account@ == e.debit_account@
            &&& edited.credit_account@ == e.credit_account@
            &&& edited.amount == e.amount
            &&& edited.timestamp == e.timestamp
            &&& edited.metadata@ == e.metadata@
            &&& edited.parent_hash@ == e.parent_hash@
        }),
    ensures
        !hashes_match(entries.update(i, (edited, entries[i].1))),
{
    let tampered = entries.update(i, (edited, entries[i].1));
    if hashes_match(tampered) {
        assert(tampered[i].1@ == spec_sha256(entry_bytes(tampered[i].0)));
        assert(entry_bytes(edited) == entry_bytes(entries[i].0));
        law_entry_bytes_injective(edited, entries[i].0);
    }
}

/// The balances after recording each of `rows` in turn.
pub open spec fn upsert_all(leaves: Seq<(Seq<char>, i64)>, rows: Seq<(Seq<char>, i64)>) -> Seq<
    (Seq<char>, i64),
>
    decreases rows.len(),
{
    if rows.len() == 0 {
        leaves
    } else {
        let prev = upsert_all(leaves, rows.drop_last());
        upsert(prev, rows.last().0, rows.last().1)
    }
}


/// Writing a balance into sorted leaves changes the total by the
/// difference between the new balance and the one it replaces (zero for a
/// new account).
pub proof fn lemma_total_upsert(leaves: Seq<(Seq<char>, i64)>, account: Seq<char>, balance: i64)
    requires
        sorted_accounts(leaves),
    ensures
        total_balance(upsert(leaves, account, balance)) == total_balance(leaves) - balance_or_zero(
            leaves,
            account,
        ) + balance,
    decreases leaves.len(),
{
    let u = upsert(leaves, account, balance);
    if leaves.len() == 0 {
        assert(u.drop_last() =~= Seq::<(Seq<char>, i64)>::empty());
        assert(total_balance(u.drop_last()) == 0);
        assert(total_balance(u) == balance);
        assert(balance_or_zero(leaves, account) == 0);
    } else {
        lemma_lookup_unfold(leaves, account);
        let dl = leaves.drop_last();
        if leaves.last().0 == account {
            assert(u.drop_last() =~= dl);
            assert(total_balance(u) == total_balance(dl) + balance);
            assert(balance_or_zero(leaves, account) == leaves.last().1);
        } else if bytes_lt(account_key(leaves.last().0), account_key(account)) {
            lemma_sorted_absent(leaves, account);
            assert(u.drop_last() =~= leaves);
            assert(total_balance(u) == total_balance(leaves) + balance);
        } else {
            lemma_sorted_last_unique(leaves);
            lemma_total_upsert(dl, account, balance);
            assert(u.drop_last() =~= upsert(dl, account, balance));
            assert(u.last() == leaves.last());
            assert(total_balance(u) == total_balance(upsert(dl, account, balance)) + leaves.last().1);
            assert(balance_or_zero(dl, account) == balance_or_zero(leaves, account));
        }
        assert(total_balance(leaves) == total_balance(dl) + leaves.last().1);
    }
}

/// Conservation: a committed posting moves the amount from the credit
/// account to the debit account, leaves every other balance as it was, and
/// so keeps the sum of all balances unchanged.
pub proof fn law_posting_conserves_total(
    leaves: Seq<(Seq<char>, i64)>,
    debit: Seq<char>,
    credit: Seq<char>,
    amount: i64,
    new_debit: i64,
    new_credit: i64,
    other: Seq<char>,
)
    requires
        sorted_accounts(leaves),
        debit != credit,
        new_debit == balance_or_zero(leaves, debit) + amount,
        new_credit == balance_or_zero(leaves, credit) - amount,
    ensures
        ({
            let after = upsert(upsert(leaves, debit, new_debit), credit, new_credit);
            &&& total_balance(after) == total_balance(leaves)
            &&& balance_or_zero(after, debit) == balance_or_zero(leaves, debit) + amount
            &&& balance_or_zero(after, credit) == balance_or_zero(leaves, credit) - amount
            &&& other != debit && other != credit ==> lookup(after, other) == lookup(leaves, other)
        }),
{
    let mid = upsert(leaves, debit, new_debit);
    lemma_upsert_sorted(leaves, debit, new_debit);
    lemma_total_upsert(leaves, debit, new_debit);
    lemma_total_upsert(mid, credit, new_credit);
    law_lookup_upsert(leaves, debit, new_debit, credit);
    law_lookup_upsert(leaves, debit, new_debit, debit);
    law_lookup_upsert(leaves, debit, new_debit, other);
    law_lookup_upsert(mid, credit, new_credit, debit);
    law_lookup_upsert(mid, credit, new_credit, credit);
    law_lookup_upsert(mid, credit, new_credit, other);
}

/// A ledger that starts empty holds a zero total; with the law above, every
/// sequence of committed postings keeps the system-wide sum at zero.
pub proof fn law_empty_total_is_zero()
    ensures
        total_balance(Seq::<(Seq<char>, i64)>::empty()) == 0,
{
}

/// Chain integrity: appending an entry whose parent is the current tip keeps
/// a valid hash chain valid, and the entry's hash becomes the new tip. The
/// empty chain is valid and its tip is the zero digest, the head of a new
/// ledger.
pub proof fn law_commit_extends_chain(links: Seq<(Seq<u8>, Seq<u8>)>, entry_hash: Seq<u8>)
    requires
        chain_valid(links),
    ensures
        chain_valid(links.push((entry_hash, chain_tip(links)))),
        chain_tip(links.push((entry_hash, chain_tip(links)))) == entry_hash,
        chain_valid(Seq::<(Seq<u8>, Seq<u8>)>::empty()),
        chain_tip(Seq::<(Seq<u8>, Seq<u8>)>::empty()) == zero_digest(),
{
    let ext = links.push((entry_hash, chain_tip(links)));
    assert forall|i: int| 0 <= i < ext.len() implies #[trigger] ext[i].1 == (if i == 0 {
        zero_digest()
    } else {
        ext[i - 1].0
    }) by {
        if i < links.len() {
            assert(links[i].1 == (if i == 0 {
                zero_digest()
            } else {
                links[i - 1].0
            }));
        }
    }
}

/// The stored chain never breaks: storing a prepared entry, whose parent is
/// the ledger's head and whose hash is the hash of its fields, after a
/// stored chain that verifies and ends at that head gives a stored chain
/// that verifies and ends at the entry's hash, the ledger's next head.
pub proof fn law_storing_prepared_entry_keeps_chain(
    entries: Seq<(Entry, [u8; 32])>,
    entry: Entry,
    entry_hash: [u8; 32],
)
    requires
        chain_valid(stored_links(entries)),
        hashes_match(entries),
        entry.parent_hash@ == chain_tip(stored_links(entries)),
        entry_hash@ == spec_sha256(entry_bytes(entry)),
    ensures
        chain_valid(stored_links(entries.push((entry, entry_hash)))),
        hashes_match(entries.push((entry, entry_hash))),
        chain_tip(stored_links(entries.push((entry, entry_hash)))) == entry_hash@,
{
    let links = stored_links(entries);
    law_commit_extends_chain(links, entry_hash@);
    assert(stored_links(entries.push((entry, entry_hash))) =~= links.push(
        (entry_hash@, chain_tip(links)),
    ));
    let ext = entries.push((entry, entry_hash));
    assert forall|i: int| 0 <= i < ext.len() implies #[trigger] ext[i].1@ == spec_sha256(
        entry_bytes(ext[i].0),
    ) by {
        if i < entries.len() {
            assert(ext[i] == entries[i]);
        }
    }
}

/// A requested posting: `amount` moves from `credit` to `debit`, with the
/// entry's metadata and timestamp.
pub struct PostingRequest {
    pub debit: Seq<char>,
    pub credit: Seq<char>,
    pub amount: i64,
    pub metadata: Seq<u8>,
    pub timestamp: i64,
}

/// The balances after a posting: moved where it is accepted, unchanged where
/// it is rejected.
pub open spec fn apply_posting(leaves: Seq<(Seq<char>, i64)>, p: PostingRequest) -> Seq<
    (Seq<char>, i64),
> {
    match posting_check(leaves, p.debit, p.credit, p.amount) {
        Ok((new_debit, new_credit)) => upsert(
            upsert(leaves, p.debit, new_debit),
            p.credit,
            new_credit,
        ),
        Err(_) => leaves,
    }
}

/// The balances after each posting of `postings` in turn.
pub open spec fn apply_postings(leaves: Seq<(Seq<char>, i64)>, postings: Seq<PostingRequest>) -> Seq<
    (Seq<char>, i64),
>
    decreases postings.len(),
{
    if postings.len() == 0 {
        leaves
    } else {
        apply_posting(apply_postings(leaves, postings.drop_last()), postings.last())
    }
}

/// What a posting does to one account's balance against the balances it is
/// checked on: plus the amount for its debit account, minus for its credit
/// account, nothing where it is rejected.
pub open spec fn posting_effect(leaves: Seq<(Seq<char>, i64)>, p: PostingRequest, account: Seq<char>) -> int {
    if posting_check(leaves, p.debit, p.credit, p.amount) is Ok {
        (if p.debit == account {
            p.amount as int
        } else {
            0int
        }) - (if p.credit == account {
            p.amount as int
        } else {
            0int
        })
    } else {
        0
    }
}

/// The sum debited to `account` minus the sum credited from it, over the
/// accepted postings of `postings`.
pub open spec fn net_flow(leaves: Seq<(Seq<char>, i64)>, postings: Seq<PostingRequest>, account: Seq<char>) -> int
    decreases postings.len(),
{
    if postings.len() == 0 {
        0
    } else {
        net_flow(leaves, postings.drop_last(), account) + posting_effect(
            apply_postings(leaves, postings.drop_last()),
            postings.last(),
            account,
        )
    }
}

/// After any sequence of postings, each account's balance is its starting
/// balance plus the sum debited to it minus the sum credited from it, and
/// the sum of all balances is unchanged; from an empty ledger every balance
/// is debits minus credits and the balances sum to zero.
pub proof fn law_postings_balance(
    leaves: Seq<(Seq<char>, i64)>,
    postings: Seq<PostingRequest>,
    account: Seq<char>,
)
    requires
        sorted_accounts(leaves),
    ensures
        sorted_accounts(apply_postings(leaves, postings)),
        balance_or_zero(apply_postings(leaves, postings), account) == balance_or_zero(leaves, account)
            + net_flow(leaves, postings, account),
        total_balance(apply_postings(leaves, postings)) == total_balance(leaves),
    decreases postings.len(),
{
    if postings.len() > 0 {
        let dl = postings.drop_last();
        let p = postings.last();
        let prev = apply_postings(leaves, dl);
        law_postings_balance(leaves, dl, account);
        match posting_check(prev, p.debit, p.credit, p.amount) {
            Ok((nd, nc)) => {
                law_posting_conserves_total(prev, p.debit, p.credit, p.amount, nd, nc, account);
                lemma_upsert_sorted(prev, p.debit, nd);
                lemma_upsert_sorted(upsert(prev, p.debit, nd), p.credit, nc);
                let after = upsert(upsert(prev, p.debit, nd), p.credit, nc);
                if account != p.debit && account != p.credit {
                    assert(balance_or_zero(after, account) == balance_or_zero(prev, account));
                }
            },
            Err(_) => {},
        }
    }
}

/// The ledger after one posting: where it is accepted, the balances move,
/// the root is recomputed, the entry id advances and the entry's hash becomes
/// the head; where it is rejected, nothing changes.
pub open spec fn post_step(v: LedgerView, r: PostingRequest) -> LedgerView {
    match posting_check(v.leaves, r.debit, r.credit, r.amount) {
        Ok((new_debit, new_credit)) => {
            let leaves = upsert(upsert(v.leaves, r.debit, new_debit), r.credit, new_credit);
            LedgerView {
                leaves,
                root: Some(merkle_root(leaf_hashes(leaves))),
                next_entry_id: (v.next_entry_id + 1) as u64,
                chain_head: spec_sha256(
                    entry_message(
                        v.next_entry_id,
                        r.debit,
                        r.credit,
                        r.amount,
                        r.timestamp,
                        r.metadata,
                        v.chain_head,
                    ),
                ),
            }
        },
        Err(_) => v,
    }
}

/// The ledger after each posting of `requests` in turn.
pub open spec fn post_steps(v: LedgerView, requests: Seq<PostingRequest>) -> LedgerView
    decreases requests.len(),
{
    if requests.len() == 0 {
        v
    } else {
        post_step(post_steps(v, requests.drop_last()), requests.last())
    }
}

/// The entry ids that the accepted postings of `requests` receive, in order.
pub open spec fn applied_ids(v: LedgerView, requests: Seq<PostingRequest>) -> Seq<u64>
    decreases requests.len(),
{
    if requests.len() == 0 {
        Seq::empty()
    } else {
        let prev = post_steps(v, requests.drop_last());
        let r = requests.last();
        applied_ids(v, requests.drop_last()) + if posting_check(
            prev.leaves,
            r.debit,
            r.credit,
            r.amount,
        ) is Ok {
            seq![prev.next_entry_id]
        } else {
            Seq::empty()
        }
    }
}

/// Entry ids run without gaps: over any sequence of postings, the accepted
/// ones receive the ids from the ledger's next id upwards, one each, in
/// order; rejected ones receive none; and the next id afterwards follows the
/// last one given. The balances are those of the postings applied in turn.
pub proof fn law_entry_ids_consecutive(v: LedgerView, requests: Seq<PostingRequest>)
    requires
        v.next_entry_id + requests.len() <= u64::MAX,
    ensures
        applied_ids(v, requests).len() <= requests.len(),
        post_steps(v, requests).next_entry_id == v.next_entry_id + applied_ids(v, requests).len(),
        forall|i: int|
            0 <= i < applied_ids(v, requests).len() ==> #[trigger] applied_ids(v, requests)[i]
                == v.next_entry_id + i,
        post_steps(v, requests).leaves == apply_postings(v.leaves, requests),
    decreases requests.len(),
{
    if requests.len() > 0 {
        let dl = requests.drop_last();
        law_entry_ids_consecutive(v, dl);
        let prev = post_steps(v, dl);
        let prev_ids = applied_ids(v, dl);
        let ids = applied_ids(v, requests);
        assert forall|i: int| 0 <= i < ids.len() implies #[trigger] ids[i] == v.next_entry_id + i by {
            if i < prev_ids.len() {
                assert(ids[i] == prev_ids[i]);
            }
        }
    }
}

/// Rows written in turn leave each account with the balance of its last
/// row, and every other account as it was.
pub proof fn law_upsert_all_lookup(
    leaves: Seq<(Seq<char>, i64)>,
    rows: Seq<(Seq<char>, i64)>,
    account: Seq<char>,
)
    ensures
        lookup(upsert_all(leaves, rows), account) == match lookup(rows, account) {
            Some(b) => Some(b),
            None => lookup(leaves, account),
        },
    decreases rows.len(),
{
    if rows.len() > 0 {
        law_upsert_all_lookup(leaves, rows.drop_last(), account);
        law_lookup_upsert(upsert_all(leaves, rows.drop_last()), rows.last().0, rows.last().1, account);
        lemma_lookup_unfold(rows, account);
    }
}

/// Writing rows into sorted leaves keeps them sorted.
pub proof fn lemma_upsert_all_sorted(leaves: Seq<(Seq<char>, i64)>, rows: Seq<(Seq<char>, i64)>)
    requires
        sorted_accounts(leaves),
    ensures
        sorted_accounts(upsert_all(leaves, rows)),
    decreases rows.len(),
{
    if rows.len() > 0 {
        lemma_upsert_all_sorted(leaves, rows.drop_last());
        lemma_upsert_sorted(upsert_all(leaves, rows.drop_last()), rows.last().0, rows.last().1);
    }
}

/// Reloading restores the balances: rows that give every account of a
/// ledger its balance (its last row for that account) and no other account,
/// written in turn into empty leaves, rebuild exactly that ledger's leaves,
/// whatever their order.
pub proof fn law_reload_rebuilds_leaves(leaves: Seq<(Seq<char>, i64)>, rows: Seq<(Seq<char>, i64)>)
    requires
        sorted_accounts(leaves),
        forall|k: Seq<char>| #[trigger] lookup(rows, k) == lookup(leaves, k),
    ensures
        upsert_all(Seq::empty(), rows) == leaves,
{
    let empty = Seq::<(Seq<char>, i64)>::empty();
    assert(sorted_accounts(empty));
    lemma_upsert_all_sorted(empty, rows);
    assert forall|k: Seq<char>| #[trigger] lookup(upsert_all(empty, rows), k) == lookup(leaves, k) by {
        law_upsert_all_lookup(empty, rows, k);
        assert(lookup(rows, k) == lookup(leaves, k));
    }
    law_sorted_leaves_determined(upsert_all(empty, rows), leaves);
}

/// The sum of the amounts of `requests` that debit `account`.
pub open spec fn debited(requests: Seq<PostingRequest>, account: Seq<char>) -> int
    decreases requests.len(),
{
    if requests.len() == 0 {
        0
    } else {
        debited(requests.drop_last(), account) + if requests.last().debit == account {
            requests.last().amount as int
        } else {
            0
        }
    }
}

/// The sum of the amounts of `requests` that credit `account`.
pub open spec fn credited(requests: Seq<PostingRequest>, account: Seq<char>) -> int
    decreases requests.len(),
{
    if requests.len() == 0 {
        0
    } else {
        credited(requests.drop_last(), account) + if requests.last().credit == account {
            requests.last().amount as int
        } else {
            0
        }
    }
}

/// Every request moves between two different accounts an amount from 1 to
/// `bound`.
pub open spec fn requests_bounded(requests: Seq<PostingRequest>, bound: int) -> bool {
    forall|i: int|
        0 <= i < requests.len() ==> 1 <= #[trigger] requests[i].amount <= bound
            && requests[i].debit != requests[i].credit
}

proof fn lemma_flows_bounded(requests: Seq<PostingRequest>, bound: int, account: Seq<char>)
    requires
        requests_bounded(requests, bound),
    ensures
        0 <= debited(requests, account) <= requests.len() * bound,
        0 <= credited(requests, account) <= requests.len() * bound,
    decreases requests.len(),
{
    if requests.len() > 0 {
        let dl = requests.drop_last();
        assert(requests_bounded(dl, bound)) by {
            assert forall|i: int| 0 <= i < dl.len() implies 1 <= #[trigger] dl[i].amount <= bound
                && dl[i].debit != dl[i].credit by {
                assert(dl[i] == requests[i]);
            }
        }
        lemma_flows_bounded(dl, bound, account);
        let n = requests.len() as int;
        assert(requests[n - 1].amount <= bound);
        assert((n - 1) * bound + bound == n * bound) by (nonlinear_arith);
    }
}

/// Postings that move between two different accounts amounts from 1 to a
/// bound, fewer of them than `i64::MAX` divided by that bound, are all
/// accepted by a new ledger; afterwards each account's balance is the sum
/// debited to it minus the sum credited from it, and the balances sum to
/// zero.
pub proof fn law_bounded_postings_accepted(requests: Seq<PostingRequest>, bound: int, account: Seq<char>)
    requires
        requests_bounded(requests, bound),
        requests.len() * bound <= i64::MAX,
    ensures
        forall|k: int|
            0 <= k < requests.len() ==> (#[trigger] posting_check(
                apply_postings(Seq::empty(), requests.take(k)),
                requests[k].debit,
                requests[k].credit,
                requests[k].amount,
            )) is Ok,
        balance_or_zero(apply_postings(Seq::empty(), requests), account) == debited(
            requests,
            account,
        ) - credited(requests, account),
        total_balance(apply_postings(Seq::empty(), requests)) == 0,
    decreases requests.len(),
{
    let empty = Seq::<(Seq<char>, i64)>::empty();
    assert(sorted_accounts(empty));
    law_postings_balance(empty, requests, account);
    if requests.len() > 0 {
        let n = requests.len() as int;
        let dl = requests.drop_last();
        let r = requests.last();
        assert(requests_bounded(dl, bound)) by {
            assert forall|i: int| 0 <= i < dl.len() implies 1 <= #[trigger] dl[i].amount <= bound
                && dl[i].debit != dl[i].credit by {
                assert(dl[i] == requests[i]);
            }
        }
        assert(r == requests[n - 1]);
        assert(bound >= 1);
        assert((n - 1) * bound <= n * bound) by (nonlinear_arith)
            requires
                bound >= 1,
                n >= 1,
        ;
        assert((n - 1) * bound + bound == n * bound) by (nonlinear_arith);
        law_bounded_postings_accepted(dl, bound, account);
        law_bounded_postings_accepted(dl, bound, r.debit);
        law_bounded_postings_accepted(dl, bound, r.credit);
        lemma_flows_bounded(dl, bound, r.debit);
        lemma_flows_bounded(dl, bound, r.credit);
        lemma_flows_bounded(dl, bound, account);
        let prev = apply_postings(empty, dl);
        assert(requests.take(n - 1) =~= dl);
        assert((posting_check(prev, r.debit, r.credit, r.amount)) is Ok);
        assert forall|k: int| 0 <= k < requests.len() implies (#[trigger] posting_check(
            apply_postings(Seq::empty(), requests.take(k)),
            requests[k].debit,
            requests[k].credit,
            requests[k].amount,
        )) is Ok by {
            if k < n - 1 {
                assert(dl.take(k) =~= requests.take(k));
                assert(dl[k] == requests[k]);
            }
        }
        law_postings_balance(empty, dl, account);
        match posting_check(prev, r.debit, r.credit, r.amount) {
            Ok((nd, nc)) => {
                law_posting_conserves_total(prev, r.debit, r.credit, r.amount, nd, nc, account);
            },
            Err(_) => {},
        }
    }
}

} // verus!
