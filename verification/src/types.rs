//! Amounts in micro-dollars, account identifiers and journal entries.

use crate::hashing::{
    append_bytes, i64_le_bytes, i64_to_le_bytes, lemma_le_bytes_injective, lemma_utf8_injective,
    sha256, spec_sha256, u64_le_bytes, u64_to_le_bytes,
};
use crate::text::{nat_decimal, push_u64_decimal};
use vstd::prelude::*;
use vstd::utf8::encode_utf8;

verus! {

/// Micro-dollar precision: $1.00 = 10_000_000 μ$.
/// Allows for 7 decimal places of precision without floating point.
#[derive(Debug, Clone, Copy, PartialEq, Eq, Structural, PartialOrd, Ord)]
pub struct MicroDollar(pub i64);

/// Micro-dollars in one dollar.
pub const MICROS_PER_DOLLAR: i64 = 10_000_000;

impl MicroDollar {
    /// No money at all.
    pub fn zero() -> (m: MicroDollar)
        ensures
            m.0 == 0,
    {
        MicroDollar(0)
    }

    /// `dollars` whole dollars plus `micros` micro-dollars.
    pub fn from_dollars_cents(dollars: i64, micros: i64) -> (m: MicroDollar)
        requires
            i64::MIN <= dollars * MICROS_PER_DOLLAR <= i64::MAX,
            i64::MIN <= dollars * MICROS_PER_DOLLAR + micros <= i64::MAX,
        ensures
            m.0 == dollars * MICROS_PER_DOLLAR + micros,
    {
        MicroDollar(dollars * MICROS_PER_DOLLAR + micros)
    }

    /// The sum, or `None` where it leaves the range of `i64`.
    pub fn checked_add(self, other: MicroDollar) -> (r: Option<MicroDollar>)
        ensures
            r == (if i64::MIN <= self.0 + other.0 <= i64::MAX {
                Some(MicroDollar((self.0 + other.0) as i64))
            } else {
                None::<MicroDollar>
            }),
    {
        match self.0.checked_add(other.0) {
            Some(v) => Some(MicroDollar(v)),
            None => None,
        }
    }

    /// The difference, or `None` where it leaves the range of `i64`.
    pub fn checked_sub(self, other: MicroDollar) -> (r: Option<MicroDollar>)
        ensures
            r == (if i64::MIN <= self.0 - other.0 <= i64::MAX {
                Some(MicroDollar((self.0 - other.0) as i64))
            } else {
                None::<MicroDollar>
            }),
    {
        match self.0.checked_sub(other.0) {
            Some(v) => Some(MicroDollar(v)),
            None => None,
        }
    }
}

/// Subtracting what was added gives back the starting amount.
pub proof fn law_checked_sub_undoes_checked_add(a: MicroDollar, b: MicroDollar)
    requires
        i64::MIN <= a.0 + b.0 <= i64::MAX,
    ensures
        i64::MIN <= ((a.0 + b.0) as i64) - b.0 <= i64::MAX,
        MicroDollar(((a.0 + b.0) as i64 - b.0) as i64) == a,
{
}

/// What `char::is_alphanumeric` answers for a character: a function of the
/// character alone (Unicode's Alphabetic or Numeric property).
pub uninterp spec fn spec_is_alphanumeric(c: char) -> bool;

/// Calls `char::is_alphanumeric`.
/// Trusted: the answer is the one named `spec_is_alphanumeric(c)`; which
/// characters have the property is left unsaid.
#[verifier::external_body]
fn char_is_alphanumeric(c: char) -> (b: bool)
    ensures
        b == spec_is_alphanumeric(c),
{
    c.is_alphanumeric()
}

/// What `str::to_uppercase` returns for a string: a function of its
/// characters alone.
pub uninterp spec fn spec_to_uppercase(s: Seq<char>) -> Seq<char>;

/// Calls `str::to_uppercase`.
/// Trusted: the result's characters are the ones named
/// `spec_to_uppercase(s@)`; the Unicode case mapping itself is left unsaid.
#[verifier::external_body]
fn str_to_uppercase(s: &str) -> (up: String)
    ensures
        up@ == spec_to_uppercase(s@),
{
    s.to_uppercase()
}

/// Why a string is not an account identifier.
#[derive(Debug, Clone, Copy, PartialEq, Eq, Structural)]
pub enum AccountIdError {
    /// The identifier's UTF-8 encoding is shorter than 5 or longer than 34 bytes.
    InvalidLength { len: usize },
    /// A character is neither alphanumeric nor `-`.
    InvalidCharacters,
}

/// The message that explains why an identifier was refused.
pub open spec fn account_id_error_text(e: AccountIdError) -> Seq<char> {
    match e {
        AccountIdError::InvalidLength { len } => "AccountId must be 5-34 characters, got "@
            + nat_decimal(len as nat),
        AccountIdError::InvalidCharacters => "AccountId contains invalid characters"@,
    }
}

impl AccountIdError {
    /// The message that explains this refusal.
    pub fn message(&self) -> (text: String)
        ensures
            text@ == account_id_error_text(*self),
    {
        let mut s = String::new();
        match *self {
            AccountIdError::InvalidLength { len } => {
                proof {
                    reveal_strlit("AccountId must be 5-34 characters, got ");
                }
                s.append("AccountId must be 5-34 characters, got ");
                push_u64_decimal(&mut s, len as u64);
            },
            AccountIdError::InvalidCharacters => {
                proof {
                    reveal_strlit("AccountId contains invalid characters");
                }
                s.append("AccountId contains invalid characters");
            },
        }
        s
    }
}

/// Shortest accepted identifier, in bytes.
pub const ACCOUNT_ID_MIN_LEN: usize = 5;
/// Longest accepted identifier, in bytes.
pub const ACCOUNT_ID_MAX_LEN: usize = 34;

/// A character that may stand in an account identifier.
pub open spec fn account_char_ok(c: char) -> bool {
    spec_is_alphanumeric(c) || c == '-'
}

/// The characters of an identifier, if `id` is accepted, or why not; the
/// length is that of the UTF-8 encoding, as `str::len` gives it.
pub open spec fn spec_account_id(id: Seq<char>) -> Result<Seq<char>, AccountIdError> {
    let n = encode_utf8(id).len() as usize;
    if n < ACCOUNT_ID_MIN_LEN || n > ACCOUNT_ID_MAX_LEN {
        Err(AccountIdError::InvalidLength { len: n })
    } else if !(forall|i: int| 0 <= i < id.len() ==> account_char_ok(#[trigger] id[i])) {
        Err(AccountIdError::InvalidCharacters)
    } else {
        Ok(spec_to_uppercase(id))
    }
}

/// What identifiers are accepted, stated from the characters up: an
/// identifier is accepted exactly when its UTF-8 encoding is 5 to 34 bytes
/// long and every one of its characters, the last included, is alphanumeric
/// or `-`; an accepted identifier is always stored upper-cased; one of
/// accepted length with any other character is refused for its characters;
/// and one of any other length is refused for its length, which it reports.
pub proof fn law_account_id_accepts_exactly(id: Seq<char>)
    ensures
        spec_account_id(id) is Ok <==> (ACCOUNT_ID_MIN_LEN <= (encode_utf8(id).len() as usize)
            <= ACCOUNT_ID_MAX_LEN && forall|i: int|
            0 <= i < id.len() ==> spec_is_alphanumeric(#[trigger] id[i]) || id[i] == '-'),
        spec_account_id(id) is Ok ==> spec_account_id(id) == Ok::<Seq<char>, AccountIdError>(
            spec_to_uppercase(id),
        ),
        (ACCOUNT_ID_MIN_LEN <= (encode_utf8(id).len() as usize) <= ACCOUNT_ID_MAX_LEN && exists|
            i: int,
        |
            0 <= i < id.len() && !(spec_is_alphanumeric(#[trigger] id[i]) || id[i] == '-'))
            ==> spec_account_id(id) == Err::<Seq<char>, AccountIdError>(
            AccountIdError::InvalidCharacters,
        ),
        !(ACCOUNT_ID_MIN_LEN <= (encode_utf8(id).len() as usize) <= ACCOUNT_ID_MAX_LEN)
            ==> spec_account_id(id) == Err::<Seq<char>, AccountIdError>(
            AccountIdError::InvalidLength { len: encode_utf8(id).len() as usize },
        ),
{
    if exists|i: int| 0 <= i < id.len() && !(spec_is_alphanumeric(#[trigger] id[i]) || id[i] == '-') {
        let i = choose|i: int| 0 <= i < id.len() && !(spec_is_alphanumeric(#[trigger] id[i]) || id[i] == '-');
        assert(!account_char_ok(id[i]));
    }
}

/// Universal account identifier (IBAN-inspired): 5 to 34 bytes of
/// alphanumerics and dashes, stored upper-cased.
#[derive(Debug, Clone, Hash)]
pub struct AccountId(String);

impl View for AccountId {
    type V = Seq<char>;

    closed spec fn view(&self) -> Seq<char> {
        self.0@
    }
}

impl PartialEq for AccountId {
    fn eq(&self, other: &Self) -> (r: bool) {
        self.0 == other.0
    }
}

impl vstd::std_specs::cmp::PartialEqSpecImpl for AccountId {
    open spec fn obeys_eq_spec() -> bool {
        true
    }

    open spec fn eq_spec(&self, other: &Self) -> bool {
        self@ == other@
    }
}

impl Eq for AccountId {
}

impl AccountId {
    /// Checks `id` and stores it upper-cased.
    pub fn new(id: &str) -> (res: Result<AccountId, AccountIdError>)
        ensures
            match res {
                Ok(a) => spec_account_id(id@) == Ok::<Seq<char>, AccountIdError>(a@),
                Err(e) => spec_account_id(id@) == Err::<Seq<char>, AccountIdError>(e),
            },
            res is Ok <==> (ACCOUNT_ID_MIN_LEN <= id.len() <= ACCOUNT_ID_MAX_LEN && forall|i: int|
                0 <= i < id@.len() ==> spec_is_alphanumeric(#[trigger] id@[i]) || id@[i] == '-'),
            res matches Ok(a) ==> a@ == spec_to_uppercase(id@),
            res matches Err(AccountIdError::InvalidCharacters) <==> (ACCOUNT_ID_MIN_LEN <= id.len()
                <= ACCOUNT_ID_MAX_LEN && exists|i: int|
                0 <= i < id@.len() && !(spec_is_alphanumeric(#[trigger] id@[i]) || id@[i] == '-')),
            res matches Err(AccountIdError::InvalidLength { len }) ==> len == id.len() && !(
            ACCOUNT_ID_MIN_LEN <= len <= ACCOUNT_ID_MAX_LEN),
    {
        proof {
            law_account_id_accepts_exactly(id@);
        }
        let len = id.len();
        if len < ACCOUNT_ID_MIN_LEN || len > ACCOUNT_ID_MAX_LEN {
            return Err(AccountIdError::InvalidLength { len });
        }
        let mut all_ok = true;
        for c in it: id.chars()
            invariant
                it.seq() == id@,
                all_ok == (forall|j: int| 0 <= j < it.index() ==> account_char_ok(#[trigger] id@[j])),
        {
            let ok = char_is_alphanumeric(c) || c == '-';
            all_ok = all_ok && ok;
        }
        if !all_ok {
            return Err(AccountIdError::InvalidCharacters);
        }
        Ok(AccountId(str_to_uppercase(id)))
    }

    /// The identifier's characters, as `Display` prints them.
    pub fn as_str(&self) -> (s: &str)
        ensures
            s@ == self@,
    {
        self.0.as_str()
    }

    /// The identifier's UTF-8 bytes.
    pub fn as_bytes(&self) -> (b: &[u8])
        ensures
            b@ == encode_utf8(self@),
    {
        self.0.as_str().as_bytes()
    }
}

/// A single journal entry following double-entry principles
#[derive(Debug, Clone)]
pub struct Entry {
    pub entry_id: u64,
    pub debit_account: AccountId,
    pub credit_account: AccountId,
    pub amount: MicroDollar,
    /// Unix nanoseconds.
    pub timestamp: i64,
    /// Opaque reference data.
    pub metadata: Vec<u8>,
    /// Chain to previous entry.
    pub parent_hash: [u8; 32],
}

/// The bytes an entry's hash is taken over, in this order: the id, each
/// account identifier preceded by its byte length, the amount, the
/// timestamp, the metadata and the parent hash. Every integer is
/// little-endian; the length prefixes keep the two identifiers apart.
pub open spec fn entry_bytes(e: Entry) -> Seq<u8> {
    entry_message(
        e.entry_id,
        e.debit_account@,
        e.credit_account@,
        e.amount.0,
        e.timestamp,
        e.metadata@,
        e.parent_hash@,
    )
}

/// An identifier's bytes preceded by their count.
pub open spec fn framed(account: Seq<char>) -> Seq<u8> {
    u64_le_bytes(encode_utf8(account).len() as u64) + encode_utf8(account)
}

/// The bytes of an entry given by its parts.
pub open spec fn entry_message(
    entry_id: u64,
    debit: Seq<char>,
    credit: Seq<char>,
    amount: i64,
    timestamp: i64,
    metadata: Seq<u8>,
    parent_hash: Seq<u8>,
) -> Seq<u8> {
    u64_le_bytes(entry_id) + framed(debit) + framed(credit) + i64_le_bytes(amount)
        + i64_le_bytes(timestamp) + metadata + parent_hash
}

proof fn lemma_framed_prefix(a: Seq<char>, rest_a: Seq<u8>, b: Seq<char>, rest_b: Seq<u8>)
    requires
        encode_utf8(a).len() <= u64::MAX,
        encode_utf8(b).len() <= u64::MAX,
        framed(a) + rest_a == framed(b) + rest_b,
    ensures
        a == b,
        rest_a == rest_b,
{
    vstd::bytes::lemma_auto_spec_u64_to_from_le_bytes();
    let ea = encode_utf8(a);
    let eb = encode_utf8(b);
    let x = framed(a) + rest_a;
    let y = framed(b) + rest_b;
    assert(x.subrange(0, 8) =~= u64_le_bytes(ea.len() as u64));
    assert(y.subrange(0, 8) =~= u64_le_bytes(eb.len() as u64));
    assert(ea.len() == eb.len());
    assert(x.subrange(8, 8 + ea.len() as int) =~= ea);
    assert(y.subrange(8, 8 + eb.len() as int) =~= eb);
    lemma_utf8_injective(a, b);
    assert(x.skip(8 + ea.len() as int) =~= rest_a);
    assert(y.skip(8 + eb.len() as int) =~= rest_b);
}

/// Entries that differ in any field have different bytes, so they hash to
/// the same digest only through a collision of SHA-256.
#[verifier::spinoff_prover]
#[verifier::rlimit(40)]
pub proof fn law_entry_bytes_injective(e1: Entry, e2: Entry)
    requires
        entry_bytes(e1) == entry_bytes(e2),
        encode_utf8(e1.debit_account@).len() <= u64::MAX,
        encode_utf8(e1.credit_account@).len() <= u64::MAX,
        encode_utf8(e2.debit_account@).len() <= u64::MAX,
        encode_utf8(e2.credit_account@).len() <= u64::MAX,
    ensures
        e1.entry_id == e2.entry_id,
        e1.debit_account@ == e2.debit_account@,
        e1.credit_account@ == e2.credit_account@,
        e1.amount == e2.amount,
        e1.timestamp == e2.timestamp,
        e1.metadata@ == e2.metadata@,
        e1.parent_hash@ == e2.parent_hash@,
{
    vstd::bytes::lemma_auto_spec_u64_to_from_le_bytes();
    lemma_le_bytes_injective(e1.amount.0, e2.amount.0);
    lemma_le_bytes_injective(e1.timestamp, e2.timestamp);
    let tail1 = framed(e1.credit_account@) + i64_le_bytes(e1.amount.0) + i64_le_bytes(e1.timestamp)
        + e1.metadata@ + e1.parent_hash@;
    let tail2 = framed(e2.credit_account@) + i64_le_bytes(e2.amount.0) + i64_le_bytes(e2.timestamp)
        + e2.metadata@ + e2.parent_hash@;
    let b1 = entry_bytes(e1);
    let b2 = entry_bytes(e2);
    assert(b1 =~= u64_le_bytes(e1.entry_id) + (framed(e1.debit_account@) + tail1));
    assert(b2 =~= u64_le_bytes(e2.entry_id) + (framed(e2.debit_account@) + tail2));
    assert(b1.subrange(0, 8) =~= u64_le_bytes(e1.entry_id));
    assert(b2.subrange(0, 8) =~= u64_le_bytes(e2.entry_id));
    assert(b1.skip(8) =~= framed(e1.debit_account@) + tail1);
    assert(b2.skip(8) =~= framed(e2.debit_account@) + tail2);
    lemma_framed_prefix(e1.debit_account@, tail1, e2.debit_account@, tail2);
    let rest1 = i64_le_bytes(e1.amount.0) + i64_le_bytes(e1.timestamp) + e1.metadata@ + e1.parent_hash@;
    let rest2 = i64_le_bytes(e2.amount.0) + i64_le_bytes(e2.timestamp) + e2.metadata@ + e2.parent_hash@;
    assert(tail1 =~= framed(e1.credit_account@) + rest1);
    assert(tail2 =~= framed(e2.credit_account@) + rest2);
    lemma_framed_prefix(e1.credit_account@, rest1, e2.credit_account@, rest2);
    assert(rest1.subrange(0, 8) =~= i64_le_bytes(e1.amount.0));
    assert(rest2.subrange(0, 8) =~= i64_le_bytes(e2.amount.0));
    assert(rest1.subrange(8, 16) =~= i64_le_bytes(e1.timestamp));
    assert(rest2.subrange(8, 16) =~= i64_le_bytes(e2.timestamp));
    assert(e1.parent_hash@.len() == 32);
    assert(e2.parent_hash@.len() == 32);
    assert(rest1.subrange(16, rest1.len() - 32) =~= e1.metadata@);
    assert(rest2.subrange(16, rest2.len() - 32) =~= e2.metadata@);
    assert(rest1.skip(rest1.len() - 32) =~= e1.parent_hash@);
    assert(rest2.skip(rest2.len() - 32) =~= e2.parent_hash@);
}

/// Appends the byte count of `bytes`, then the bytes.
fn append_framed(dst: &mut Vec<u8>, bytes: &[u8])
    ensures
        final(dst)@ == old(dst)@ + u64_le_bytes(bytes@.len() as u64) + bytes@,
{
    let len_bytes = u64_to_le_bytes(bytes.len() as u64);
    append_bytes(dst, len_bytes.as_slice());
    append_bytes(dst, bytes);
}

impl Entry {
    /// Computes the cryptographic hash of this entry
    pub fn hash(&self) -> (h: [u8; 32])
        ensures
            h@ == spec_sha256(entry_bytes(*self)),
    {
        let mut msg: Vec<u8> = Vec::new();
        let id_bytes = u64_to_le_bytes(self.entry_id);
        append_bytes(&mut msg, id_bytes.as_slice());
        append_framed(&mut msg, self.debit_account.as_bytes());
        append_framed(&mut msg, self.credit_account.as_bytes());
        let amount_bytes = i64_to_le_bytes(self.amount.0);
        append_bytes(&mut msg, amount_bytes.as_slice());
        let time_bytes = i64_to_le_bytes(self.timestamp);
        append_bytes(&mut msg, time_bytes.as_slice());
        append_bytes(&mut msg, self.metadata.as_slice());
        append_bytes(&mut msg, self.parent_hash.as_slice());
        assert(msg@ =~= entry_bytes(*self));
        sha256(msg.as_slice())
    }
}

} // verus!
