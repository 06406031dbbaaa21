//! Note screening: for a note, which tracked accounts can consume it, and from when.
//!
//! The speculative consume transaction of each account runs outside this
//! module; its outcome comes in as a [`ConsumptionCheck`] and the rules below
//! decide what it means for the note.
use vstd::prelude::*;

use miden_lib::note::well_known_note::WellKnownNote;

use crate::digest::Digest;

verus! {

/// Identifier of an account: the two field elements it is made of.
#[derive(Clone, Copy, Debug, PartialEq, Eq, Hash, Structural)]
pub struct AccountId {
    pub prefix: u64,
    pub suffix: u64,
}

/// Identifier of a note.
#[derive(Clone, Copy, Debug, PartialEq, Eq, Hash, Structural)]
pub struct NoteId {
    pub digest: Digest,
}

/// The parts of a note that screening reads.
#[derive(Clone, Debug)]
pub struct Note {
    pub id: NoteId,
    /// Root of the note's script.
    pub script_root: Digest,
    /// The note's inputs, as canonical field-element values.
    pub inputs: Vec<u64>,
    /// The account that created the note.
    pub sender: AccountId,
    /// The routing tag of the note.
    pub tag: u32,
}

/// When a note can be consumed by an account.
#[derive(Clone, Copy, Debug, PartialEq, Eq, PartialOrd, Ord, Hash, Structural)]
pub enum NoteRelevance {
    /// In the client's current block.
    Now,
    /// Once the client's view reaches the given block.
    After(u32),
}

/// An account that may consume a note, and from when.
pub type NoteConsumability = (AccountId, NoteRelevance);

/// The character of decimal digit `d`.
pub open spec fn digit_char(d: nat) -> char {
    seq!['0', '1', '2', '3', '4', '5', '6', '7', '8', '9'][(d % 10) as int]
}

/// Decimal digits of `n`, most significant first, without leading zeros.
pub open spec fn decimal(n: nat) -> Seq<char>
    decreases n,
{
    if n < 10 {
        seq![digit_char(n)]
    } else {
        decimal(n / 10).push(digit_char(n % 10))
    }
}

/// The one-character text of decimal digit `d`.
fn digit_str(d: u32) -> (r: &'static str)
    requires
        d < 10,
    ensures
        r@ == seq![digit_char(d as nat)],
{
    proof {
        reveal_strlit("0");
        reveal_strlit("1");
        reveal_strlit("2");
        reveal_strlit("3");
        reveal_strlit("4");
        reveal_strlit("5");
        reveal_strlit("6");
        reveal_strlit("7");
        reveal_strlit("8");
        reveal_strlit("9");
    }
    match d {
        0 => "0",
        1 => "1",
        2 => "2",
        3 => "3",
        4 => "4",
        5 => "5",
        6 => "6",
        7 => "7",
        8 => "8",
        _ => "9",
    }
}

/// The decimal digits of `n`, most significant first, without leading zeros.
fn decimal_string(n: u32) -> (r: String)
    ensures
        r@ == decimal(n as nat),
{
    let mut digits: Vec<u32> = Vec::new();
    let mut m: u32 = n;
    let ghost mut acc: Seq<char> = seq![];
    while m >= 10
        invariant
            decimal(n as nat) == decimal(m as nat) + acc,
            acc.len() == digits@.len(),
            forall|i: int|
                0 <= i < digits@.len() ==> #[trigger] digits@[i] < 10 && acc[acc.len() - 1 - i]
                    == digit_char(digits@[i] as nat),
        decreases m,
    {
        let ghost old_acc = acc;
        proof {
            acc = seq![digit_char((m % 10) as nat)] + acc;
            assert(decimal(m as nat) == decimal((m / 10) as nat).push(digit_char((m % 10) as nat)));
            assert(decimal((m / 10) as nat) + acc =~= decimal((m / 10) as nat).push(
                digit_char((m % 10) as nat),
            ) + old_acc);
        }
        digits.push(m % 10);
        m = m / 10;
        assert forall|i: int| 0 <= i < digits@.len() implies #[trigger] digits@[i] < 10
            && acc[acc.len() - 1 - i] == digit_char(digits@[i] as nat) by {
            if i < digits@.len() - 1 {
                assert(acc[acc.len() - 1 - i] == old_acc[old_acc.len() - 1 - i]);
            }
        }
    }
    proof {
        let old_acc = acc;
        acc = seq![digit_char(m as nat)] + acc;
        assert(decimal(n as nat) =~= acc);
        assert forall|i: int| 0 <= i < digits@.len() implies acc[acc.len() - 1 - i] == digit_char(
            digits@[i] as nat,
        ) by {
            assert(acc[acc.len() - 1 - i] == old_acc[old_acc.len() - 1 - i]);
        }
    }
    digits.push(m);
    let mut text = String::new();
    let mut k: usize = digits.len();
    while k > 0
        invariant
            k <= digits@.len(),
            acc.len() == digits@.len(),
            forall|i: int|
                0 <= i < digits@.len() ==> #[trigger] digits@[i] < 10 && acc[acc.len() - 1 - i]
                    == digit_char(digits@[i] as nat),
            text@ == acc.subrange(0, digits@.len() - k),
        decreases k,
    {
        k = k - 1;
        let d = digit_str(digits[k]);
        text.append(d);
        assert(text@ =~= acc.subrange(0, digits@.len() - k));
    }
    assert(text@ =~= acc);
    text
}

/// The human-readable form of a relevance.
pub open spec fn relevance_text(r: NoteRelevance) -> Seq<char> {
    match r {
        NoteRelevance::Now => "Now"@,
        NoteRelevance::After(height) => "After block "@ + decimal(height as nat),
    }
}

impl NoteRelevance {
    /// Renders the relevance as "Now" or "After block N".
    pub fn to_display_string(&self) -> (r: String)
        ensures
            r@ == relevance_text(*self),
    {
        match self {
            NoteRelevance::Now => String::from_str("Now"),
            NoteRelevance::After(height) => {
                let digits = decimal_string(*height);
                String::from_str("After block ").concat(digits.as_str())
            },
        }
    }
}

/// Outcome of the speculative transaction that consumes a note for one account.
#[derive(Clone, Copy, Debug, PartialEq, Eq, Structural)]
pub enum ConsumptionCheck {
    /// The transaction ran to its end.
    Consumable,
    /// The execution found that the note cannot be consumed now.
    NotConsumable,
    /// Building or running the transaction failed.
    Failed,
}

/// A tracked account as seen by screening: `check` is `None` when the store
/// holds no record of the account.
#[derive(Clone, Copy, Debug, PartialEq, Eq, Structural)]
pub struct AccountCheck {
    pub account_id: AccountId,
    pub check: Option<ConsumptionCheck>,
}

/// A note whose inputs do not have the shape its script requires.
#[derive(Clone, Debug, PartialEq, Eq)]
pub enum InvalidNoteInputsError {
    AccountError(NoteId, String),
    AssetError(NoteId, String),
    /// The note does not carry the given number of inputs.
    WrongNumInputs(NoteId, usize),
    /// An input meant as a block number does not fit 32 bits.
    BlockNumberError(NoteId, u64),
}

/// Error while screening a note.
#[derive(Clone, Debug, PartialEq, Eq)]
pub enum NoteScreenerError {
    InvalidNoteInputsError(InvalidNoteInputsError),
    AccountDataNotFound(AccountId),
    StoreError(String),
    TransactionExecutionError(String),
    TransactionRequestError(String),
}

/// Number of inputs of a pay-to-id note with a recall height.
pub const RECALLABLE_NUM_INPUTS: usize = 4;

/// Position of the recall height among those inputs.
pub const RECALL_HEIGHT_INPUT: usize = 2;

/// What the recall rule says of `note` for `account_id`: the note must carry
/// four inputs, the third a 32-bit block height; its sender may recall it
/// after that block, and any other account gets nothing from this rule.
pub open spec fn recall_relevance(note: Note, account_id: AccountId) -> Result<
    Option<NoteRelevance>,
    NoteScreenerError,
> {
    let inputs = note.inputs@;
    if inputs.len() != RECALLABLE_NUM_INPUTS {
        Err(
            NoteScreenerError::InvalidNoteInputsError(
                InvalidNoteInputsError::WrongNumInputs(note.id, RECALLABLE_NUM_INPUTS),
            ),
        )
    } else if inputs[RECALL_HEIGHT_INPUT as int] > u32::MAX {
        Err(
            NoteScreenerError::InvalidNoteInputsError(
                InvalidNoteInputsError::BlockNumberError(note.id, inputs[RECALL_HEIGHT_INPUT as int]),
            ),
        )
    } else if note.sender == account_id {
        Ok(Some(NoteRelevance::After(inputs[RECALL_HEIGHT_INPUT as int] as u32)))
    } else {
        Ok(None)
    }
}

/// What screening says of `note` for one account: a successful consume
/// transaction makes it consumable now; a note that cannot be consumed now
/// falls back on the recall rule when its script is the recallable one; a
/// failed check counts as not relevant; a missing account record is an error.
pub open spec fn account_relevance(recall_script_root: Digest, note: Note, entry: AccountCheck) -> Result<
    Option<NoteRelevance>,
    NoteScreenerError,
> {
    match entry.check {
        None => Err(NoteScreenerError::AccountDataNotFound(entry.account_id)),
        Some(ConsumptionCheck::Consumable) => Ok(Some(NoteRelevance::Now)),
        Some(ConsumptionCheck::NotConsumable) => {
            if note.script_root == recall_script_root {
                recall_relevance(note, entry.account_id)
            } else {
                Ok(None)
            }
        },
        Some(ConsumptionCheck::Failed) => Ok(None),
    }
}

/// Screening of `note` over `entries` in order: the first error ends it,
/// otherwise each account with a relevance contributes one entry.
pub open spec fn screened(recall_script_root: Digest, note: Note, entries: Seq<AccountCheck>) -> Result<
    Seq<NoteConsumability>,
    NoteScreenerError,
>
    decreases entries.len(),
{
    if entries.len() == 0 {
        Ok(seq![])
    } else {
        match screened(recall_script_root, note, entries.drop_last()) {
            Err(e) => Err(e),
            Ok(prev) => match account_relevance(recall_script_root, note, entries.last()) {
                Err(e) => Err(e),
                Ok(None) => Ok(prev),
                Ok(Some(rel)) => Ok(prev.push((entries.last().account_id, rel))),
            },
        }
    }
}

/// Once screening of a prefix fails, screening of any longer prefix fails the same way.
proof fn lemma_screened_error_stays(
    recall_script_root: Digest,
    note: Note,
    entries: Seq<AccountCheck>,
    m: int,
    n: int,
)
    requires
        0 <= m <= n <= entries.len(),
        screened(recall_script_root, note, entries.subrange(0, m)) is Err,
    ensures
        screened(recall_script_root, note, entries.subrange(0, n)) == screened(
            recall_script_root,
            note,
            entries.subrange(0, m),
        ),
    decreases n - m,
{
    if n > m {
        lemma_screened_error_stays(recall_script_root, note, entries, m, n - 1);
        assert(entries.subrange(0, n).drop_last() =~= entries.subrange(0, n - 1));
    }
}

/// `idx` maps each screening entry to the account entry it came from, strictly
/// increasingly, with the same account identifier.
pub open spec fn one_entry_each(v: Seq<NoteConsumability>, entries: Seq<AccountCheck>, idx: Seq<
    int,
>) -> bool {
    &&& idx.len() == v.len()
    &&& forall|i: int|
        0 <= i < v.len() ==> 0 <= #[trigger] idx[i] < entries.len() && v[i].0
            == entries[idx[i]].account_id
    &&& forall|i: int, j: int| 0 <= i < j < v.len() ==> #[trigger] idx[i] < #[trigger] idx[j]
}

/// Screening gives at most one entry per screened account, in the accounts'
/// order: each entry comes from a distinct account entry, with that
/// account's identifier.
pub proof fn lemma_screened_one_entry_per_account(
    recall_script_root: Digest,
    note: Note,
    entries: Seq<AccountCheck>,
)
    requires
        screened(recall_script_root, note, entries) is Ok,
    ensures
        ({
            let v = screened(recall_script_root, note, entries)->Ok_0;
            &&& v.len() <= entries.len()
            &&& exists|idx: Seq<int>| #[trigger] one_entry_each(v, entries, idx)
        }),
    decreases entries.len(),
{
    let v = screened(recall_script_root, note, entries)->Ok_0;
    if entries.len() == 0 {
        assert(one_entry_each(v, entries, Seq::<int>::empty()));
    } else {
        let init = entries.drop_last();
        lemma_screened_one_entry_per_account(recall_script_root, note, init);
        let prev = screened(recall_script_root, note, init)->Ok_0;
        let idx0 = choose|idx: Seq<int>| #[trigger] one_entry_each(prev, init, idx);
        if v.len() == prev.len() {
            assert(v == prev);
            assert forall|i: int| 0 <= i < v.len() implies 0 <= #[trigger] idx0[i] < entries.len()
                && v[i].0 == entries[idx0[i]].account_id by {
                assert(init[idx0[i]] == entries[idx0[i]]);
            }
            assert(one_entry_each(v, entries, idx0));
        } else {
            let idx = idx0.push(entries.len() - 1);
            assert forall|i: int| 0 <= i < v.len() implies 0 <= #[trigger] idx[i] < entries.len()
                && v[i].0 == entries[idx[i]].account_id by {
                if i < prev.len() {
                    assert(idx[i] == idx0[i]);
                    assert(init[idx0[i]] == entries[idx0[i]]);
                }
            }
            assert forall|i: int, j: int| 0 <= i < j < v.len() implies #[trigger] idx[i]
                < #[trigger] idx[j] by {
                assert(idx[i] == idx0[i]);
                if j < prev.len() {
                    assert(idx[j] == idx0[j]);
                }
            }
            assert(one_entry_each(v, entries, idx));
        }
    }
}

/// Relies on `miden_lib`'s `WellKnownNote::P2IDE.script_root()`: the root of
/// the shipped pay-to-id script with recall and timelock heights.
#[verifier::external_body]
fn recallable_script_root() -> (r: Digest) {
    let root: [u64; 4] = WellKnownNote::P2IDE.script_root().into();
    Digest { w0: root[0], w1: root[1], w2: root[2], w3: root[3] }
}

/// Screens notes for the accounts a client tracks.
pub struct NoteScreener {
    /// Root of the script whose notes their sender may recall.
    pub recall_script_root: Digest,
}

impl NoteScreener {
    /// A screener that knows the recallable pay-to-id script of the standard note library.
    pub fn new() -> (r: NoteScreener) {
        NoteScreener { recall_script_root: recallable_script_root() }
    }

    /// Returns, for each account in `accounts` that can consume `note`, when it
    /// can. Each entry of `accounts` carries the outcome of that account's
    /// speculative consume transaction; the accounts are screened in order
    /// and the first error ends the screening.
    pub fn check_relevance(&self, note: &Note, accounts: &Vec<AccountCheck>) -> (r: Result<
        Vec<NoteConsumability>,
        NoteScreenerError,
    >)
        ensures
            r is Ok <==> screened(self.recall_script_root, *note, accounts@) is Ok,
            r matches Ok(v) ==> screened(self.recall_script_root, *note, accounts@) == Ok::<
                Seq<NoteConsumability>,
                NoteScreenerError,
            >(v@),
            r matches Err(e) ==> screened(self.recall_script_root, *note, accounts@) == Err::<
                Seq<NoteConsumability>,
                NoteScreenerError,
            >(e),
            accounts@.len() == 0 ==> (r matches Ok(v) && v@.len() == 0),
            r matches Ok(v) ==> exists|idx: Seq<int>| #[trigger]
                one_entry_each(v@, accounts@, idx),
    {
        let mut note_relevances: Vec<NoteConsumability> = Vec::new();
        let mut i: usize = 0;
        while i < accounts.len()
            invariant
                i <= accounts@.len(),
                screened(self.recall_script_root, *note, accounts@.subrange(0, i as int)) == Ok::<
                    Seq<NoteConsumability>,
                    NoteScreenerError,
                >(note_relevances@),
            decreases accounts@.len() - i,
        {
            let entry = accounts[i];
            let ghost prefix = accounts@.subrange(0, i + 1);
            assert(prefix.drop_last() =~= accounts@.subrange(0, i as int));
            assert(prefix.last() == entry);
            match entry.check {
                None => {
                    proof {
                        lemma_screened_error_stays(
                            self.recall_script_root,
                            *note,
                            accounts@,
                            i + 1,
                            accounts@.len() as int,
                        );
                        assert(accounts@.subrange(0, accounts@.len() as int) =~= accounts@);
                    }
                    return Err(NoteScreenerError::AccountDataNotFound(entry.account_id));
                },
                Some(ConsumptionCheck::Consumable) => {
                    note_relevances.push((entry.account_id, NoteRelevance::Now));
                },
                Some(ConsumptionCheck::NotConsumable) => {
                    if note.script_root == self.recall_script_root {
                        match Self::check_p2ide_recall_consumability(note, &entry.account_id) {
                            Ok(Some(relevance)) => {
                                note_relevances.push((entry.account_id, relevance));
                            },
                            Ok(None) => {},
                            Err(e) => {
                                proof {
                                    lemma_screened_error_stays(
                                        self.recall_script_root,
                                        *note,
                                        accounts@,
                                        i + 1,
                                        accounts@.len() as int,
                                    );
                                    assert(accounts@.subrange(0, accounts@.len() as int)
                                        =~= accounts@);
                                }
                                return Err(e);
                            },
                        }
                    }
                },
                Some(ConsumptionCheck::Failed) => {},
            }
            i = i + 1;
        }
        assert(accounts@.subrange(0, accounts@.len() as int) =~= accounts@);
        proof {
            lemma_screened_one_entry_per_account(self.recall_script_root, *note, accounts@);
        }
        Ok(note_relevances)
    }

    /// The recall rule for `note` and `account_id`: fails when the note does
    /// not carry four inputs or its recall height does not fit 32 bits; the
    /// sender may consume the note after that height.
    pub fn check_p2ide_recall_consumability(note: &Note, account_id: &AccountId) -> (r: Result<
        Option<NoteRelevance>,
        NoteScreenerError,
    >)
        ensures
            r == recall_relevance(*note, *account_id),
    {
        if note.inputs.len() != RECALLABLE_NUM_INPUTS {
            return Err(
                NoteScreenerError::InvalidNoteInputsError(
                    InvalidNoteInputsError::WrongNumInputs(note.id, RECALLABLE_NUM_INPUTS),
                ),
            );
        }
        let recall_height = note.inputs[RECALL_HEIGHT_INPUT];
        if recall_height > u32::MAX as u64 {
            return Err(
                NoteScreenerError::InvalidNoteInputsError(
                    InvalidNoteInputsError::BlockNumberError(note.id, recall_height),
                ),
            );
        }
        if note.sender == *account_id {
            Ok(Some(NoteRelevance::After(recall_height as u32)))
        } else {
            Ok(None)
        }
    }
}

} // verus!
