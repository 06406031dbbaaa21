use miden_client::digest::Digest;
use miden_client::note_screener::{
    AccountCheck, AccountId, ConsumptionCheck, InvalidNoteInputsError, Note, NoteId,
    NoteRelevance, NoteScreener, NoteScreenerError,
};
use miden_lib::note::well_known_note::WellKnownNote;

fn account(n: u64) -> AccountId {
    AccountId { prefix: 0x1000 + n, suffix: 0x2000 + n }
}

fn note_id() -> NoteId {
    NoteId { digest: Digest::new(9, 8, 7, 6) }
}

fn note(script_root: Digest, inputs: Vec<u64>, sender: AccountId) -> Note {
    Note { id: note_id(), script_root, inputs, sender, tag: 42 }
}

fn check(id: AccountId, c: ConsumptionCheck) -> AccountCheck {
    AccountCheck { account_id: id, check: Some(c) }
}

fn other_script() -> Digest {
    Digest::new(1, 2, 3, 4)
}

#[test]
fn screener_knows_recallable_script_root() {
    let screener = NoteScreener::new();
    let root: [u64; 4] = WellKnownNote::P2IDE.script_root().into();
    assert_eq!(screener.recall_script_root.elements(), root);
}

#[test]
fn pay_to_id_note_is_consumable_now_by_its_target() {
    let screener = NoteScreener::new();
    let a = account(1);
    let n = note(other_script(), vec![a.suffix, a.prefix], account(7));
    let accounts = vec![check(a, ConsumptionCheck::Consumable)];
    assert_eq!(screener.check_relevance(&n, &accounts), Ok(vec![(a, NoteRelevance::Now)]));
}

#[test]
fn recallable_note_is_relevant_to_sender_after_recall_height() {
    let screener = NoteScreener::new();
    let s = account(2);
    let target = account(3);
    let n = note(screener.recall_script_root, vec![target.suffix, target.prefix, 120, 0], s);
    let accounts = vec![check(s, ConsumptionCheck::NotConsumable)];
    assert_eq!(screener.check_relevance(&n, &accounts), Ok(vec![(s, NoteRelevance::After(120))]));
}

#[test]
fn recallable_note_with_three_inputs_is_an_error() {
    let screener = NoteScreener::new();
    let s = account(2);
    let n = note(screener.recall_script_root, vec![5, 6, 120], s);
    let accounts = vec![check(s, ConsumptionCheck::NotConsumable)];
    assert_eq!(
        screener.check_relevance(&n, &accounts),
        Err(NoteScreenerError::InvalidNoteInputsError(InvalidNoteInputsError::WrongNumInputs(
            note_id(),
            4
        )))
    );
}

#[test]
fn recall_height_beyond_32_bits_is_an_error() {
    let screener = NoteScreener::new();
    let s = account(2);
    let too_high = u32::MAX as u64 + 1;
    let n = note(screener.recall_script_root, vec![5, 6, too_high, 0], s);
    let accounts = vec![check(account(4), ConsumptionCheck::NotConsumable)];
    assert_eq!(
        screener.check_relevance(&n, &accounts),
        Err(NoteScreenerError::InvalidNoteInputsError(InvalidNoteInputsError::BlockNumberError(
            note_id(),
            too_high
        )))
    );
}

#[test]
fn zero_tracked_accounts_give_no_entries() {
    let screener = NoteScreener::new();
    let n = note(screener.recall_script_root, vec![1], account(1));
    assert_eq!(screener.check_relevance(&n, &vec![]), Ok(vec![]));
}

#[test]
fn failed_checks_and_other_accounts_are_not_relevant() {
    let screener = NoteScreener::new();
    let s = account(2);
    let n = note(screener.recall_script_root, vec![5, 6, 77, 0], s);
    let accounts = vec![
        check(account(5), ConsumptionCheck::Failed),
        check(account(6), ConsumptionCheck::NotConsumable),
        check(s, ConsumptionCheck::Failed),
        check(account(8), ConsumptionCheck::Consumable),
    ];
    assert_eq!(
        screener.check_relevance(&n, &accounts),
        Ok(vec![(account(8), NoteRelevance::Now)])
    );
}

#[test]
fn unknown_script_without_success_is_not_relevant() {
    let screener = NoteScreener::new();
    let s = account(2);
    let n = note(other_script(), vec![5, 6, 77], s);
    let accounts = vec![check(s, ConsumptionCheck::NotConsumable)];
    assert_eq!(screener.check_relevance(&n, &accounts), Ok(vec![]));
}

#[test]
fn missing_account_record_is_an_error() {
    let screener = NoteScreener::new();
    let n = note(other_script(), vec![], account(1));
    let accounts = vec![
        check(account(1), ConsumptionCheck::Consumable),
        AccountCheck { account_id: account(9), check: None },
    ];
    assert_eq!(
        screener.check_relevance(&n, &accounts),
        Err(NoteScreenerError::AccountDataNotFound(account(9)))
    );
}

#[test]
fn recall_rule_ignores_accounts_other_than_sender() {
    let s = account(2);
    let n = note(other_script(), vec![5, 6, 300, 0], s);
    assert_eq!(NoteScreener::check_p2ide_recall_consumability(&n, &account(3)), Ok(None));
    assert_eq!(
        NoteScreener::check_p2ide_recall_consumability(&n, &s),
        Ok(Some(NoteRelevance::After(300)))
    );
}

#[test]
fn relevance_renders_as_text() {
    assert_eq!(NoteRelevance::Now.to_display_string(), "Now");
    assert_eq!(NoteRelevance::After(5).to_display_string(), "After block 5");
    assert_eq!(NoteRelevance::After(0).to_display_string(), "After block 0");
    assert_eq!(NoteRelevance::After(u32::MAX).to_display_string(), "After block 4294967295");
}
