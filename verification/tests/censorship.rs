//! Scenarios for the censorship diagnostics: the account-name grammar,
//! blacklist parsing, and the censoring decision.
use routing_core::censor::{
    CensoredTransaction, SignedTransaction, TransactionOrigin, censor_check, check_blacklisted,
    file_exists, parse_blacklist, validate_account_id,
};

fn b(s: &str) -> Vec<u8> {
    s.as_bytes().to_vec()
}

#[test]
fn account_name_grammar() {
    assert!(validate_account_id(&b("alice")));
    assert!(validate_account_id(&b("alice.near")));
    assert!(validate_account_id(&b("a-b_c.d0")));
    assert!(validate_account_id(&b("ab")));
    assert!(!validate_account_id(&b("a")), "too short");
    assert!(!validate_account_id(&b("Alice")), "uppercase");
    assert!(!validate_account_id(&b(".alice")), "leading separator");
    assert!(!validate_account_id(&b("alice.")), "trailing separator");
    assert!(!validate_account_id(&b("a--b")), "adjacent separators");
    assert!(!validate_account_id(&b("a b")), "space");
    let long = "a".repeat(65);
    assert!(!validate_account_id(&long.into_bytes()), "too long");
}

#[test]
fn blacklist_parsing() {
    let ids = parse_blacklist(&b("alice,bob.near,c-3")).expect("all entries are valid");
    assert_eq!(ids, vec![b("alice"), b("bob.near"), b("c-3")]);
    assert!(parse_blacklist(&b("alice,,bob")).is_none(), "an empty entry is invalid");
    assert!(parse_blacklist(&b("")).is_none(), "an empty list is invalid");
    assert!(parse_blacklist(&b("alice,B")).is_none(), "one bad entry rejects the list");
}

fn tx(signer: &str, receiver: &str) -> SignedTransaction {
    SignedTransaction { signer_id: b(signer), receiver_id: b(receiver), payload: 7 }
}

#[test]
fn blacklist_check_prefers_the_receiver() {
    let blacklist = vec![b("mallory"), b("trudy")];
    let (hit, who) = check_blacklisted(&tx("trudy", "mallory"), &blacklist);
    assert!(hit);
    assert_eq!(who, Some(b("mallory")), "the receiver is reported first");
    let (hit2, who2) = check_blacklisted(&tx("trudy", "alice"), &blacklist);
    assert!(hit2);
    assert_eq!(who2, Some(b("trudy")));
    let (hit3, who3) = check_blacklisted(&tx("alice", "bob"), &blacklist);
    assert!(!hit3);
    assert_eq!(who3, None);
}

#[test]
fn censor_check_builds_the_ledger_record() {
    let blacklist = vec![b("mallory")];
    let rec: CensoredTransaction =
        censor_check(tx("alice", "mallory"), TransactionOrigin::SendTxAsync, &blacklist)
            .expect("the receiver is blacklisted");
    assert_eq!(rec.blacklisted_id, b("mallory"));
    assert_eq!(rec.where_censored, TransactionOrigin::SendTxAsync);
    assert_eq!(rec.transaction.signer_id, b("alice"));
    assert!(censor_check(tx("alice", "bob"), TransactionOrigin::Client, &blacklist).is_none());
}

#[test]
fn origin_labels() {
    assert_eq!(TransactionOrigin::ClientAdapter.label(), "ClientAdapter");
    assert_eq!(TransactionOrigin::Client.label(), "Client");
    assert_eq!(TransactionOrigin::SendTxAsync.label(), "SendTxAsync");
    assert_eq!(TransactionOrigin::SendTxCommit.label(), "SendTxCommit");
}

#[test]
fn missing_file_does_not_exist() {
    assert!(!file_exists("a_ledger_file_that_was_never_written.json"));
}
