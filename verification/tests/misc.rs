use domain_pay::chain::Chain;
use domain_pay::collections::{
    collection_query, owned_collections, Brc20Collection, Collection, WalletCollections,
};
use domain_pay::encryption::{encrypt_string, DecryptError, EncryptionKey};
use domain_pay::domains::{domains, paid_domains};
use domain_pay::encryption_methods::EncryptionMethods;
use domain_pay::error::ErrorResponse;
use domain_pay::inscription::{
    domain_inscription, generate_domain_inscription, get_private_key, inscription_with, seconds_of,
    GetPrivateKeyResponseObject,
};
use domain_pay::ledger::Ledger;
use domain_pay::log::LogTypes;
use domain_pay::payment::Payment;
use domain_pay::ledger::LedgerError;
use domain_pay::status::{delete, judge_delete, status, visible_to, DeleteOutcome};
use domain_pay::text::{i64_to_decimal, join, u64_to_decimal};

#[test]
fn the_ports_of_the_networks() {
    assert_eq!(Chain::Mainnet.default_rpc_port(), 8332);
    assert_eq!(Chain::Testnet.default_rpc_port(), 18332);
    assert_eq!(Chain::Regtest.default_rpc_port(), 19001);
}

#[test]
fn the_names_of_the_networks() {
    for (chain, name) in
        [(Chain::Mainnet, "mainnet"), (Chain::Testnet, "testnet"), (Chain::Regtest, "regtest")]
    {
        assert_eq!(chain.to_string(), name);
        assert_eq!(chain.as_str(), name);
        assert_eq!(Chain::from_str(name), Ok(chain));
    }
    assert_eq!(Chain::from_str("signet"), Err("unknown chain: signet".to_string()));
    assert_eq!(Chain::from_str("Mainnet"), Err("unknown chain: Mainnet".to_string()));
    assert_eq!(Chain::from_str(""), Err("unknown chain: ".to_string()));
}

#[test]
fn where_the_node_serves_a_wallet() {
    assert_eq!(Chain::Regtest.rpc_url("ord"), "http://localhost:19001/wallet/ord");
    assert_eq!(Chain::Mainnet.rpc_url("xiler"), "http://localhost:8332/wallet/xiler");
    assert_eq!(Chain::Testnet.rpc_url(""), "http://localhost:18332/wallet/");
}

#[test]
fn the_names_of_the_log_types() {
    for (kind, name) in [
        (LogTypes::PaymentRequested, "payment_requested"),
        (LogTypes::PaymentReceivedUnconfirmed, "payment_received_unconfirmed"),
        (LogTypes::PaymentReceivedConfirmed, "payment_received_confirmed"),
    ] {
        assert_eq!(kind.as_str(), name);
        assert_eq!(kind.into_string(), name);
        assert_eq!(LogTypes::parse(name), Some(kind));
        assert_eq!(LogTypes::from(name), kind);
    }
    assert_eq!(LogTypes::parse("payment"), None);
    assert_eq!(LogTypes::parse("Payment_Requested"), None);
    assert_eq!(LogTypes::parse(""), None);
}

#[test]
fn the_numbers_of_the_ciphers() {
    assert_eq!(EncryptionMethods::AES256.code(), 1);
    assert_eq!(EncryptionMethods::try_from_code(1), Some(EncryptionMethods::AES256));
    assert_eq!(EncryptionMethods::from(1), EncryptionMethods::AES256);
    for other in [0i16, 2, -1, i16::MAX, i16::MIN] {
        assert_eq!(EncryptionMethods::try_from_code(other), None);
    }
}

#[test]
fn numbers_in_decimal() {
    assert_eq!(u64_to_decimal(0), "0");
    assert_eq!(u64_to_decimal(7), "7");
    assert_eq!(u64_to_decimal(10), "10");
    assert_eq!(u64_to_decimal(19001), "19001");
    assert_eq!(u64_to_decimal(1_000_000), "1000000");
    assert_eq!(u64_to_decimal(u64::MAX), "18446744073709551615");
    assert_eq!(i64_to_decimal(0), "0");
    assert_eq!(i64_to_decimal(-1), "-1");
    assert_eq!(i64_to_decimal(1_700_000_000), "1700000000");
    assert_eq!(i64_to_decimal(i64::MAX), "9223372036854775807");
    assert_eq!(i64_to_decimal(i64::MIN), "-9223372036854775808");
    for n in [9u64, 99, 100, 101, 12345678901234567890] {
        assert_eq!(u64_to_decimal(n), n.to_string());
    }
}

#[test]
fn lists_are_joined_with_a_separator() {
    let list = |items: &[&str]| items.iter().map(|s| s.to_string()).collect::<Vec<_>>();
    assert_eq!(join(&list(&[]), ", "), "");
    assert_eq!(join(&list(&["a"]), ", "), "a");
    assert_eq!(join(&list(&["a", "b", "c"]), ", "), "a, b, c");
    assert_eq!(join(&list(&["", ""]), "-"), "-");
    assert_eq!(join(&list(&["a", "b"]), ""), "ab");
}

#[test]
fn milliseconds_become_whole_seconds() {
    assert_eq!(seconds_of(0), 0);
    assert_eq!(seconds_of(999), 0);
    assert_eq!(seconds_of(1_000), 1);
    assert_eq!(seconds_of(1_700_000_000_999), 1_700_000_000);
    assert_eq!(seconds_of(-1), 0);
    assert_eq!(seconds_of(-999), 0);
    assert_eq!(seconds_of(-1_000), -1);
    assert_eq!(seconds_of(-1_001), -1);
    assert_eq!(seconds_of(i64::MAX), i64::MAX / 1000);
    assert_eq!(seconds_of(i64::MIN), i64::MIN / 1000);
}

#[test]
fn the_text_of_an_inscription() {
    assert_eq!(
        domain_inscription("foo.o", "dead", 1_700_000_000),
        "DOMAIN foo.o 1700000000\nDOMAIN-VALIDITY foo.o dilithium5 dead\nnull null"
    );
    let (text, private_key) = inscription_with("foo.o", &[0xde, 0xad, 0x01], &[0x00, 0xff], 1_999);
    assert_eq!(text, "DOMAIN foo.o 1\nDOMAIN-VALIDITY foo.o dilithium5 dead01\nnull null");
    assert_eq!(private_key, "00ff");
    let (text, private_key) = inscription_with("", &[], &[], -5_000);
    assert_eq!(text, "DOMAIN  -5\nDOMAIN-VALIDITY  dilithium5 \nnull null");
    assert_eq!(private_key, "");
}

#[test]
fn an_inscription_comes_with_a_fresh_key_pair() {
    let (text, private_key) = generate_domain_inscription("foo.o");
    let lines: Vec<&str> = text.split('\n').collect();
    assert_eq!(lines.len(), 3);
    let first: Vec<&str> = lines[0].split(' ').collect();
    assert_eq!(first.len(), 3);
    assert_eq!(first[0], "DOMAIN");
    assert_eq!(first[1], "foo.o");
    let epoch: i64 = first[2].parse().unwrap();
    assert!(epoch > 1_600_000_000);
    let second: Vec<&str> = lines[1].split(' ').collect();
    assert_eq!(second.len(), 4);
    assert_eq!(second[0], "DOMAIN-VALIDITY");
    assert_eq!(second[1], "foo.o");
    assert_eq!(second[2], "dilithium5");
    let is_hex = |s: &str| s.chars().all(|c| c.is_ascii_digit() || ('a'..='f').contains(&c));
    assert_eq!(second[3].len(), 2 * pqcrypto_dilithium::dilithium5::public_key_bytes());
    assert!(is_hex(second[3]));
    assert_eq!(lines[2], "null null");
    assert_eq!(private_key.len(), 2 * pqcrypto_dilithium::dilithium5::secret_key_bytes());
    assert!(is_hex(&private_key));
    let (other, other_key) = generate_domain_inscription("foo.o");
    assert_ne!(other_key, private_key);
    assert_ne!(other, text);
    let held = GetPrivateKeyResponseObject { private_key };
    assert!(!held.private_key.is_empty());
}

#[test]
fn tickers_are_kept_in_upper_case() {
    let holding = Collection::from(("ordi".to_string(), 5));
    assert_eq!(holding.ticker, "ORDI");
    assert_eq!(holding.amount, 5);
    assert_eq!(Collection::from(("$Bit".to_string(), 0)).ticker, "$BIT");
    assert_eq!(Collection::from(("straße".to_string(), 0)).ticker, "STRASSE");
}

#[test]
fn what_the_service_reports_becomes_holdings() {
    let holdings = owned_collections(vec![("ordi".to_string(), 5), ("Sats".to_string(), 0)]);
    assert_eq!(holdings.len(), 2);
    assert_eq!(holdings[0].ticker, "ORDI");
    assert_eq!(holdings[0].amount, 5);
    assert_eq!(holdings[1].ticker, "SATS");
    assert_eq!(holdings[1].amount, 0);
    assert!(owned_collections(Vec::new()).is_empty());
    let token = Brc20Collection { amount: 1, ticker: "ORDI".to_string() };
    assert_eq!(token.ticker, holdings[0].ticker);
}

#[test]
fn a_private_key_is_handed_out_decrypted() {
    let key = EncryptionKey::new("0123456789abcdef0123456789abcdef").unwrap();
    let (stored, method) = encrypt_string("c0ffee", &key);
    let held = get_private_key(Some((stored.as_str(), method.code())), &key).unwrap().unwrap();
    assert_eq!(held.private_key, "c0ffee");
    assert!(get_private_key(None, &key).unwrap().is_none());
    assert_eq!(
        get_private_key(Some((stored.as_str(), 9)), &key).unwrap_err(),
        DecryptError::UnknownMethod
    );
    assert_eq!(
        get_private_key(Some(("zz", 1)), &key).unwrap_err(),
        DecryptError::InvalidHex
    );
    assert_eq!(
        get_private_key(Some(("00", 1)), &key).unwrap_err(),
        DecryptError::InvalidLength
    );
}

#[test]
fn holdings_are_listed_tokens_first() {
    let owned = WalletCollections {
        brc20s: vec![Collection::from(("ordi".to_string(), 27_000)), Collection::from(("sats".to_string(), 1))],
        collections: vec![Collection { amount: 2, ticker: "bit-apes".to_string() }],
    };
    assert_eq!(
        collection_query(&owned),
        vec![("ORDI".to_string(), 0, 27_000), ("SATS".to_string(), 0, 1), ("bit-apes".to_string(), 1, 2)]
    );
    let nothing = WalletCollections { brc20s: Vec::new(), collections: Vec::new() };
    assert!(collection_query(&nothing).is_empty());
}

#[test]
fn an_error_response_says_its_message() {
    assert_eq!(ErrorResponse::new("Not found").message, "Not found");
    let made: ErrorResponse = "Internal server error".into();
    assert_eq!(made.message, "Internal server error");
    assert_eq!(ErrorResponse::from("").message, "");
}

#[test]
fn rows_become_paid_domains() {
    let rows = vec![
        ("a.o".to_string(), true, Some("tx".to_string())),
        ("b.o".to_string(), false, None),
    ];
    let response = paid_domains(rows);
    assert_eq!(response.domains.len(), 2);
    assert_eq!(response.domains[0].domain, "a.o");
    assert!(response.domains[0].payment_completed);
    assert_eq!(response.domains[0].reveal_tx, Some("tx".to_string()));
    assert_eq!(response.domains[1].domain, "b.o");
    assert!(!response.domains[1].payment_completed);
    assert_eq!(response.domains[1].reveal_tx, None);
    assert!(paid_domains(Vec::new()).domains.is_empty());
}

#[test]
fn the_domains_of_an_account() {
    let mut ledger = Ledger::new();
    ledger.create_payment(1, 7, "a", 10, &vec!["a.o".to_string()], 0).unwrap();
    ledger.create_payment(2, 8, "b", 10, &vec!["b.o".to_string()], 0).unwrap();
    assert!(domains(&ledger, 7).domains.is_empty());
    ledger.initiate_payment(1).unwrap();
    let shown = domains(&ledger, 7);
    assert_eq!(shown.domains.len(), 1);
    assert_eq!(shown.domains[0].domain, "a.o");
    assert!(!shown.domains[0].payment_completed);
    assert_eq!(shown.domains[0].reveal_tx, None);
    assert!(domains(&ledger, 8).domains.is_empty());
}

#[test]
fn a_payment_is_shown_to_its_owner_only() {
    let mut ledger = Ledger::new();
    ledger.create_payment(1, 7, "a", 10, &Vec::new(), 0).unwrap();
    assert_eq!(status(&ledger, 7, 1).unwrap().address, "a");
    assert!(status(&ledger, 8, 1).is_none());
    assert!(status(&ledger, 7, 2).is_none());
    let payment = Payment {
        id: 1,
        account_id: 7,
        address: "a".to_string(),
        amount: 1,
        received: 0,
        confirmations: 0,
        initiated: false,
        completed: false,
        created_at: 0,
    };
    assert!(visible_to(Some(payment.duplicate()), 7).is_some());
    assert!(visible_to(Some(payment), 8).is_none());
    assert!(visible_to(None, 7).is_none());
}

#[test]
fn a_payment_is_deleted_for_its_owner_only() {
    let mut ledger = Ledger::new();
    ledger.create_payment(1, 7, "a", 10, &Vec::new(), 0).unwrap();
    ledger.create_payment(2, 7, "b", 10, &Vec::new(), 0).unwrap();
    assert_eq!(delete(&mut ledger, 8, 1), DeleteOutcome::NotFound);
    assert_eq!(delete(&mut ledger, 7, 3), DeleteOutcome::NotFound);
    ledger.initiate_payment(2).unwrap();
    assert_eq!(delete(&mut ledger, 7, 2), DeleteOutcome::NotFound);
    assert_eq!(delete(&mut ledger, 7, 1), DeleteOutcome::Deleted);
    assert_eq!(delete(&mut ledger, 7, 1), DeleteOutcome::NotFound);
    assert!(status(&ledger, 7, 1).is_none());
    assert!(status(&ledger, 7, 2).is_some());
}

#[test]
fn who_may_delete_a_payment() {
    let payment = |initiated: bool| {
        Some(Payment {
            id: 1,
            account_id: 7,
            address: "a".to_string(),
            amount: 1,
            received: 0,
            confirmations: 0,
            initiated,
            completed: false,
            created_at: 0,
        })
    };
    assert_eq!(judge_delete(&None, 7), Some(LedgerError::UnknownPayment));
    assert_eq!(judge_delete(&payment(false), 8), Some(LedgerError::NotOwner));
    assert_eq!(judge_delete(&payment(true), 8), Some(LedgerError::NotOwner));
    assert_eq!(judge_delete(&payment(true), 7), Some(LedgerError::AlreadyInitiated));
    assert_eq!(judge_delete(&payment(false), 7), None);
}

#[test]
fn what_a_payment_says_of_itself() {
    let mut payment = Payment {
        id: 1,
        account_id: 7,
        address: "a".to_string(),
        amount: 10,
        received: 9,
        confirmations: 0,
        initiated: true,
        completed: false,
        created_at: 100,
    };
    assert!(!payment.is_paid());
    assert!(!payment.ready_to_complete());
    assert!(!payment.expired(100_000, 2_100));
    payment.received = 10;
    assert!(payment.is_paid());
    assert!(payment.ready_to_complete());
    payment.completed = true;
    assert!(!payment.ready_to_complete());
    payment.initiated = false;
    payment.completed = false;
    assert!(!payment.ready_to_complete());
    assert!(payment.expired(2_201, 2_100));
    assert!(!payment.expired(2_200, 2_100));
    let copy = payment.duplicate();
    assert_eq!(copy.address, "a");
    assert_eq!(copy.received, 10);
}
