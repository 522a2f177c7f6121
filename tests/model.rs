use pool_payments::model::{classify_confirmations, Coin, PaymentStatus, TxStatus};

#[test]
fn coin_codes_round_trip() {
    assert_eq!(Coin::Xmr.as_str(), "xmr");
    assert_eq!(Coin::Aleo.to_string(), "aleo");
    assert_eq!(Coin::parse("XTM"), Ok(Coin::Xtm));
    assert_eq!(Coin::parse("Aleo"), Ok(Coin::Aleo));
    assert_eq!("xmr".parse::<Coin>(), Ok(Coin::Xmr));
    let err = Coin::parse("btc").unwrap_err();
    assert_eq!(err.code, "btc");
    assert_eq!(Coin::from_lowercase_code("XMR"), None);
}

#[test]
fn payment_status_codes() {
    assert_eq!(PaymentStatus::Processing.as_str(), "processing");
    assert_eq!(PaymentStatus::from_code_str("failed"), PaymentStatus::Failed);
    assert_eq!(PaymentStatus::from_code_str("confirmed"), PaymentStatus::Confirmed);
    assert_eq!(PaymentStatus::from_code_str("garbage"), PaymentStatus::Pending);
    assert!(PaymentStatus::Pending.can_become(PaymentStatus::Failed));
    assert!(PaymentStatus::Processing.can_become(PaymentStatus::Confirmed));
    assert!(!PaymentStatus::Processing.can_become(PaymentStatus::Pending));
    assert!(!PaymentStatus::Failed.can_become(PaymentStatus::Confirmed));
    assert!(PaymentStatus::Confirmed.is_settled());
}

#[test]
fn confirmation_thresholds() {
    assert_eq!(classify_confirmations(0, 10), TxStatus::Pending);
    assert_eq!(classify_confirmations(3, 3), TxStatus::Confirmed);
    assert_eq!(classify_confirmations(11, 10), TxStatus::Confirmed);
    assert_eq!(classify_confirmations(1, 3), TxStatus::Confirming { confirmations: 1 });
}
