use wallet::{coin, Wallet, WalletError};

fn pairs(w: Wallet) -> Vec<(String, u128)> {
    w.into_vec().into_iter().map(|c| (c.denom, c.amount)).collect()
}

fn pair(denom: &str, amount: u128) -> (String, u128) {
    (denom.to_string(), amount)
}

#[test]
fn normalize_of_canonical_is_identity() {
    let mut w = Wallet(vec![coin(1, "ATOM"), coin(2, "BTC"), coin(3, "ETH")]);
    w.normalize();
    assert_eq!(
        pairs(w),
        vec![pair("ATOM", 1), pair("BTC", 2), pair("ETH", 3)]
    );
}

#[test]
fn merge_commutes_under_normalize() {
    let a = || Wallet(vec![coin(5, "BTC"), coin(7, "ETH")]);
    let b = || Wallet(vec![coin(11, "ATOM"), coin(13, "ETH")]);

    let mut ab = a();
    ab.merge(b());
    ab.normalize();

    let mut ba = b();
    ba.merge(a());
    ba.normalize();

    let expected = vec![pair("ATOM", 11), pair("BTC", 5), pair("ETH", 20)];
    assert_eq!(pairs(ab), expected);
    assert_eq!(pairs(ba), expected);
}

#[test]
fn normalize_prunes_every_zero() {
    let mut w = Wallet(vec![coin(0, "A"), coin(0, "B"), coin(4, "C"), coin(0, "C")]);
    w.normalize();
    assert_eq!(pairs(w), vec![pair("C", 4)]);
}

#[test]
fn normalize_sums_per_denomination() {
    let mut w = Wallet(vec![coin(1, "A"), coin(2, "B"), coin(3, "A"), coin(4, "A")]);
    w.normalize();
    assert_eq!(pairs(w), vec![pair("A", 8), pair("B", 2)]);
}

#[test]
fn normalize_empty_stays_empty() {
    let mut w = Wallet(vec![]);
    w.normalize();
    assert_eq!(pairs(w), vec![]);
}

#[test]
fn underflow_carries_attempted_amount() {
    let w = Wallet(vec![coin(555, "BTC"), coin(12345, "ETH")]);

    let too_much = w.clone().subtract(coin(666, "BTC"));
    assert_eq!(too_much.unwrap_err(), WalletError::Underflow(666));

    let absent = w.subtract(coin(1, "ATOM"));
    assert_eq!(absent.unwrap_err(), WalletError::Underflow(1));
}

#[test]
fn subtract_whole_amount_removes_entry() {
    let w = Wallet(vec![coin(9, "ATOM"), coin(5, "BTC")]);
    let rest = w.subtract(coin(9, "ATOM")).unwrap();
    assert_eq!(pairs(rest), vec![pair("BTC", 5)]);
}

#[test]
fn has_on_empty_wallet() {
    let w = Wallet(vec![]);
    assert!(!w.has(&coin(1, "BTC")));
    assert!(!w.has(&coin(0, "BTC")));
}

#[test]
fn has_zero_of_present_denomination() {
    let w = Wallet(vec![coin(555, "BTC")]);
    assert!(w.has(&coin(0, "BTC")));
}

#[test]
fn merge_accepts_unnormalized_other() {
    let mut w = Wallet(vec![coin(10, "BTC")]);
    w.merge(Wallet(vec![coin(1, "ATOM"), coin(2, "ATOM"), coin(3, "BTC")]));
    assert_eq!(pairs(w), vec![pair("ATOM", 3), pair("BTC", 13)]);
}

#[test]
fn default_wallet_is_empty() {
    let w = Wallet::default();
    assert_eq!(pairs(w), vec![]);
}

#[test]
fn into_vec_reflects_current_form() {
    let w = Wallet(vec![coin(0, "ETH"), coin(2, "ATOM")]);
    let v = w.into_vec();
    assert_eq!(v.len(), 2);
    assert_eq!(v[0].denom, "ETH");
    assert_eq!(v[0].amount, 0);
    assert_eq!(v[1].denom, "ATOM");
    assert_eq!(v[1].amount, 2);
}

#[test]
fn clone_preserves_entries() {
    let w = Wallet(vec![coin(7, "BTC"), coin(0, "ETH")]);
    let c = w.clone();
    assert_eq!(pairs(w), pairs(c));
}
