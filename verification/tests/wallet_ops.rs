use wallet::{coin, Wallet};

fn pairs(w: Wallet) -> Vec<(String, u128)> {
    w.into_vec().into_iter().map(|c| (c.denom, c.amount)).collect()
}

fn pair(denom: &str, amount: u128) -> (String, u128) {
    (denom.to_string(), amount)
}

#[test]
fn wallet_has_works() {
    let wallet = Wallet(vec![coin(555, "BTC"), coin(12345, "ETH")]);

    // less than same type
    assert!(wallet.has(&coin(777, "ETH")));
    // equal to same type
    assert!(wallet.has(&coin(555, "BTC")));

    // too high
    assert!(!wallet.has(&coin(12346, "ETH")));
    // wrong type
    assert!(!wallet.has(&coin(456, "ETC")));
}

#[test]
fn wallet_add_works() {
    let wallet = Wallet(vec![coin(555, "BTC"), coin(12345, "ETH")]);

    // add an existing coin
    let mut more_eth = wallet.clone();
    more_eth.add(coin(54321, "ETH"));
    assert_eq!(pairs(more_eth), vec![pair("BTC", 555), pair("ETH", 66666)]);

    // add a new coin
    let mut add_atom = wallet.clone();
    add_atom.add(coin(777, "ATOM"));
    assert_eq!(
        pairs(add_atom),
        vec![pair("ATOM", 777), pair("BTC", 555), pair("ETH", 12345)]
    );
}

#[test]
fn wallet_in_place_addition() {
    let mut wallet = Wallet(vec![coin(555, "BTC")]);
    wallet.add(coin(777, "ATOM"));
    assert_eq!(pairs(wallet.clone()), vec![pair("ATOM", 777), pair("BTC", 555)]);

    wallet.merge(Wallet(vec![coin(666, "ETH"), coin(123, "ATOM")]));
    assert_eq!(
        pairs(wallet.clone()),
        vec![pair("ATOM", 900), pair("BTC", 555), pair("ETH", 666)]
    );

    let mut foo = wallet;
    foo.merge(Wallet(vec![coin(234, "BTC")]));
    assert_eq!(
        pairs(foo),
        vec![pair("ATOM", 900), pair("BTC", 789), pair("ETH", 666)]
    );
}

#[test]
fn wallet_subtract_works() {
    let wallet = Wallet(vec![coin(555, "BTC"), coin(12345, "ETH")]);

    // subtract less than we have
    let less_eth = wallet.clone().subtract(coin(2345, "ETH")).unwrap();
    assert_eq!(pairs(less_eth), vec![pair("BTC", 555), pair("ETH", 10000)]);

    // subtract all of one coin (and remove with 0 amount)
    let no_btc = wallet.clone().subtract(coin(555, "BTC")).unwrap();
    assert_eq!(pairs(no_btc), vec![pair("ETH", 12345)]);

    // subtract more than we have
    let underflow = wallet.clone().subtract(coin(666, "BTC"));
    assert!(underflow.is_err());

    // subtract non-existent denom
    let missing = wallet.clone().subtract(coin(1, "ATOM"));
    assert!(missing.is_err());
}

#[test]
fn normalize_wallet() {
    // remove 0 value items and sort
    let mut wallet = Wallet(vec![coin(123, "ETH"), coin(0, "BTC"), coin(8990, "ATOM")]);
    wallet.normalize();
    assert_eq!(pairs(wallet), vec![pair("ATOM", 8990), pair("ETH", 123)]);

    // merge duplicate entries of same denom
    let mut wallet = Wallet(vec![
        coin(123, "ETH"),
        coin(789, "BTC"),
        coin(321, "ETH"),
        coin(11, "BTC"),
    ]);
    wallet.normalize();
    assert_eq!(pairs(wallet), vec![pair("BTC", 800), pair("ETH", 444)]);
}
