use melonds_rollback::stock::{ready, ShimUrl, Stock};

#[test]
fn warming_tops_up() {
    let mut stock: Stock<u8> = Stock::new();
    assert_eq!(stock.warm(2), 2);
    stock.put_back(1);
    assert_eq!(stock.warm(2), 1);
    stock.put_back(2);
    stock.put_back(3);
    assert_eq!(stock.warm(2), 0);
    assert_eq!(stock.claim(), Some(3));
    assert_eq!(stock.claim(), Some(2));
    assert_eq!(stock.claim(), Some(1));
    assert_eq!(stock.claim(), None);
}

#[test]
fn ready_counts_workers_that_are_up() {
    assert!(ready(&[], 0));
    assert!(!ready(&[], 1));
    assert!(ready(&[true, false, true], 2));
    assert!(!ready(&[true, false, true], 3));
}

#[test]
fn a_known_place_wins_over_a_found_one() {
    let mut shim = ShimUrl::new();
    assert!(shim.unknown());
    assert_eq!(shim.shim_url(None), None);
    assert!(shim.unknown());
    assert_eq!(shim.shim_url(Some("a.js".to_string())), Some("a.js".to_string()));
    assert!(!shim.unknown());
    assert_eq!(shim.shim_url(Some("b.js".to_string())), Some("a.js".to_string()));
    shim.set_shim_url("c.js".to_string());
    assert_eq!(shim.shim_url(None), Some("c.js".to_string()));
}
