use bitserv::get_addresses_with_balance;
use bitserv::get_all_addresses;
use bitserv::get_change_addresses;
use bitserv::str_lt;

fn pair(addr: &str, change: bool) -> (String, bool) {
    (addr.to_string(), change)
}

#[test]
fn all_addresses_dedup_and_sort() {
    let rows = vec![
        pair("charlie", false),
        pair("alpha", true),
        pair("charlie", false),
        pair("bravo", false),
        pair("alpha", true),
    ];
    let result = get_all_addresses(&rows);
    assert_eq!(
        result,
        vec![pair("alpha", true), pair("bravo", false), pair("charlie", false)]
    );
}

#[test]
fn same_address_on_both_keychains_is_kept_twice() {
    let rows = vec![pair("addr", false), pair("addr", true), pair("addr", false)];
    let mut result = get_all_addresses(&rows);
    result.sort_by_key(|entry| entry.1);
    assert_eq!(result, vec![pair("addr", false), pair("addr", true)]);
}

#[test]
fn all_addresses_of_nothing_is_empty() {
    assert_eq!(get_all_addresses(&vec![]), vec![]);
}

#[test]
fn change_addresses_filter_and_sort() {
    let rows = vec![
        pair("delta", true),
        pair("alpha", false),
        pair("bravo", true),
        pair("delta", true),
        pair("echo", false),
    ];
    assert_eq!(
        get_change_addresses(&rows),
        vec!["bravo".to_string(), "delta".to_string()]
    );
}

#[test]
fn change_addresses_of_external_rows_is_empty() {
    let rows = vec![pair("alpha", false), pair("bravo", false)];
    assert_eq!(get_change_addresses(&rows), Vec::<String>::new());
}

#[test]
fn balances_group_by_address_and_sort() {
    let utxos = vec![
        ("bravo".to_string(), 300u64),
        ("alpha".to_string(), 100),
        ("bravo".to_string(), 50),
        ("alpha".to_string(), 1),
    ];
    assert_eq!(
        get_addresses_with_balance(&utxos),
        vec![("alpha".to_string(), 101), ("bravo".to_string(), 350)]
    );
}

#[test]
fn balances_of_nothing_is_empty() {
    assert_eq!(get_addresses_with_balance(&vec![]), vec![]);
}

#[test]
fn single_utxo_keeps_its_value() {
    let utxos = vec![("solo".to_string(), 123456789u64)];
    assert_eq!(
        get_addresses_with_balance(&utxos),
        vec![("solo".to_string(), 123456789)]
    );
}

#[test]
fn string_order_is_lexicographic() {
    assert!(str_lt("alpha", "bravo"));
    assert!(!str_lt("bravo", "alpha"));
    assert!(str_lt("abc", "abd"));
    assert!(str_lt("ab", "abc"));
    assert!(!str_lt("abc", "abc"));
    assert!(str_lt("", "a"));
    assert!(!str_lt("", ""));
}
