//! The account reference resolver: the resolved key list keeps static keys
//! first, then pre-resolved lists, then looked-up writable keys, then
//! looked-up readonly keys; bad tables and bad indices fail hard.

use drift_ingest::resolver::{resolve_accounts, AccountResolutionFailure, LookupTableLoad};
use solana_sdk::address_lookup_table::state::{AddressLookupTable, LookupTableMeta};
use solana_sdk::pubkey::Pubkey;
use std::borrow::Cow;

fn table_bytes(addresses: Vec<Pubkey>) -> Vec<u8> {
    let table = AddressLookupTable {
        meta: LookupTableMeta::default(),
        addresses: Cow::Owned(addresses),
    };
    table.serialize_for_tests().unwrap()
}

fn keys(n: usize) -> Vec<String> {
    (0..n).map(|i| format!("static{}", i)).collect()
}

#[test]
fn five_statics_two_writable_one_readonly_gives_eight_ordered_keys() {
    let statics = keys(5);
    let a = Pubkey::new_unique();
    let b = Pubkey::new_unique();
    let c = Pubkey::new_unique();
    let data = table_bytes(vec![a, b, c]);
    let directive = LookupTableLoad {
        data,
        writable_indexes: vec![0, 2],
        readonly_indexes: vec![1],
    };
    let r = resolve_accounts(&statics, &Vec::new(), &Vec::new(), &vec![directive]).unwrap();
    assert_eq!(r.len(), 8);
    assert_eq!(&r[..5], &statics[..]);
    assert_eq!(r[5], a.to_string());
    assert_eq!(r[6], c.to_string());
    assert_eq!(r[7], b.to_string());
}

#[test]
fn pre_resolved_lists_precede_looked_up_keys() {
    let statics = keys(2);
    let pre_w = vec!["loadedw".to_string()];
    let pre_r = vec!["loadedr".to_string()];
    let a = Pubkey::new_unique();
    let b = Pubkey::new_unique();
    let directive = LookupTableLoad {
        data: table_bytes(vec![a, b]),
        writable_indexes: vec![1],
        readonly_indexes: vec![0],
    };
    let r = resolve_accounts(&statics, &pre_w, &pre_r, &vec![directive]).unwrap();
    assert_eq!(
        r,
        vec![
            "static0".to_string(),
            "static1".to_string(),
            "loadedw".to_string(),
            "loadedr".to_string(),
            b.to_string(),
            a.to_string(),
        ]
    );
}

#[test]
fn writable_keys_of_all_directives_precede_readonly_keys() {
    let a = Pubkey::new_unique();
    let b = Pubkey::new_unique();
    let c = Pubkey::new_unique();
    let d = Pubkey::new_unique();
    let d1 = LookupTableLoad {
        data: table_bytes(vec![a, b]),
        writable_indexes: vec![0],
        readonly_indexes: vec![1],
    };
    let d2 = LookupTableLoad {
        data: table_bytes(vec![c, d]),
        writable_indexes: vec![1],
        readonly_indexes: vec![0],
    };
    let r = resolve_accounts(&Vec::new(), &Vec::new(), &Vec::new(), &vec![d1, d2]).unwrap();
    assert_eq!(
        r,
        vec![a.to_string(), d.to_string(), b.to_string(), c.to_string()]
    );
}

#[test]
fn no_directives_gives_statics_only() {
    let statics = keys(3);
    let r = resolve_accounts(&statics, &Vec::new(), &Vec::new(), &Vec::new()).unwrap();
    assert_eq!(r, statics);
}

#[test]
fn malformed_table_fails_resolution() {
    let directive = LookupTableLoad {
        data: vec![1, 2, 3],
        writable_indexes: vec![],
        readonly_indexes: vec![],
    };
    let r = resolve_accounts(&keys(1), &Vec::new(), &Vec::new(), &vec![directive]);
    assert_eq!(r, Err(AccountResolutionFailure::MalformedTable));
}

#[test]
fn out_of_range_index_fails_resolution() {
    let a = Pubkey::new_unique();
    let directive = LookupTableLoad {
        data: table_bytes(vec![a]),
        writable_indexes: vec![0],
        readonly_indexes: vec![5],
    };
    let r = resolve_accounts(&keys(1), &Vec::new(), &Vec::new(), &vec![directive]);
    assert_eq!(r, Err(AccountResolutionFailure::IndexOutOfRange));
}
