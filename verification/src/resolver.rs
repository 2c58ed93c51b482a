//! The account reference resolver: expand a transaction's account key list
//! from its static keys, any pre-resolved address lists supplied by the
//! transport, and the requested entries of each address lookup table.

use vstd::prelude::*;
use crate::models::clone_strings;

verus! {

/// Failure to resolve a transaction's account references.  Fatal for that
/// transaction's extraction only; a surrounding batch continues.
#[derive(Clone, Copy, Debug, PartialEq, Eq, Structural)]
pub enum AccountResolutionFailure {
    /// A lookup table's bytes could not be fetched.
    Unavailable,
    /// A lookup table's bytes do not deserialize into an address table.
    MalformedTable,
    /// A requested index lies outside the table's address list.
    IndexOutOfRange,
}

/// One lookup directive with its table's raw bytes, as fetched by the
/// injected byte-fetch capability: the requested writable and readonly
/// entries of the table extend the transaction's account list.
#[derive(Clone, Debug, PartialEq)]
pub struct LookupTableLoad {
    pub data: Vec<u8>,
    pub writable_indexes: Vec<u8>,
    pub readonly_indexes: Vec<u8>,
}

/// The address list held in a serialized address lookup table, or nothing
/// when the bytes do not deserialize; a function of the bytes alone.
pub uninterp spec fn lookup_table_addresses(data: Seq<u8>) -> Option<Seq<Seq<char>>>;

/// Relies on solana_sdk's `AddressLookupTable::deserialize` to parse the
/// account bytes of an address lookup table, and on `Pubkey`'s base58
/// display form for each stored address; the outcome depends on the bytes
/// alone.
#[verifier::external_body]
fn parse_lookup_table(data: &Vec<u8>) -> (r: Option<Vec<String>>)
    ensures
        match r {
            Some(v) => lookup_table_addresses(data@) == Some(v.deep_view()),
            None => lookup_table_addresses(data@) is None,
        },
{
    match solana_sdk::address_lookup_table::state::AddressLookupTable::deserialize(data) {
        Ok(table) => Some(table.addresses.iter().map(|a| a.to_string()).collect()),
        Err(_) => None,
    }
}

/// The keys of `accounts` at the given indices, in requested order, or
/// nothing when an index is out of range.
pub open spec fn spec_keys_at(accounts: Seq<Seq<char>>, idxs: Seq<u8>) -> Option<Seq<Seq<char>>>
    decreases idxs,
{
    if idxs.len() == 0 {
        Some(Seq::empty())
    } else if idxs[0] < accounts.len() {
        match spec_keys_at(accounts, idxs.subrange(1, idxs.len() as int)) {
            Some(rest) => Some(seq![accounts[idxs[0] as int]] + rest),
            None => None,
        }
    } else {
        None
    }
}

/// Select the keys of `accounts` at the given indices, in requested order.
pub fn keys_at(accounts: &Vec<String>, idxs: &Vec<u8>) -> (r: Option<Vec<String>>)
    ensures
        match r {
            Some(v) => spec_keys_at(accounts.deep_view(), idxs@) == Some(v.deep_view()),
            None => spec_keys_at(accounts.deep_view(), idxs@) is None,
        },
{
    let r = keys_at_from(accounts, idxs, 0);
    proof {
        assert(idxs@.skip(0) =~= idxs@);
    }
    r
}

/// Select the keys at the indices from position `i` on.
fn keys_at_from(accounts: &Vec<String>, idxs: &Vec<u8>, i: usize) -> (r: Option<Vec<String>>)
    requires
        i <= idxs@.len(),
    ensures
        match r {
            Some(v) => spec_keys_at(accounts.deep_view(), idxs@.skip(i as int)) == Some(
                v.deep_view(),
            ),
            None => spec_keys_at(accounts.deep_view(), idxs@.skip(i as int)) is None,
        },
    decreases idxs@.len() - i,
{
    let ghost acc = accounts.deep_view();
    if i == idxs.len() {
        let v: Vec<String> = Vec::new();
        proof {
            assert(idxs@.skip(i as int) =~= Seq::<u8>::empty());
            assert(v.deep_view() =~= Seq::<Seq<char>>::empty());
        }
        Some(v)
    } else {
        let ghost rest_s = idxs@.skip(i as int);
        proof {
            assert(rest_s[0] == idxs@[i as int]);
            assert(rest_s.subrange(1, rest_s.len() as int) =~= idxs@.skip(i as int + 1));
        }
        let ix = idxs[i] as usize;
        if ix < accounts.len() {
            match keys_at_from(accounts, idxs, i + 1) {
                Some(mut rest) => {
                    let ghost rest_deep = rest.deep_view();
                    rest.insert(0, accounts[ix].clone());
                    proof {
                        assert(rest@[0]@ == acc[ix as int]);
                        assert(rest.deep_view() =~= seq![acc[ix as int]] + rest_deep);
                    }
                    Some(rest)
                }
                None => None,
            }
        } else {
            None
        }
    }
}

/// The writable and readonly selections of every directive, in directive
/// order: all writable selections concatenated, and all readonly selections
/// concatenated.  The first malformed table or out-of-range index fails the
/// whole resolution.
pub open spec fn spec_selections(dirs: Seq<LookupTableLoad>) -> Result<
    (Seq<Seq<char>>, Seq<Seq<char>>),
    AccountResolutionFailure,
>
    decreases dirs,
{
    if dirs.len() == 0 {
        Ok((Seq::empty(), Seq::empty()))
    } else {
        match lookup_table_addresses(dirs[0].data@) {
            None => Err(AccountResolutionFailure::MalformedTable),
            Some(addrs) => match (
                spec_keys_at(addrs, dirs[0].writable_indexes@),
                spec_keys_at(addrs, dirs[0].readonly_indexes@),
            ) {
                (Some(w0), Some(r0)) => match spec_selections(
                    dirs.subrange(1, dirs.len() as int),
                ) {
                    Ok((w, r)) => Ok((w0 + w, r0 + r)),
                    Err(e) => Err(e),
                },
                _ => Err(AccountResolutionFailure::IndexOutOfRange),
            },
        }
    }
}

/// The fully resolved account key list of one transaction: the static keys
/// in original order, then the transport's pre-resolved writable and
/// readonly lists, then every directive's writable selections in requested
/// order, then every directive's readonly selections in requested order.
pub open spec fn spec_resolve(
    statics: Seq<Seq<char>>,
    pre_writable: Seq<Seq<char>>,
    pre_readonly: Seq<Seq<char>>,
    dirs: Seq<LookupTableLoad>,
) -> Result<Seq<Seq<char>>, AccountResolutionFailure> {
    match spec_selections(dirs) {
        Ok((w, r)) => Ok(statics + pre_writable + pre_readonly + w + r),
        Err(e) => Err(e),
    }
}

/// Resolve one transaction's account key list per the order invariant:
/// static keys, then pre-resolved lists, then looked-up writable keys, then
/// looked-up readonly keys.  A malformed table or an out-of-range index is
/// a hard, transaction-scoped failure, never silently skipped.
pub fn resolve_accounts(
    static_keys: &Vec<String>,
    pre_writable: &Vec<String>,
    pre_readonly: &Vec<String>,
    directives: &Vec<LookupTableLoad>,
) -> (r: Result<Vec<String>, AccountResolutionFailure>)
    ensures
        match r {
            Ok(v) => spec_resolve(
                static_keys.deep_view(),
                pre_writable.deep_view(),
                pre_readonly.deep_view(),
                directives@,
            ) == Ok::<Seq<Seq<char>>, AccountResolutionFailure>(v.deep_view()),
            Err(e) => spec_resolve(
                static_keys.deep_view(),
                pre_writable.deep_view(),
                pre_readonly.deep_view(),
                directives@,
            ) == Err::<Seq<Seq<char>>, AccountResolutionFailure>(e),
        },
{
    match resolve_selections(directives, 0) {
        Ok((writable, readonly)) => {
            let mut out = clone_strings(static_keys);
            let mut pw = clone_strings(pre_writable);
            let mut pr = clone_strings(pre_readonly);
            let mut w = writable;
            let mut rd = readonly;
            let ghost wd = w.deep_view();
            let ghost rdd = rd.deep_view();
            out.append(&mut pw);
            out.append(&mut pr);
            out.append(&mut w);
            out.append(&mut rd);
            proof {
                assert(directives@.skip(0) =~= directives@);
                assert(out.deep_view() =~= static_keys.deep_view() + pre_writable.deep_view()
                    + pre_readonly.deep_view() + wd + rdd);
            }
            Ok(out)
        }
        Err(e) => {
            proof {
                assert(directives@.skip(0) =~= directives@);
            }
            Err(e)
        }
    }
}

/// Resolve the selections of the directives from position `i` on.
fn resolve_selections(directives: &Vec<LookupTableLoad>, i: usize) -> (r: Result<
    (Vec<String>, Vec<String>),
    AccountResolutionFailure,
>)
    requires
        i <= directives@.len(),
    ensures
        match r {
            Ok(p) => spec_selections(directives@.skip(i as int)) == Ok::<
                (Seq<Seq<char>>, Seq<Seq<char>>),
                AccountResolutionFailure,
            >((p.0.deep_view(), p.1.deep_view())),
            Err(e) => spec_selections(directives@.skip(i as int)) == Err::<
                (Seq<Seq<char>>, Seq<Seq<char>>),
                AccountResolutionFailure,
            >(e),
        },
    decreases directives@.len() - i,
{
    if i == directives.len() {
        let w: Vec<String> = Vec::new();
        let r: Vec<String> = Vec::new();
        proof {
            assert(directives@.skip(i as int) =~= Seq::<LookupTableLoad>::empty());
            assert(w.deep_view() =~= Seq::<Seq<char>>::empty());
            assert(r.deep_view() =~= Seq::<Seq<char>>::empty());
        }
        Ok((w, r))
    } else {
        let ghost rest_s = directives@.skip(i as int);
        proof {
            assert(rest_s[0] == directives@[i as int]);
            assert(rest_s.subrange(1, rest_s.len() as int) =~= directives@.skip(i as int + 1));
        }
        let d = &directives[i];
        match parse_lookup_table(&d.data) {
            None => Err(AccountResolutionFailure::MalformedTable),
            Some(addrs) => {
                let w0 = match keys_at(&addrs, &d.writable_indexes) {
                    Some(v) => v,
                    None => {
                        return Err(AccountResolutionFailure::IndexOutOfRange);
                    }
                };
                let r0 = match keys_at(&addrs, &d.readonly_indexes) {
                    Some(v) => v,
                    None => {
                        return Err(AccountResolutionFailure::IndexOutOfRange);
                    }
                };
                match resolve_selections(directives, i + 1) {
                    Ok((mut w, mut rd)) => {
                        let ghost w_rest = w.deep_view();
                        let ghost r_rest = rd.deep_view();
                        let mut wout = w0;
                        let mut rout = r0;
                        let ghost w0d = wout.deep_view();
                        let ghost r0d = rout.deep_view();
                        wout.append(&mut w);
                        rout.append(&mut rd);
                        proof {
                            assert(wout.deep_view() =~= w0d + w_rest);
                            assert(rout.deep_view() =~= r0d + r_rest);
                        }
                        Ok((wout, rout))
                    }
                    Err(e) => Err(e),
                }
            }
        }
    }
}

} // verus!
