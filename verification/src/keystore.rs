//! Access to the OS credential store. Secrets flow only through here: the
//! persisted document never holds more than a byte-length hint.

use vstd::prelude::*;

verus! {

#[verifier::external_type_specification]
#[verifier::external_body]
pub struct ExEntry(keyring_core::Entry);

/// Relies on `keyring_core::Entry::new`: a handle to the credential-store
/// entry for (`service`, `user`); `Err` carries the store's formatted
/// refusal.
#[verifier::external_body]
fn entry_new(service: &str, user: &str) -> (r: Result<keyring_core::Entry, String>) {
    match keyring_core::Entry::new(service, user) {
        Ok(e) => Ok(e),
        Err(err) => Err(format!("{}", err)),
    }
}

/// Relies on `keyring_core::Entry::set_password`: stores `password` as the
/// secret of this entry; `Err` carries the store's formatted refusal.
#[verifier::external_body]
fn entry_set_password(entry: &keyring_core::Entry, password: &str) -> (r: Result<(), String>) {
    match entry.set_password(password) {
        Ok(()) => Ok(()),
        Err(err) => Err(format!("{}", err)),
    }
}

/// Writes `password` into the credential store under (`service`, `user`).
/// The store is outside the library, so nothing is assumed of the outcome
/// beyond success or a description of the failure.
pub fn store_password(service: &str, user: &str, password: &str) -> (r: Result<(), String>) {
    match entry_new(service, user) {
        Ok(entry) => entry_set_password(&entry, password),
        Err(msg) => Err(msg),
    }
}

} // verus!
