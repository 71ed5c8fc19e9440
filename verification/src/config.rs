//! The identity material the configuration store hands the program: a key
//! pair and the remote keys it trusts. Reading and writing the store is
//! outside the library; the values pass through it as plain bytes.
use vstd::prelude::*;

verus! {

/// A locally generated key pair and the trusted remote public keys.
pub struct Config {
    pub public_key: Vec<u8>,
    pub private_key: Vec<u8>,
    pub trusted_keys: Vec<Vec<u8>>,
}

impl Config {
    /// Enters one more trusted key.
    pub fn add_trusted_key(&mut self, key: Vec<u8>)
        ensures
            final(self).public_key == old(self).public_key,
            final(self).private_key == old(self).private_key,
            final(self).trusted_keys@ == old(self).trusted_keys@.push(key),
    {
        self.trusted_keys.push(key);
    }
}

} // verus!
