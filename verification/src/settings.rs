//! The connection settings of the object store.

use vstd::prelude::*;

verus! {

/// Where and as whom to reach the object store.
#[derive(Debug, Clone, PartialEq, Eq)]
pub struct Settings {
    pub endpoint: String,
    pub region: String,
    pub bucket_name: String,
    pub access_key: String,
    pub secret_key: String,
}

/// The settings file read when none is named.
pub open spec fn default_config_file() -> Seq<char> {
    seq!['c', 'o', 'n', 'f', 'i', 'g', '.', 'y', 'a', 'm', 'l']
}

/// The settings file to read: the one named, else `config.yaml`.
pub fn config_file_path(named: Option<String>) -> (r: String)
    ensures
        named matches Some(p) ==> r@ == p@,
        named is None ==> r@ == default_config_file(),
{
    match named {
        Some(p) => p,
        None => {
            proof { reveal_strlit("config.yaml"); }
            let r = String::from_str("config.yaml");
            assert(r@ =~= default_config_file());
            r
        },
    }
}

} // verus!
