use vstd::prelude::*;

use crate::commands::commands::{args_view, CommandError, NotEnoughArgsError};
use crate::data_types::data_types::{key_index, lemma_key_index_found, Savable, SavableType, TableView};
use crate::data_types::table::Table;

verus! {

/// No value is stored under `key`.
#[derive(Debug)]
pub struct KeyNotFoundError {
    pub key: String,
}

/// Why a lookup failed.
#[derive(Debug)]
pub enum GetError {
    KeyNotFoundError(KeyNotFoundError),
    NotEnoughArgsError(NotEnoughArgsError),
}

impl Table {
    /// The value stored under `key`.
    pub fn load(&self, key: String) -> (r: Result<&SavableType, GetError>)
        ensures
            match r {
                Ok(v) => {
                    &&& key_index(self@.entries, key@) >= 0
                    &&& *v == self.data@[key_index(self@.entries, key@)].1
                    &&& self@.get(key@) == Some(v@)
                },
                Err(e) => {
                    &&& key_index(self@.entries, key@) == -1
                    &&& self@.get(key@) is None
                    &&& e matches GetError::KeyNotFoundError(k) && k.key@ == key@
                },
            },
    {
        match self.position(key.as_str()) {
            Some(i) => {
                proof {
                    lemma_key_index_found(self@.entries, key@);
                }
                Ok(&self.data[i].1)
            },
            None => Err(GetError::KeyNotFoundError(KeyNotFoundError { key })),
        }
    }

    /// `get key`: answers with the text of the value under the key.
    pub fn handle_get(&mut self, args: &[String]) -> (r: Result<Vec<u8>, CommandError>)
        ensures
            (final(self)@, match r {
                Ok(b) => Ok(b@),
                Err(e) => Err(e@),
            }) == old(self)@.get_result(args_view(args@)),
    {
        if args.len() < 1 {
            return Err(CommandError::Get(GetError::NotEnoughArgsError(NotEnoughArgsError {})));
        }
        assert(args_view(args@)[0] == args@[0]@);
        match self.load(args[0].clone()) {
            Ok(v) => Ok(v.to_string_bin()),
            Err(e) => Err(CommandError::Get(e)),
        }
    }
}

} // verus!
