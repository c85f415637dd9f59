use vstd::prelude::*;

use crate::commands::commands::{args_view, text, text_bytes, CommandError, NotEnoughArgsError};
use crate::data_types::data_types::{Savable, SavableType, ValueView};
use crate::data_types::table::Table;

verus! {

impl Table {
    /// `set key value`: stores the text as a value of the type already under the key
    /// (text where the key is new).
    pub fn handle_set(&mut self, args: &[String]) -> (r: Result<Vec<u8>, CommandError>)
        requires
            old(self)@.set_ok(args_view(args@)),
        ensures
            (final(self)@, match r {
                Ok(b) => Ok(b@),
                Err(e) => Err(e@),
            }) == old(self)@.set_result(args_view(args@)),
    {
        if args.len() < 1 {
            return Err(CommandError::NotEnoughArgs(NotEnoughArgsError {}));
        }
        let key = args[0].clone();
        if args.len() < 2 {
            return Err(CommandError::NotEnoughArgs(NotEnoughArgsError {}));
        }
        let string_val = args[1].clone();
        assert(args_view(args@)[0] == key@ && args_view(args@)[1] == string_val@);
        let mut typ: u8 = 0;
        if let Ok(ty) = self.load(key.clone()) {
            typ = ty.signature();
        }
        let val = SavableType::from_string(string_val, typ);
        let _ = self.save(key, val);
        Ok(text_bytes("done"))
    }

    /// Stores `value` under `key`.
    pub fn save(&mut self, key: String, value: SavableType) -> (r: Result<(), CommandError>)
        ensures
            r is Ok,
            final(self)@ == old(self)@.insert(key@, value@),
    {
        self.insert(key, value);
        Ok(())
    }

    /// `touch name type`: stores an empty value of the named type (`str`, `string`, `table`
    /// or `int`).
    pub fn handle_touch(&mut self, args: &[String]) -> (r: Result<Vec<u8>, CommandError>)
        ensures
            (final(self)@, match r {
                Ok(b) => Ok(b@),
                Err(e) => Err(e@),
            }) == old(self)@.touch_result(args_view(args@)),
    {
        if args.len() < 1 {
            return Err(CommandError::NotEnoughArgs(NotEnoughArgsError {}));
        }
        let name = args[0].clone();
        if args.len() < 2 {
            return Err(CommandError::NotEnoughArgs(NotEnoughArgsError {}));
        }
        assert(args_view(args@)[0] == name@ && args_view(args@)[1] == args@[1]@);
        let value = match SavableType::from_str(args[1].as_str()) {
            Ok(v) => v,
            Err(e) => {
                return Err(CommandError::Type(e));
            },
        };
        let _ = self.save(name, value);
        Ok(text_bytes("done"))
    }
}

} // verus!
