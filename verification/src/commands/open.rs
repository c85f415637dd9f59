use vstd::prelude::*;
use vstd::utf8::encode_utf8;

use crate::commands::commands::{CommandError, DbHandler, NotEnoughArgsError};
use crate::data_types::data_types::Savable;

verus! {

impl DbHandler {
    /// `open dir`: answers with the name followed by a zero byte, which marks the answer as
    /// one to `open`.
    pub fn handle_open(&mut self, args: &[String]) -> (r: Result<Vec<u8>, CommandError>)
        ensures
            final(self).dump_path == old(self).dump_path,
            final(self).data == old(self).data,
            args@.len() == 0 ==> r matches Err(CommandError::NotEnoughArgs(_)),
            args@.len() > 0 ==> (r matches Ok(b) && b@ == encode_utf8(args@[0]@).push(0u8)),
    {
        if args.len() < 1 {
            return Err(CommandError::NotEnoughArgs(NotEnoughArgsError {}));
        }
        let mut dir = args[0].to_string_bin();
        dir.push(0u8);
        Ok(dir)
    }
}

} // verus!
