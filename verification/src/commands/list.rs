use vstd::prelude::*;
use vstd::utf8::encode_utf8;

use crate::commands::commands::CommandError;
use crate::data_types::data_types::{Savable, ValueView};
use crate::data_types::table::Table;

verus! {

/// The keys listed one per line; a key that comes while the text is still empty starts it
/// afresh, without a line break.
pub open spec fn list_text(keys: Seq<Seq<char>>) -> Seq<char>
    decreases keys.len(),
{
    if keys.len() == 0 {
        Seq::empty()
    } else {
        let acc = list_text(keys.drop_last());
        if acc.len() == 0 {
            keys.last()
        } else {
            acc + seq!['\n'] + keys.last()
        }
    }
}

/// The keys of entries, in order.
pub open spec fn keys_of(es: Seq<(Seq<char>, ValueView)>) -> Seq<Seq<char>> {
    es.map_values(|e: (Seq<char>, ValueView)| e.0)
}

impl Table {
    /// `list`: answers with the keys of the table, one per line.
    pub fn handle_list(&mut self, args: &[String]) -> (r: Result<Vec<u8>, CommandError>)
        ensures
            final(self)@ == old(self)@,
            r matches Ok(b) && b@ == encode_utf8(list_text(keys_of(old(self)@.entries))),
    {
        let ghost keys = keys_of(self@.entries);
        let mut concated = String::new();
        let n = self.data.len();
        let mut i: usize = 0;
        while i < n
            invariant
                n == self.data@.len(),
                0 <= i <= n,
                keys == keys_of(self@.entries),
                concated@ == list_text(keys.take(i as int)),
            decreases n - i,
        {
            proof {
                reveal_strlit("\n");
                assert(keys.take(i + 1).drop_last() =~= keys.take(i as int));
                assert(keys[i as int] == self.data@[i as int].0@);
            }
            if concated.as_str().is_empty() {
                concated = self.data[i].0.clone();
            } else {
                concated.append("\n");
                concated.append(self.data[i].0.as_str());
            }
            i = i + 1;
        }
        assert(keys.take(n as int) =~= keys);
        Ok(concated.to_string_bin())
    }
}

} // verus!
