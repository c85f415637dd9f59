use vstd::prelude::*;

use crate::commands::commands::{args_view, text, text_bytes, CommandError, ErrorView, NotEnoughArgsError};
use crate::commands::load::{GetError, KeyNotFoundError};
use crate::data_types::data_types::{
    entries_view, key_index, lemma_key_index_found, SavableType, TableView, ValueView,
};
use crate::data_types::integer::Int;
use crate::data_types::table::Table;

verus! {

impl TableView {
    /// `inc key`: adds one to the integer under the key, in place; the table's bytes are left
    /// as they were.
    pub open spec fn inc_result(self, args: Seq<Seq<char>>) -> (TableView, Result<Seq<u8>, ErrorView>) {
        if args.len() < 1 {
            (self, Err(ErrorView::NotEnoughArgs))
        } else {
            let i = key_index(self.entries, args[0]);
            if i < 0 {
                (self, Err(ErrorView::KeyNotFound(args[0])))
            } else {
                match self.entries[i].1 {
                    ValueView::Int(x) => (
                        TableView {
                            entries: self.entries.update(i, (args[0], ValueView::Int((x + 1) as i64))),
                            bin: self.bin,
                        },
                        Ok(text("done")),
                    ),
                    _ => (self, Ok(text("inc can only be used on ints"))),
                }
            }
        }
    }

    /// Whether `inc` can add one without overflowing.
    pub open spec fn inc_ok(self, args: Seq<Seq<char>>) -> bool {
        args.len() >= 1 ==> match self.get(args[0]) {
            Some(ValueView::Int(x)) => x < i64::MAX,
            _ => true,
        }
    }
}

impl Table {
    /// `inc key`: adds one to the integer under the key.
    pub fn handle_inc(&mut self, args: &[String]) -> (r: Result<Vec<u8>, CommandError>)
        requires
            old(self)@.inc_ok(args_view(args@)),
        ensures
            (final(self)@, match r {
                Ok(b) => Ok(b@),
                Err(e) => Err(e@),
            }) == old(self)@.inc_result(args_view(args@)),
    {
        if args.len() < 1 {
            return Err(CommandError::NotEnoughArgs(NotEnoughArgsError {}));
        }
        let var = args[0].clone();
        assert(args_view(args@)[0] == var@);
        match self.position(var.as_str()) {
            None => Err(CommandError::Get(GetError::KeyNotFoundError(KeyNotFoundError { key: var }))),
            Some(i) => {
                proof {
                    lemma_key_index_found(self@.entries, var@);
                }
                let current = match &self.data[i].1 {
                    SavableType::Int(t) => Some(t.value()),
                    _ => None,
                };
                match current {
                    Some(x) => {
                        let k = self.data[i].0.clone();
                        let ghost before = self.data@;
                        self.data.set(i, (k, SavableType::Int(Int::new(x + 1))));
                        assert(entries_view(self.data@) =~= old(self)@.entries.update(
                            i as int,
                            (var@, ValueView::Int((x + 1) as i64)),
                        ));
                        Ok(text_bytes("done"))
                    },
                    None => Ok(text_bytes("inc can only be used on ints")),
                }
            },
        }
    }
}

} // verus!
