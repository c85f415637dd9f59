use vstd::prelude::*;

use crate::commands::commands::DbHandler;
use crate::data_types::data_types::{
    entries_bits, entries_view, key_differs, key_index, value_view, lemma_key_index_absent, lemma_key_index_is, lemma_insert_wf, lemma_remove_wf, ValueView,
    DBDataType, Loadable, Savable, SavableType, TableView,
};
use crate::data_types::format::{
    decode_entries, decode_entry, decode_table, entry_ok, insert_all, is_first_zero,
    lemma_bad_entry, lemma_decode_table_wf, lemma_first_zero_none, lemma_first_zero_unique, lemma_parse_raw_entry_len, lemma_parse_step, parse_raw_entries, parse_raw_entry,
    table_bin_ok, RawEntry,
};
use crate::data_types::integer::Int;
use crate::data_types::string::utf8_to_string;
use crate::utils::{append_bytes, be32_prefix_value, lemma_be32_value_sum, sub_bytes};

verus! {

/// A table of named values, with the bytes of its entries kept beside them.
#[derive(Debug)]
pub struct Table {
    pub data: Vec<(String, SavableType)>,
    pub bin_data: Vec<u8>,
}

impl View for Table {
    type V = TableView;

    open spec fn view(&self) -> TableView {
        TableView { entries: entries_view(self.data@), bin: self.bin_data@ }
    }
}

impl Default for Table {
    fn default() -> (r: Table)
        ensures
            r@ == TableView::empty(),
    {
        let r = Table { data: Vec::new(), bin_data: vec![0u8] };
        assert(r@.entries =~= TableView::empty().entries);
        assert(r@.bin =~= TableView::empty().bin);
        r
    }
}

impl Table {
    /// The position of the first entry under `key`, if there is one.
    pub fn position(&self, key: &str) -> (r: Option<usize>)
        ensures
            match r {
                Some(i) => i == key_index(self@.entries, key@),
                None => key_index(self@.entries, key@) == -1,
            },
    {
        let n = self.data.len();
        let mut i: usize = 0;
        while i < n
            invariant
                n == self.data@.len(),
                0 <= i <= n,
                forall|j: int| 0 <= j < i ==> self@.entries[j].0 != key@,
            decreases n - i,
        {
            if crate::utils::str_eq(self.data[i].0.as_str(), key) {
                proof {
                    lemma_key_index_is(self@.entries, key@, i as int);
                }
                return Some(i);
            }
            i = i + 1;
        }
        proof {
            lemma_key_index_absent(self@.entries, key@);
        }
        None
    }

    /// Stores `value` under `key`, then rewrites the table's bytes.
    pub fn insert(&mut self, key: String, value: SavableType)
        ensures
            final(self)@ == old(self)@.insert(key@, value@),
            old(self)@.wf() ==> final(self)@.wf(),
    {
        proof {
            if old(self)@.wf() {
                lemma_insert_wf(old(self)@, key@, value@);
            }
        }
        let ghost k = key@;
        let ghost v = value@;
        match self.position(key.as_str()) {
            Some(i) => {
                self.data.set(i, (key, value));
                assert(self@.entries =~= old(self)@.entries.update(i as int, (k, v)));
            },
            None => {
                self.data.push((key, value));
                assert(self@.entries =~= old(self)@.entries.push((k, v)));
            },
        }
        self.update_bin_data();
    }

    /// Takes every entry under `key` out, then rewrites the table's bytes.
    pub fn remove(&mut self, key: String)
        ensures
            final(self)@ == old(self)@.remove(key@),
            old(self)@.wf() ==> final(self)@.wf(),
    {
        proof {
            if old(self)@.wf() {
                lemma_remove_wf(old(self)@, key@);
            }
        }
        let ghost pred = key_differs(key@);
        let ghost old_entries = old(self)@.entries;
        let mut rest: Vec<(String, SavableType)> = Vec::new();
        std::mem::swap(&mut rest, &mut self.data);
        let mut kept: Vec<(String, SavableType)> = Vec::new();
        let n = rest.len();
        let mut i: usize = 0;
        while i < n
            invariant
                n == old(self).data@.len(),
                0 <= i <= n,
                rest@ == old(self).data@.skip(i as int),
                old_entries == entries_view(old(self).data@),
                pred == key_differs(key@),
                entries_view(kept@) == old_entries.take(i as int).filter(pred),
            decreases n - i,
        {
            proof {
                reveal_with_fuel(Seq::<_>::filter, 1);
                assert(old_entries.take(i + 1).drop_last() =~= old_entries.take(i as int));
            }
            let e = rest.remove(0);
            assert(e == old(self).data@[i as int]);
            assert(old_entries[i as int] == (e.0@, value_view(e.1)));
            assert(old_entries.take(i + 1).last() == old_entries[i as int]);
            assert(pred(old_entries[i as int]) == (e.0@ != key@));
            if !crate::utils::str_eq(e.0.as_str(), key.as_str()) {
                let ghost before = kept@;
                kept.push(e);
                assert(entries_view(kept@) =~= entries_view(before).push(old_entries[i as int]));
            }
            i = i + 1;
            assert(rest@ =~= old(self).data@.skip(i as int));
        }
        assert(old_entries.take(n as int) =~= old_entries);
        self.data = kept;
        self.update_bin_data();
    }

    /// Rewrites the table's bytes from its entries.
    pub fn update_bin_data(&mut self)
        ensures
            final(self)@ == old(self)@.refreshed(),
            old(self)@.wf() ==> final(self)@.wf(),
    {
        let mut bin: Vec<u8> = Vec::new();
        let n = self.data.len();
        let mut i: usize = 0;
        while i < n
            invariant
                n == self.data@.len(),
                0 <= i <= n,
                self.data@ == old(self).data@,
                bin@ == entries_bits(self@.entries.take(i as int)),
            decreases n - i,
        {
            let bits = DbHandler::kv_bits(&self.data[i].0, &self.data[i].1);
            append_bytes(&mut bin, bits.as_slice());
            proof {
                assert(self@.entries.take(i + 1).drop_last() =~= self@.entries.take(i as int));
            }
            i = i + 1;
        }
        assert(self@.entries.take(n as int) =~= self@.entries);
        self.bin_data = bin;
        assert(self@.entries =~= old(self)@.entries);
    }
}

impl Table {
    /// Reads `b` as the bytes of a table, storing its entries in turn into a new table;
    /// `None` exactly where `b` is not whole, readable entries.
    pub fn try_from_bin(b: &[u8]) -> (r: Option<Table>)
        ensures
            r is Some <==> table_bin_ok(b@),
            r matches Some(t) ==> t@ == decode_table(b@) && t@.wf(),
        decreases b@.len(),
    {
        proof {
            lemma_decode_table_wf(b@);
        }
        let n = b.len();
        let mut table = Table::default();
        let mut idx: usize = 0;
        let ghost mut done: Seq<RawEntry> = Seq::empty();
        proof {
            assert(b@.skip(0) =~= b@);
            assert(done + parse_raw_entries(b@)->0 =~= parse_raw_entries(b@)->0);
            assert(decode_entries(done, b@) =~= Seq::<(Seq<char>, ValueView)>::empty());
        }
        while idx < n
            invariant
                n == b@.len(),
                idx <= n,
                parse_raw_entries(b@) == (match parse_raw_entries(b@.skip(idx as int)) {
                    Some(rest) => Some(done + rest),
                    None => None,
                }),
                forall|i: int| 0 <= i < done.len() ==> entry_ok(#[trigger] done[i]),
                forall|i: int| 0 <= i < done.len() ==> #[trigger] done[i].val.len() < b@.len(),
                table@ == insert_all(TableView::empty(), decode_entries(done, b@)),
            decreases n - idx,
        {
            let ghost c = b@.skip(idx as int);
            let ghost start = idx as int;
            assert(c.len() > 0);
            if n - idx < 5 {
                assert(parse_raw_entry(c) is None);
                return None;
            }
            let sig = b[idx];
            let (b1, b2, b3, b4) = (b[idx + 1], b[idx + 2], b[idx + 3], b[idx + 4]);
            proof {
                lemma_be32_value_sum(b1, b2, b3, b4);
            }
            let size: usize = ((b1 as usize) << 24) + ((b2 as usize) << 16) + ((b3 as usize) << 8)
                + b4 as usize;
            assert(size == be32_prefix_value(c.subrange(1, 5)));
            idx = idx + 5;
            let key_start = idx;
            while idx < n && b[idx] != 0
                invariant
                    n == b@.len(),
                    key_start <= idx <= n,
                    forall|j: int| key_start <= j < idx ==> b@[j] != 0,
                decreases n - idx,
            {
                idx = idx + 1;
            }
            if idx == n {
                proof {
                    assert forall|j: int| 0 <= j < c.skip(5).len() implies c.skip(5)[j] != 0 by {
                        assert(c.skip(5)[j] == b@[start + 5 + j]);
                    }
                    lemma_first_zero_none(c.skip(5));
                }
                assert(parse_raw_entry(c) is None);
                return None;
            }
            let key_end = idx;
            let ghost z = key_end - key_start;
            proof {
                assert(is_first_zero(c.skip(5), z)) by {
                    assert forall|j: int| 0 <= j < z implies c.skip(5)[j] != 0 by {
                        assert(c.skip(5)[j] == b@[key_start + j]);
                    }
                }
                lemma_first_zero_unique(c.skip(5), z);
            }
            idx = idx + 1;
            if size > n - idx {
                assert(parse_raw_entry(c) is None);
                return None;
            }
            let key_bytes = sub_bytes(b, key_start, key_end);
            let value_bytes = sub_bytes(b, idx, idx + size);
            idx = idx + size;
            let ghost e = RawEntry { sig, key: key_bytes@, val: value_bytes@ };
            proof {
                assert(parse_raw_entry(c) == Some((e, idx - start))) by {
                    assert(c.subrange(5, 5 + z) =~= key_bytes@);
                    assert(c.subrange(5 + z + 1, 5 + z + 1 + size) =~= value_bytes@);
                }
                lemma_parse_raw_entry_len(c);
                lemma_parse_step(b@, start, idx as int, done, e);
            }
            let key = match utf8_to_string(key_bytes) {
                Some(k) => k,
                None => {
                    proof {
                        lemma_bad_entry(b@, idx as int, done, e);
                    }
                    return None;
                },
            };
            let value = if sig == 1 {
                match Table::try_from_bin(value_bytes) {
                    Some(t) => SavableType::Table(t),
                    None => {
                        proof {
                            lemma_bad_entry(b@, idx as int, done, e);
                        }
                        return None;
                    },
                }
            } else if sig == 2 {
                if !Int::bin_readable(value_bytes) {
                    proof {
                        lemma_bad_entry(b@, idx as int, done, e);
                    }
                    return None;
                }
                SavableType::Int(<Int as Loadable>::from_bin(value_bytes))
            } else {
                match utf8_to_string(value_bytes) {
                    Some(s) => SavableType::String(s),
                    None => {
                        proof {
                            lemma_bad_entry(b@, idx as int, done, e);
                        }
                        return None;
                    },
                }
            };
            assert(entry_ok(e));
            assert((key@, value@) == decode_entry(e));
            let ghost before = done;
            proof {
                done = done.push(e);
                assert(decode_entries(done, b@).drop_last() =~= decode_entries(before, b@));
            }
            table.insert(key, value);
        }
        proof {
            assert(b@.skip(n as int) =~= Seq::<u8>::empty());
            assert(done + Seq::<RawEntry>::empty() =~= done);
        }
        Some(table)
    }
}

impl Savable for Table {
    open spec fn spec_to_bin(&self) -> Seq<u8> {
        self.bin_data@
    }

    open spec fn spec_to_string_bin(&self) -> Seq<u8> {
        self.bin_data@
    }

    open spec fn spec_signature(&self) -> u8 {
        1
    }

    fn to_bin(&self) -> (r: &[u8]) {
        self.bin_data.as_slice()
    }

    fn signature(&self) -> (r: u8) {
        1
    }

    fn to_string_bin(&self) -> (r: Vec<u8>) {
        let mut out: Vec<u8> = Vec::new();
        append_bytes(&mut out, self.bin_data.as_slice());
        out
    }
}

impl Loadable for Table {
    open spec fn loads_from_str(s: Seq<char>) -> bool {
        true
    }

    open spec fn loaded_from_str(s: Seq<char>, r: Table) -> bool {
        r@ == TableView::empty()
    }

    open spec fn loads_from_bin(b: Seq<u8>) -> bool {
        table_bin_ok(b)
    }

    open spec fn loaded_from_bin(b: Seq<u8>, r: Table) -> bool {
        r@ == decode_table(b)
    }

    fn from_str(_s: &str) -> (r: Table) {
        Table::default()
    }

    fn from_bin(b: &[u8]) -> (r: Table) {
        match Table::try_from_bin(b) {
            Some(t) => t,
            None => Table::default(),
        }
    }
}

impl DBDataType for Table {

}

} // verus!
