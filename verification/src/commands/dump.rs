use vstd::prelude::*;
use vstd::utf8::encode_utf8;

use vstd::utf8::{decode_utf8, valid_utf8};

use crate::commands::commands::{text, text_bytes, DbHandler};
use crate::data_types::data_types::{entries_bits, entry_bits, Loadable, Savable, SavableType, TableView, ValueView};
use crate::data_types::format::{
    decode_entry, entry_ok, first_zero, is_first_zero, lemma_first_zero_none,
    lemma_first_zero_unique, RawEntry,
};
use crate::data_types::integer::{nat_digits, push_digits, Int};
use crate::data_types::table::Table;
use crate::utils::{append_bytes, be32_prefix_value, lemma_be32_value_sum, sub_bytes, u32_to_bytes};

verus! {

impl DbHandler {
    /// One entry as a dump writes it: the value's type byte, the value's length in four bytes,
    /// the key, a zero byte, then the value's bytes.
    pub fn kv_bits(key: &String, value: &SavableType) -> (r: Vec<u8>)
        ensures
            r@ == entry_bits(key@, value@),
    {
        let key_bin = key.to_bin();
        let val_bin = value.to_bin();
        let size = val_bin.len();
        let mut out: Vec<u8> = Vec::new();
        out.push(value.signature());
        let header = u32_to_bytes(size as u32);
        append_bytes(&mut out, header.as_slice());
        append_bytes(&mut out, key_bin);
        out.push(0u8);
        append_bytes(&mut out, val_bin);
        assert(out@ =~= entry_bits(key@, value@));
        out
    }
}

/// The dump held a type byte that names no type.
#[derive(Debug)]
pub struct InvalidTypeSignature {
    pub signature: u8,
}

/// Why loading a dump stopped.
#[derive(Debug)]
pub enum LoadError {
    /// The dump ended inside an entry.
    UnexpectedEof,
    InvalidTypeSignature(InvalidTypeSignature),
}

/// How reading one entry of a dump at a position goes.
pub enum DumpRecord {
    /// No bytes are left.
    End,
    /// The dump ends inside the five header bytes.
    Truncated,
    /// A type byte, a length, and the key read up to the next zero byte (or, where no zero
    /// byte follows, every byte left but the last); `rest` is where the value starts.
    Record { sig: u8, key: Seq<u8>, size: int, rest: int },
}

/// The entry of dump `f` that starts at `p`.
pub open spec fn dump_record(f: Seq<u8>, p: int) -> DumpRecord {
    if p >= f.len() {
        DumpRecord::End
    } else if f.len() - (p + 1) < 4 {
        DumpRecord::Truncated
    } else {
        let size = be32_prefix_value(f.subrange(p + 1, p + 5)) as int;
        let q = p + 5;
        match first_zero(f.subrange(q, f.len() as int)) {
            Some(z) => DumpRecord::Record { sig: f[p], key: f.subrange(q, q + z), size, rest: q + z + 1 },
            None => DumpRecord::Record {
                sig: f[p],
                key: if q < f.len() {
                    f.subrange(q, f.len() - 1)
                } else {
                    Seq::empty()
                },
                size,
                rest: f.len() as int,
            },
        }
    }
}

/// How loading a dump ends.
pub enum LoadOutcome {
    Loaded,
    Eof,
    BadSignature(u8),
}

/// The root after storing a loaded entry: a table root stores it, any other root stays.
pub open spec fn save_into(root: ValueView, k: Seq<char>, v: ValueView) -> ValueView {
    match root {
        ValueView::Table(t) => ValueView::Table(t.insert(k, v)),
        _ => root,
    }
}

/// The root and the outcome after loading the entries of dump `f` from position `p` on:
/// each whole entry of type 0, 1 or 2 is read back and stored in turn; loading stops at the
/// end, at a cut-off entry, or at an entry of another type.
pub open spec fn load_from(root: ValueView, f: Seq<u8>, p: int) -> (ValueView, LoadOutcome)
    decreases f.len() - p,
{
    if p < 0 {
        (root, LoadOutcome::Loaded)
    } else {
        match dump_record(f, p) {
            DumpRecord::End => (root, LoadOutcome::Loaded),
            DumpRecord::Truncated => (root, LoadOutcome::Eof),
            DumpRecord::Record { sig, key, size, rest } => {
                if f.len() - rest < size || rest <= p {
                    (root, LoadOutcome::Eof)
                } else if sig > 2 {
                    (root, LoadOutcome::BadSignature(sig))
                } else {
                    let (k, v) = decode_entry(RawEntry { sig, key, val: f.subrange(rest, rest + size) });
                    load_from(save_into(root, k, v), f, rest + size)
                }
            },
        }
    }
}

/// Whether loading dump `f` from `p` on reads every key and every value it reaches without
/// failing: keys must be UTF-8, and values of type 0, 1 and 2 readable.
pub open spec fn load_ok(f: Seq<u8>, p: int) -> bool
    decreases f.len() - p,
{
    if p < 0 {
        true
    } else {
        match dump_record(f, p) {
            DumpRecord::End => true,
            DumpRecord::Truncated => true,
            DumpRecord::Record { sig, key, size, rest } => {
                &&& valid_utf8(key)
                &&& (f.len() - rest < size || rest <= p || sig > 2 || {
                    &&& entry_ok(RawEntry { sig, key, val: f.subrange(rest, rest + size) })
                    &&& load_ok(f, rest + size)
                })
            },
        }
    }
}

/// The bytes of the entry of `f` at `p`, as the loader reads them.
fn read_record(f: &[u8], p: usize) -> (r: Option<(u8, usize, usize, usize, usize)>)
    requires
        p < f@.len(),
    ensures
        match r {
            None => dump_record(f@, p as int) is Truncated,
            Some((sig, size, key_start, key_end, rest)) => {
                &&& dump_record(f@, p as int) == (DumpRecord::Record {
                    sig,
                    key: f@.subrange(key_start as int, key_end as int),
                    size: size as int,
                    rest: rest as int,
                })
                &&& p < key_start <= key_end <= rest <= f@.len()
            },
        },
{
    let n = f.len();
    if n - (p + 1) < 4 {
        return None;
    }
    let sig = f[p];
    let (b1, b2, b3, b4) = (f[p + 1], f[p + 2], f[p + 3], f[p + 4]);
    proof {
        lemma_be32_value_sum(b1, b2, b3, b4);
    }
    let size: usize = ((b1 as usize) << 24) + ((b2 as usize) << 16) + ((b3 as usize) << 8) + b4 as usize;
    assert(size == be32_prefix_value(f@.subrange(p + 1, p + 5)));
    let q = p + 5;
    let ghost s = f@.subrange(q as int, n as int);
    let mut j = q;
    while j < n && f[j] != 0
        invariant
            n == f@.len(),
            q <= j <= n,
            forall|i: int| q <= i < j ==> f@[i] != 0,
        decreases n - j,
    {
        j = j + 1;
    }
    if j < n {
        proof {
            assert(is_first_zero(s, j - q)) by {
                assert forall|i: int| 0 <= i < j - q implies s[i] != 0 by {
                    assert(s[i] == f@[q + i]);
                }
            }
            lemma_first_zero_unique(s, j - q);
        }
        Some((sig, size, q, j, j + 1))
    } else {
        proof {
            assert forall|i: int| 0 <= i < s.len() implies s[i] != 0 by {
                assert(s[i] == f@[q + i]);
            }
            lemma_first_zero_none(s);
        }
        if q < n {
            Some((sig, size, q, n - 1, n))
        } else {
            assert(f@.subrange(q as int, q as int) =~= Seq::<u8>::empty());
            Some((sig, size, q, q, n))
        }
    }
}

impl DbHandler {
    /// The bytes a dump writes: each entry of the root table, one after another.
    pub fn dump_bytes(&self) -> (r: Vec<u8>)
        requires
            self.data@ is Table,
        ensures
            r@ == entries_bits(self.data@->Table_0.entries),
    {
        let mut out: Vec<u8> = Vec::new();
        match &self.data {
            SavableType::Table(t) => {
                let n = t.data.len();
                let ghost es = t@.entries;
                let mut i: usize = 0;
                proof {
                    assert(es.take(0) =~= Seq::<(Seq<char>, ValueView)>::empty());
                }
                while i < n
                    invariant
                        n == t.data@.len(),
                        0 <= i <= n,
                        es == t@.entries,
                        es.len() == n,
                        self.data@ == ValueView::Table(t@),
                        out@ == entries_bits(es.take(i as int)),
                    decreases n - i,
                {
                    let entry = DbHandler::kv_bits(&t.data[i].0, &t.data[i].1);
                    append_bytes(&mut out, entry.as_slice());
                    proof {
                        assert(es.take(i + 1).drop_last() =~= es.take(i as int));
                        assert(es.take(i + 1).last() == es[i as int]);
                    }
                    i = i + 1;
                }
                proof {
                    assert(es.take(n as int) =~= es);
                }
            },
            _ => {},
        }
        out
    }

    /// A dump of the root table: the bytes written to the dump file, and the answer, which
    /// counts those bytes: "<count> bytes dumped to <path>".
    pub fn dump(&self) -> (r: (Vec<u8>, Vec<u8>))
        requires
            self.data@ is Table,
        ensures
            r.0@ == entries_bits(self.data@->Table_0.entries),
            r.1@ == nat_digits(r.0@.len()) + text(" bytes dumped to ") + encode_utf8(
                self.dump_path@,
            ),
    {
        let bytes = self.dump_bytes();
        let report = self.dump_report(bytes.len());
        (bytes, report)
    }

    /// The answer to a dump of `bytes` bytes: "<bytes> bytes dumped to <path>".
    pub fn dump_report(&self, bytes: usize) -> (r: Vec<u8>)
        ensures
            r@ == nat_digits(bytes as nat) + text(" bytes dumped to ") + encode_utf8(self.dump_path@),
    {
        let mut out: Vec<u8> = Vec::new();
        push_digits(bytes as u64, &mut out);
        append_bytes(&mut out, " bytes dumped to ".as_bytes());
        append_bytes(&mut out, self.dump_path.as_str().as_bytes());
        out
    }

    /// Whether loading `file` reads every key and value it reaches without failing.
    pub fn dump_loads(file: &[u8]) -> (r: bool)
        ensures
            r == load_ok(file@, 0),
    {
        let n = file.len();
        let mut p: usize = 0;
        while p < n
            invariant
                n == file@.len(),
                p <= n,
                load_ok(file@, 0) == load_ok(file@, p as int),
            decreases n - p,
        {
            match read_record(file, p) {
                None => {
                    return true;
                },
                Some((sig, size, key_start, key_end, rest)) => {
                    let key = sub_bytes(file, key_start, key_end);
                    if crate::data_types::string::utf8_to_string(key).is_none() {
                        return false;
                    }
                    if size > n - rest || sig > 2 {
                        return true;
                    }
                    let val = sub_bytes(file, rest, rest + size);
                    let ok = if sig == 1 {
                        Table::try_from_bin(val).is_some()
                    } else if sig == 2 {
                        Int::bin_readable(val)
                    } else {
                        crate::data_types::string::utf8_to_string(val).is_some()
                    };
                    assert(ok == entry_ok(RawEntry { sig, key: key@, val: val@ }));
                    if !ok {
                        return false;
                    }
                    p = rest + size;
                },
            }
        }
        true
    }

    /// Loads the entries of dump `file` into the root table in turn: answers "loaded" when
    /// the dump ends cleanly, and stops with an error at a cut-off entry or an unknown type.
    pub fn handle_full_load(&mut self, file: &[u8]) -> (r: Result<Vec<u8>, LoadError>)
        requires
            load_ok(file@, 0),
        ensures
            final(self).dump_path == old(self).dump_path,
            final(self).data@ == load_from(old(self).data@, file@, 0).0,
            match r {
                Ok(b) => load_from(old(self).data@, file@, 0).1 is Loaded && b@ == text("loaded"),
                Err(LoadError::UnexpectedEof) => load_from(old(self).data@, file@, 0).1 is Eof,
                Err(LoadError::InvalidTypeSignature(e)) => load_from(old(self).data@, file@, 0).1
                    == LoadOutcome::BadSignature(e.signature),
            },
    {
        let n = file.len();
        let mut p: usize = 0;
        while p < n
            invariant
                n == file@.len(),
                p <= n,
                load_ok(file@, p as int),
                self.dump_path == old(self).dump_path,
                load_from(old(self).data@, file@, 0) == load_from(self.data@, file@, p as int),
            decreases n - p,
        {
            match read_record(file, p) {
                None => {
                    return Err(LoadError::UnexpectedEof);
                },
                Some((sig, size, key_start, key_end, rest)) => {
                    let key_bytes = sub_bytes(file, key_start, key_end);
                    let key = <String as Loadable>::from_bin(key_bytes);
                    if size > n - rest {
                        return Err(LoadError::UnexpectedEof);
                    }
                    let vvec = sub_bytes(file, rest, rest + size);
                    let ghost e = RawEntry { sig, key: key_bytes@, val: vvec@ };
                    let value = if sig == 0 {
                        SavableType::String(<String as Loadable>::from_bin(vvec))
                    } else if sig == 1 {
                        SavableType::Table(<Table as Loadable>::from_bin(vvec))
                    } else if sig == 2 {
                        SavableType::Int(<Int as Loadable>::from_bin(vvec))
                    } else {
                        return Err(LoadError::InvalidTypeSignature(InvalidTypeSignature { signature: sig }));
                    };
                    assert((key@, value@) == decode_entry(e));
                    if let SavableType::Table(t) = &mut self.data {
                        let _ = t.save(key, value);
                    }
                    p = rest + size;
                },
            }
        }
        Ok(text_bytes("loaded"))
    }
}

} // verus!
