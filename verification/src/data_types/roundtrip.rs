use vstd::prelude::*;
use vstd::utf8::encode_utf8;

use crate::data_types::data_types::{entries_bits, keys_distinct, TableView, ValueView};
use crate::data_types::format::{
    decode_entries, decode_entry, decode_table, entries_ok, entry_ok, lemma_entries_bits_raw,
    lemma_insert_all_distinct, lemma_parse_raw_entries_shorter, lemma_raw_roundtrip, raw_entries_of,
    raw_entry_of, raw_entry_writable, table_bin_ok, parse_raw_entries, vals_shorter,
};
use crate::data_types::integer::lemma_be64_zero;

verus! {

/// Whether a table's bytes are the fresh bytes of its entries, all of them writable, with
/// distinct keys, integers that are 0, at least one entry, and nested tables of the same kind.
pub open spec fn canonical(t: TableView) -> bool
    decreases t,
{
    &&& t.entries.len() > 0
    &&& t.bin == entries_bits(t.entries)
    &&& entries_canonical(t.entries)
}

/// Whether entries have distinct keys, can be written and read back, hold only the integer 0,
/// and nest only tables that are canonical.
pub open spec fn entries_canonical(es: Seq<(Seq<char>, ValueView)>) -> bool
    decreases es,
{
    &&& forall|i: int, j: int| 0 <= i < j < es.len() ==> es[i].0 != es[j].0
    &&& forall|i: int|
        0 <= i < es.len() ==> raw_entry_writable(#[trigger] raw_entry_of(es[i].0, es[i].1))
    &&& forall|i: int|
        0 <= i < es.len() ==> match #[trigger] es[i].1 {
            ValueView::Table(u) => canonical(u),
            ValueView::Int(x) => x == 0,
            _ => true,
        }
}

/// Whether a table's bytes are the fresh bytes of its entries, all of them writable, with
/// distinct keys, integers that are 0, and nested tables of the same kind (empty ones too).
pub open spec fn dumpable(t: TableView) -> bool
    decreases t,
{
    &&& t.bin == entries_bits(t.entries)
    &&& entries_dumpable(t.entries)
}

/// Whether entries have distinct keys, can be written and read back, hold only the integer 0,
/// and nest only tables that are dumpable.
pub open spec fn entries_dumpable(es: Seq<(Seq<char>, ValueView)>) -> bool
    decreases es,
{
    &&& keys_distinct(es)
    &&& forall|i: int|
        0 <= i < es.len() ==> raw_entry_writable(#[trigger] raw_entry_of(es[i].0, es[i].1))
    &&& forall|i: int|
        0 <= i < es.len() ==> match #[trigger] es[i].1 {
            ValueView::Table(u) => dumpable(u),
            ValueView::Int(x) => x == 0,
            _ => true,
        }
}

/// Whether `x` holds what `y` holds: the same text or integer, or a table whose entries hold,
/// key by key and in order, what those of `y` hold (their bytes aside).
pub open spec fn same_value(x: ValueView, y: ValueView) -> bool
    decreases x,
{
    match x {
        ValueView::Table(u) => y matches ValueView::Table(w) && same_entries(u.entries, w.entries),
        _ => x == y,
    }
}

/// Whether two runs of entries have the same keys in the same order, each holding the same
/// value (see `same_value`).
pub open spec fn same_entries(a: Seq<(Seq<char>, ValueView)>, b: Seq<(Seq<char>, ValueView)>) -> bool
    decreases a,
{
    &&& a.len() == b.len()
    &&& forall|i: int|
        0 <= i < a.len() ==> #[trigger] a[i].0 == b[i].0 && same_value(a[i].1, b[i].1)
}

/// A writable entry whose nested table, if any, is canonical, and whose integer, if any, is 0,
/// reads back as itself.
#[verifier::spinoff_prover]
#[verifier::rlimit(100)]
pub proof fn lemma_canonical_entry(k: Seq<char>, v: ValueView)
    requires
        raw_entry_writable(raw_entry_of(k, v)),
        v matches ValueView::Table(u) ==> canonical(u),
        v matches ValueView::Int(x) ==> x == 0,
    ensures
        entry_ok(raw_entry_of(k, v)),
        decode_entry(raw_entry_of(k, v)) == (k, v),
    decreases v,
{
    vstd::utf8::encode_utf8_valid_utf8(k);
    vstd::utf8::encode_utf8_decode_utf8(k);
    match v {
        ValueView::Table(u) => {
            lemma_canonical_roundtrip(u);
        },
        ValueView::Int(x) => {
            lemma_be64_zero();
        },
        ValueView::Str(s) => {
            vstd::utf8::encode_utf8_valid_utf8(s);
            vstd::utf8::encode_utf8_decode_utf8(s);
        },
    }
}

/// A canonical table's bytes read back as exactly that table.
#[verifier::spinoff_prover]
#[verifier::rlimit(100)]
pub proof fn lemma_canonical_roundtrip(t: TableView)
    requires
        canonical(t),
    ensures
        table_bin_ok(t.bin),
        decode_table(t.bin) == t,
    decreases t,
{
    let es = t.entries;
    let raws = raw_entries_of(es);
    lemma_entries_bits_raw(es);
    assert forall|i: int| 0 <= i < raws.len() implies raw_entry_writable(#[trigger] raws[i]) by {
        assert(raws[i] == raw_entry_of(es[i].0, es[i].1));
    }
    lemma_raw_roundtrip(raws);
    lemma_parse_raw_entries_shorter(t.bin);
    assert(parse_raw_entries(t.bin) == Some(raws));
    assert(vals_shorter(raws, t.bin.len() as int));
    assert forall|i: int| 0 <= i < raws.len() implies #[trigger] raws[i].val.len() < t.bin.len()
        && entry_ok(raws[i]) && decode_entry(raws[i]) == es[i] by {
        assert(raws[i] == raw_entry_of(es[i].0, es[i].1));
        assert(raw_entry_writable(raw_entry_of(es[i].0, es[i].1)));
        assert(match es[i].1 {
            ValueView::Table(u) => canonical(u),
            ValueView::Int(x) => x == 0,
            _ => true,
        });
        lemma_canonical_entry(es[i].0, es[i].1);
        assert(raws[i].val.len() < t.bin.len());
        assert(entry_ok(raws[i]));
    }
    assert(entries_ok(raws, t.bin.len() as int));
    let d = decode_entries(raws, t.bin);
    assert(d =~= es);
    lemma_insert_all_distinct(es);
}

/// A writable entry whose nested table, if any, is dumpable, and whose integer, if any, is 0,
/// reads back under its key with the same value.
#[verifier::spinoff_prover]
#[verifier::rlimit(100)]
pub proof fn lemma_dumpable_entry(k: Seq<char>, v: ValueView)
    requires
        raw_entry_writable(raw_entry_of(k, v)),
        v matches ValueView::Table(u) ==> dumpable(u),
        v matches ValueView::Int(x) ==> x == 0,
    ensures
        entry_ok(raw_entry_of(k, v)),
        decode_entry(raw_entry_of(k, v)).0 == k,
        same_value(decode_entry(raw_entry_of(k, v)).1, v),
    decreases v,
{
    vstd::utf8::encode_utf8_valid_utf8(k);
    vstd::utf8::encode_utf8_decode_utf8(k);
    match v {
        ValueView::Table(u) => {
            lemma_dumpable_roundtrip(u);
        },
        ValueView::Int(x) => {
            lemma_be64_zero();
        },
        ValueView::Str(s) => {
            vstd::utf8::encode_utf8_valid_utf8(s);
            vstd::utf8::encode_utf8_decode_utf8(s);
        },
    }
}

/// A dumpable table's bytes read back as a table with the same keys in the same order, each
/// holding the same value; a nested table that was emptied comes back with the bytes of a new
/// table.
#[verifier::spinoff_prover]
#[verifier::rlimit(100)]
pub proof fn lemma_dumpable_roundtrip(t: TableView)
    requires
        dumpable(t),
    ensures
        table_bin_ok(t.bin),
        same_entries(decode_table(t.bin).entries, t.entries),
    decreases t,
{
    let es = t.entries;
    let raws = raw_entries_of(es);
    lemma_entries_bits_raw(es);
    assert forall|i: int| 0 <= i < raws.len() implies raw_entry_writable(#[trigger] raws[i]) by {
        assert(raws[i] == raw_entry_of(es[i].0, es[i].1));
    }
    lemma_raw_roundtrip(raws);
    lemma_parse_raw_entries_shorter(t.bin);
    assert(parse_raw_entries(t.bin) == Some(raws));
    assert(vals_shorter(raws, t.bin.len() as int));
    let d = decode_entries(raws, t.bin);
    assert forall|i: int| 0 <= i < raws.len() implies #[trigger] raws[i].val.len() < t.bin.len()
        && entry_ok(raws[i]) && d[i].0 == es[i].0 && same_value(d[i].1, es[i].1) by {
        assert(raws[i] == raw_entry_of(es[i].0, es[i].1));
        assert(raw_entry_writable(raw_entry_of(es[i].0, es[i].1)));
        assert(match es[i].1 {
            ValueView::Table(u) => dumpable(u),
            ValueView::Int(x) => x == 0,
            _ => true,
        });
        lemma_dumpable_entry(es[i].0, es[i].1);
        assert(raws[i].val.len() < t.bin.len());
        assert(d[i] == decode_entry(raws[i]));
    }
    assert(entries_ok(raws, t.bin.len() as int));
    assert forall|i: int, j: int| 0 <= i < j < d.len() implies d[i].0 != d[j].0 by {
        assert(d[i].0 == es[i].0);
        assert(d[j].0 == es[j].0);
    }
    lemma_insert_all_distinct(d);
    assert(same_entries(d, es));
}

} // verus!
