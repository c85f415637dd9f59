use vstd::prelude::*;
use vstd::utf8::{decode_utf8, encode_utf8, valid_utf8};

use crate::data_types::data_types::{entries_bits, entry_bits, lemma_insert_wf, TableView, ValueView};
use crate::data_types::integer::int_bin_ok;
use crate::utils::{be32, be32_prefix_value};

verus! {

/// One entry of a table's bytes as it lies in them: type byte, key bytes, value bytes.
pub struct RawEntry {
    pub sig: u8,
    pub key: Seq<u8>,
    pub val: Seq<u8>,
}

/// The bytes of one entry: type byte, four length bytes, key, a zero byte, value.
pub open spec fn raw_bits(e: RawEntry) -> Seq<u8> {
    seq![e.sig] + be32(e.val.len() as u32) + e.key + seq![0u8] + e.val
}

/// The bytes of entries written one after another.
pub open spec fn raw_bits_all(es: Seq<RawEntry>) -> Seq<u8>
    decreases es.len(),
{
    if es.len() == 0 {
        Seq::empty()
    } else {
        raw_bits(es[0]) + raw_bits_all(es.drop_first())
    }
}

/// `z` is the first position of a zero byte in `s`.
pub open spec fn is_first_zero(s: Seq<u8>, z: int) -> bool {
    &&& 0 <= z < s.len()
    &&& s[z] == 0
    &&& forall|j: int| 0 <= j < z ==> s[j] != 0
}

/// The position of the first zero byte in `s`, if there is one.
#[verifier::opaque]
pub open spec fn first_zero(s: Seq<u8>) -> Option<int> {
    if exists|z: int| is_first_zero(s, z) {
        Some(choose|z: int| is_first_zero(s, z))
    } else {
        None
    }
}

/// The entry at the front of `b` and how many bytes it takes, if `b` starts with a whole entry:
/// five header bytes, a key ended by the first zero byte after them, then as many value bytes
/// as the header says.
pub open spec fn parse_raw_entry(b: Seq<u8>) -> Option<(RawEntry, int)> {
    if b.len() >= 5 && first_zero(b.skip(5)) is Some {
        let z = first_zero(b.skip(5))->0;
        let size = be32_prefix_value(b.subrange(1, 5)) as int;
        let start = 5 + z + 1;
        if start + size <= b.len() {
            Some(
                (
                    RawEntry { sig: b[0], key: b.subrange(5, 5 + z), val: b.subrange(start, start + size) },
                    start + size,
                ),
            )
        } else {
            None
        }
    } else {
        None
    }
}

/// The entries that make up `b`, if `b` is whole entries one after another.
pub open spec fn parse_raw_entries(b: Seq<u8>) -> Option<Seq<RawEntry>>
    decreases b.len(),
{
    if b.len() == 0 {
        Some(Seq::empty())
    } else {
        match parse_raw_entry(b) {
            None => None,
            Some((e, n)) => {
                if 0 < n <= b.len() {
                    match parse_raw_entries(b.skip(n)) {
                        None => None,
                        Some(rest) => Some(seq![e] + rest),
                    }
                } else {
                    None
                }
            },
        }
    }
}

/// A parsed entry takes at least six bytes, all of them from `b`.
pub proof fn lemma_parse_raw_entry_len(b: Seq<u8>)
    requires
        parse_raw_entry(b) is Some,
    ensures
        ({
            let (e, n) = parse_raw_entry(b)->0;
            &&& 6 <= n <= b.len()
            &&& e.val.len() <= n - 6
            &&& e.val.len() < 0x1_0000_0000
            &&& b.subrange(0, n) == raw_bits(e)
        }),
{
    let z = first_zero(b.skip(5))->0;
    lemma_first_zero_found(b.skip(5));
    let (e, n) = parse_raw_entry(b)->0;
    let size = be32_prefix_value(b.subrange(1, 5));
    crate::utils::lemma_be32_bytes_roundtrip(b.subrange(1, 5));
    assert(e.val.len() == size);
    assert(b.subrange(0, n) =~= raw_bits(e)) by {
        assert(b.subrange(1, 5).take(4) =~= b.subrange(1, 5));
        assert(b.subrange(5, 5 + z) =~= e.key);
        assert(b[5 + z] == 0);
    }
}

/// The first zero byte has one position.
pub proof fn lemma_first_zero_unique(s: Seq<u8>, z: int)
    requires
        is_first_zero(s, z),
    ensures
        first_zero(s) == Some(z),
{
    reveal(first_zero);
    let y = choose|y: int| is_first_zero(s, y);
    assert(is_first_zero(s, y));
    if y < z {
        assert(s[y] != 0);
    } else if z < y {
        assert(s[z] != 0);
    }
}

/// Without a zero byte there is no first one.
pub proof fn lemma_first_zero_none(s: Seq<u8>)
    requires
        forall|j: int| 0 <= j < s.len() ==> s[j] != 0,
    ensures
        first_zero(s) is None,
{
    reveal(first_zero);
}

/// A found first zero is one.
pub proof fn lemma_first_zero_found(s: Seq<u8>)
    requires
        first_zero(s) is Some,
    ensures
        is_first_zero(s, first_zero(s)->0),
{
    reveal(first_zero);
}

/// Whether each entry's value is shorter than `n` bytes.
pub open spec fn vals_shorter(es: Seq<RawEntry>, n: int) -> bool {
    forall|i: int| 0 <= i < es.len() ==> #[trigger] es[i].val.len() < n
}

/// Every value parsed out of `b` is shorter than `b`.
pub proof fn lemma_parse_raw_entries_shorter(b: Seq<u8>)
    ensures
        parse_raw_entries(b) matches Some(es) ==> vals_shorter(es, b.len() as int),
    decreases b.len(),
{
    if b.len() > 0 {
        if let Some((e, n)) = parse_raw_entry(b) {
            lemma_parse_raw_entry_len(b);
            if 0 < n <= b.len() {
                lemma_parse_raw_entries_shorter(b.skip(n));
                if let Some(rest) = parse_raw_entries(b.skip(n)) {
                    let es = seq![e] + rest;
                    assert forall|i: int| 0 <= i < es.len() implies #[trigger] es[i].val.len()
                        < b.len() by {
                        if i > 0 {
                            assert(es[i] == rest[i - 1]);
                        }
                    }
                }
            }
        }
    }
}

/// Whether a parsed entry can be read back without failing: its key is UTF-8, and its value
/// is a readable table (type 1), bytes an integer can be read out of (type 2) or UTF-8 text
/// (any other type).
pub open spec fn entry_ok(e: RawEntry) -> bool
    decreases e.val.len(), 3int,
{
    &&& valid_utf8(e.key)
    &&& if e.sig == 1 {
        table_bin_ok(e.val)
    } else if e.sig == 2 {
        int_bin_ok(e.val)
    } else {
        valid_utf8(e.val)
    }
}

/// Whether each entry is shorter than `n` bytes and readable.
pub open spec fn entries_ok(es: Seq<RawEntry>, n: int) -> bool
    decreases n, 1int,
{
    forall|i: int| 0 <= i < es.len() ==> #[trigger] es[i].val.len() < n && entry_ok(es[i])
}

/// Whether `b` reads back as a table: whole entries, each of them readable.
pub open spec fn table_bin_ok(b: Seq<u8>) -> bool
    decreases b.len(), 2int,
{
    match parse_raw_entries(b) {
        None => false,
        Some(es) => entries_ok(es, b.len() as int),
    }
}

/// The key and value that a parsed entry reads back as; an integer reads back as 0 (see
/// `Int::from_bin`).
pub open spec fn decode_entry(e: RawEntry) -> (Seq<char>, ValueView)
    decreases e.val.len(), 3int,
{
    (
        decode_utf8(e.key),
        if e.sig == 1 {
            ValueView::Table(decode_table(e.val))
        } else if e.sig == 2 {
            ValueView::Int(0)
        } else {
            ValueView::Str(decode_utf8(e.val))
        },
    )
}

/// The table after storing the given entries one after another.
pub open spec fn insert_all(t: TableView, ds: Seq<(Seq<char>, ValueView)>) -> TableView
    decreases ds.len(),
{
    if ds.len() == 0 {
        t
    } else {
        insert_all(t, ds.drop_last()).insert(ds.last().0, ds.last().1)
    }
}

/// The entries of `b`, each read back.
pub open spec fn decode_entries(es: Seq<RawEntry>, b: Seq<u8>) -> Seq<(Seq<char>, ValueView)>
    decreases b.len(), 1int,
{
    Seq::new(
        es.len(),
        |i: int|
            if 0 <= i < es.len() && es[i].val.len() < b.len() {
                decode_entry(es[i])
            } else {
                (Seq::empty(), ValueView::Int(0))
            },
    )
}

/// The table that `b` reads back as: a new table with each entry of `b` stored in turn.
pub open spec fn decode_table(b: Seq<u8>) -> TableView
    decreases b.len(), 2int,
{
    match parse_raw_entries(b) {
        None => TableView::empty(),
        Some(es) => insert_all(TableView::empty(), decode_entries(es, b)),
    }
}

/// Parsing the entry at `start` carries a parse of `b` that has read `done` over to `next`.
pub proof fn lemma_parse_step(b: Seq<u8>, start: int, next: int, done: Seq<RawEntry>, e: RawEntry)
    requires
        0 <= start < next <= b.len(),
        parse_raw_entries(b) == (match parse_raw_entries(b.skip(start)) {
            Some(rest) => Some(done + rest),
            None => None,
        }),
        parse_raw_entry(b.skip(start)) == Some((e, next - start)),
    ensures
        parse_raw_entries(b) == (match parse_raw_entries(b.skip(next)) {
            Some(rest) => Some(done.push(e) + rest),
            None => None,
        }),
{
    let c = b.skip(start);
    assert(c.skip(next - start) =~= b.skip(next));
    match parse_raw_entries(b.skip(next)) {
        Some(rest) => {
            assert(done + (seq![e] + rest) =~= done.push(e) + rest);
        },
        None => {},
    }
}

/// A parse that reaches an unreadable entry makes the whole bytes unreadable.
pub proof fn lemma_bad_entry(b: Seq<u8>, next: int, done: Seq<RawEntry>, e: RawEntry)
    requires
        parse_raw_entries(b) == (match parse_raw_entries(b.skip(next)) {
            Some(rest) => Some(done.push(e) + rest),
            None => None,
        }),
        !entry_ok(e),
    ensures
        !table_bin_ok(b),
{
    match parse_raw_entries(b.skip(next)) {
        Some(rest) => {
            let es = done.push(e) + rest;
            assert(es[done.len() as int] == e);
            let m = done.len() as int;
            assert(!(es[m].val.len() < b.len() && entry_ok(es[m])));
            if entries_ok(es, b.len() as int) {
                assert(es[m].val.len() < b.len());
                assert(entry_ok(es[m]));
            }
        },
        None => {},
    }
}

/// The entry that a stored key and value are written as.
pub open spec fn raw_entry_of(k: Seq<char>, v: ValueView) -> RawEntry {
    RawEntry { sig: v.signature(), key: encode_utf8(k), val: v.bin() }
}

/// The raw entries that stored keys and values are written as.
pub open spec fn raw_entries_of(es: Seq<(Seq<char>, ValueView)>) -> Seq<RawEntry> {
    es.map_values(|e: (Seq<char>, ValueView)| raw_entry_of(e.0, e.1))
}

/// Whether an entry can be written so that reading it finds it again: no zero byte in the
/// key's UTF-8, and a value shorter than 2^32 bytes.
pub open spec fn raw_entry_writable(e: RawEntry) -> bool {
    &&& forall|j: int| 0 <= j < e.key.len() ==> #[trigger] e.key[j] != 0
    &&& e.val.len() < 0x1_0000_0000
}

pub proof fn lemma_raw_bits_all_append(a: Seq<RawEntry>, b: Seq<RawEntry>)
    ensures
        raw_bits_all(a + b) == raw_bits_all(a) + raw_bits_all(b),
    decreases a.len(),
{
    if a.len() == 0 {
        assert(a + b =~= b);
        assert(raw_bits_all(a) + raw_bits_all(b) =~= raw_bits_all(b));
    } else {
        assert((a + b).drop_first() =~= a.drop_first() + b);
        lemma_raw_bits_all_append(a.drop_first(), b);
        assert((a + b)[0] == a[0]);
        assert(raw_bits_all(a + b) =~= raw_bits_all(a) + raw_bits_all(b));
    }
}

/// The bytes of stored entries are the bytes of their raw entries.
pub proof fn lemma_entries_bits_raw(es: Seq<(Seq<char>, ValueView)>)
    ensures
        entries_bits(es) == raw_bits_all(raw_entries_of(es)),
    decreases es.len(),
{
    if es.len() > 0 {
        lemma_entries_bits_raw(es.drop_last());
        let r = raw_entries_of(es);
        assert(r =~= raw_entries_of(es.drop_last()) + seq![raw_entry_of(es.last().0, es.last().1)]);
        lemma_raw_bits_all_append(raw_entries_of(es.drop_last()), seq![raw_entry_of(es.last().0, es.last().1)]);
        let single = seq![raw_entry_of(es.last().0, es.last().1)];
        assert(single.drop_first() =~= Seq::<RawEntry>::empty());
        assert(raw_bits_all(single.drop_first()) =~= Seq::<u8>::empty());
        assert(raw_bits_all(single) =~= raw_bits(single[0]));
        assert(raw_bits(single[0]) =~= entry_bits(es.last().0, es.last().1));
    }
}

/// Writing entries and reading the bytes back finds the same entries.
#[verifier::spinoff_prover]
#[verifier::rlimit(100)]
pub proof fn lemma_raw_roundtrip(es: Seq<RawEntry>)
    requires
        forall|i: int| 0 <= i < es.len() ==> raw_entry_writable(#[trigger] es[i]),
    ensures
        parse_raw_entries(raw_bits_all(es)) == Some(es),
    decreases es.len(),
{
    let b = raw_bits_all(es);
    if es.len() == 0 {
    } else {
        let e = es[0];
        assert(raw_entry_writable(e));
        let rest = es.drop_first();
        assert forall|i: int| 0 <= i < rest.len() implies raw_entry_writable(#[trigger] rest[i]) by {
            assert(rest[i] == es[i + 1]);
        }
        lemma_raw_roundtrip(rest);
        let head = raw_bits(e);
        let z = e.key.len() as int;
        let n = head.len() as int;
        assert(b == head + raw_bits_all(rest));
        crate::utils::lemma_be32_roundtrip(e.val.len() as u32);
        assert(b.subrange(1, 5) =~= be32(e.val.len() as u32));
        assert(is_first_zero(b.skip(5), z)) by {
            assert forall|j: int| 0 <= j < z implies b.skip(5)[j] != 0 by {
                assert(b.skip(5)[j] == e.key[j]);
            }
            assert(b.skip(5)[z] == 0);
        }
        lemma_first_zero_unique(b.skip(5), z);
        assert(b.subrange(5, 5 + z) =~= e.key);
        assert(b.subrange(5 + z + 1, n) =~= e.val);
        assert(parse_raw_entry(b) == Some((e, n)));
        assert(b.skip(n) =~= raw_bits_all(rest));
        assert(seq![e] + rest =~= es);
    }
}

/// Reading entries out of bytes and writing them again gives the same bytes.
#[verifier::spinoff_prover]
#[verifier::rlimit(100)]
pub proof fn lemma_parse_reencode(b: Seq<u8>)
    requires
        parse_raw_entries(b) is Some,
    ensures
        raw_bits_all(parse_raw_entries(b)->0) == b,
    decreases b.len(),
{
    if b.len() > 0 {
        let (e, n) = parse_raw_entry(b)->0;
        lemma_parse_raw_entry_len(b);
        lemma_parse_reencode(b.skip(n));
        let rest = parse_raw_entries(b.skip(n))->0;
        let es = seq![e] + rest;
        assert(es.drop_first() =~= rest);
        assert(b =~= b.subrange(0, n) + b.skip(n));
    } else {
        assert(raw_bits_all(Seq::<RawEntry>::empty()) =~= b);
    }
}

/// Storing entries whose keys all differ into a new table lists them in order.
pub proof fn lemma_insert_all_distinct(d: Seq<(Seq<char>, ValueView)>)
    requires
        forall|i: int, j: int| 0 <= i < j < d.len() ==> d[i].0 != d[j].0,
    ensures
        insert_all(TableView::empty(), d).entries == d,
        d.len() > 0 ==> insert_all(TableView::empty(), d).bin == entries_bits(d),
    decreases d.len(),
{
    if d.len() > 0 {
        let p = d.drop_last();
        lemma_insert_all_distinct(p);
        let k = d.last().0;
        assert forall|j: int| 0 <= j < p.len() implies p[j].0 != k by {
            assert(d[j].0 != d[d.len() - 1].0);
        }
        crate::data_types::data_types::lemma_key_index_absent(p, k);
        assert(p.push((k, d.last().1)) =~= d);
    }
}

/// Storing entries in turn keeps the keys distinct.
pub proof fn lemma_insert_all_wf(t: TableView, ds: Seq<(Seq<char>, ValueView)>)
    requires
        t.wf(),
    ensures
        insert_all(t, ds).wf(),
    decreases ds.len(),
{
    if ds.len() > 0 {
        lemma_insert_all_wf(t, ds.drop_last());
        lemma_insert_wf(insert_all(t, ds.drop_last()), ds.last().0, ds.last().1);
    }
}

/// The table that any bytes read back as has distinct keys.
pub proof fn lemma_decode_table_wf(b: Seq<u8>)
    ensures
        decode_table(b).wf(),
{
    if let Some(es) = parse_raw_entries(b) {
        lemma_insert_all_wf(TableView::empty(), decode_entries(es, b));
    }
}

} // verus!
