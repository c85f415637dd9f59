use vstd::prelude::*;
use vstd::utf8::encode_utf8;

use crate::commands::commands::text;
use crate::server::{path_result, OutcomeView};
use crate::commands::dump::{dump_record, load_from, load_ok, DumpRecord, LoadOutcome};
use crate::data_types::format::{
    decode_entry, first_zero, is_first_zero, insert_all, lemma_insert_all_distinct, lemma_entries_bits_raw, lemma_first_zero_unique,
    raw_bits, raw_bits_all, raw_entries_of, raw_entry_of, raw_entry_writable, RawEntry,
};
use crate::data_types::roundtrip::{
    canonical, dumpable, lemma_canonical_entry, lemma_dumpable_entry, same_entries, same_value,
};
use crate::utils::{be32, lemma_be32_roundtrip};
use crate::data_types::data_types::{
    entries_bits, keys_distinct,
    is_key_index, key_differs, key_index, lemma_key_index_absent, lemma_key_index_held, lemma_key_index_found, lemma_key_index_is,
    TableView, ValueView,
};
use crate::data_types::integer::{decimal_i64, parse_decimal_i64};

verus! {

/// Reading a key after storing a value under it gives that value.
pub proof fn lemma_get_after_insert(t: TableView, k: Seq<char>, v: ValueView)
    ensures
        t.insert(k, v).get(k) == Some(v),
{
    let i = key_index(t.entries, k);
    let e2 = t.insert(k, v).entries;
    if i >= 0 {
        lemma_key_index_found(t.entries, k);
        assert(is_key_index(e2, k, i));
        lemma_key_index_is(e2, k, i);
    } else {
        assert forall|j: int| 0 <= j < t.entries.len() implies t.entries[j].0 != k by {
            if t.entries[j].0 == k {
                assert(exists|m: int| is_key_index(t.entries, k, m)) by {
                    lemma_first_holder(t.entries, k, j);
                }
            }
        }
        assert(is_key_index(e2, k, t.entries.len() as int));
        lemma_key_index_is(e2, k, t.entries.len() as int);
    }
}

/// A key that is held somewhere has a first position.
pub proof fn lemma_first_holder(es: Seq<(Seq<char>, ValueView)>, k: Seq<char>, j: int)
    requires
        0 <= j < es.len(),
        es[j].0 == k,
    ensures
        key_index(es, k) >= 0,
        key_index(es, k) <= j,
    decreases j,
{
    if exists|m: int| 0 <= m < j && es[m].0 == k {
        let m = choose|m: int| 0 <= m < j && es[m].0 == k;
        lemma_first_holder(es, k, m);
    } else {
        assert(is_key_index(es, k, j));
        lemma_key_index_is(es, k, j);
    }
}

/// Storing under one key leaves what another key reads.
pub proof fn lemma_get_after_insert_other(t: TableView, k: Seq<char>, v: ValueView, k2: Seq<char>)
    requires
        k2 != k,
    ensures
        t.insert(k, v).get(k2) == t.get(k2),
{
    let e = t.entries;
    let e2 = t.insert(k, v).entries;
    let i2 = key_index(e, k2);
    if i2 >= 0 {
        lemma_key_index_found(e, k2);
        assert(is_key_index(e2, k2, i2)) by {
            assert forall|j: int| 0 <= j < i2 implies e2[j].0 != k2 by {
                if j < e.len() {
                    assert(e[j].0 != k2);
                }
            }
        }
        lemma_key_index_is(e2, k2, i2);
    } else {
        assert forall|j: int| 0 <= j < e2.len() implies e2[j].0 != k2 by {
            if j < e.len() && e[j].0 == k2 {
                lemma_first_holder(e, k2, j);
            }
        }
        lemma_key_index_absent(e2, k2);
    }
}

/// After a key is taken out, reading it finds nothing.
pub proof fn lemma_get_after_remove(t: TableView, k: Seq<char>)
    ensures
        t.remove(k).get(k) is None,
{
    let pred = key_differs(k);
    let f = t.entries.filter(pred);
    assert forall|j: int| 0 <= j < f.len() implies f[j].0 != k by {
        t.entries.lemma_filter_pred(pred, j);
    }
    lemma_key_index_absent(f, k);
}

/// `set` followed by `get` of the same key answers with the text of the stored value: the
/// text itself where the key was new or held text, and the integer's decimal text where the
/// key held an integer.
pub proof fn lemma_set_then_get(t: TableView, k: Seq<char>, s: Seq<char>)
    requires
        t.set_ok(seq![k, s]),
    ensures
        ({
            let t2 = t.command_result("set"@, seq![k, s]).0;
            let answer = t2.command_result("get"@, seq![k]).1;
            &&& t.command_result("set"@, seq![k, s]).1 == Ok::<Seq<u8>, crate::commands::commands::ErrorView>(text("done"))
            &&& answer == Ok::<Seq<u8>, crate::commands::commands::ErrorView>(ValueView::from_string(s, t.set_type(k)).string_bin())
            &&& (t.get(k) is None || t.get(k) matches Some(ValueView::Str(_))) ==> answer == Ok::<Seq<u8>, crate::commands::commands::ErrorView>(encode_utf8(s))
            &&& t.get(k) matches Some(ValueView::Int(_)) ==> answer == Ok::<Seq<u8>, crate::commands::commands::ErrorView>(decimal_i64(parse_decimal_i64(encode_utf8(s))->0))
        }),
{
    reveal_strlit("set");
    reveal_strlit("get");
    assert("get"@[0] != "set"@[0]);
    let v = ValueView::from_string(s, t.set_type(k));
    lemma_get_after_insert(t, k, v);
    assert(seq![k, s][0] == k && seq![k, s][1] == s);
    assert(seq![k][0] == k);
}

/// The value a key reads in entries with one more entry at the end.
pub proof fn lemma_get_push(es: Seq<(Seq<char>, ValueView)>, x: (Seq<char>, ValueView), k: Seq<char>)
    ensures
        key_index(es, k) >= 0 ==> key_index(es.push(x), k) == key_index(es, k),
        key_index(es, k) < 0 && x.0 == k ==> key_index(es.push(x), k) == es.len(),
        key_index(es, k) < 0 && x.0 != k ==> key_index(es.push(x), k) == -1,
{
    let p = es.push(x);
    if key_index(es, k) >= 0 {
        lemma_key_index_found(es, k);
        let i = key_index(es, k);
        assert(is_key_index(p, k, i));
        lemma_key_index_is(p, k, i);
    } else {
        assert forall|j: int| 0 <= j < es.len() implies es[j].0 != k by {
            if es[j].0 == k {
                lemma_first_holder(es, k, j);
            }
        }
        if x.0 == k {
            assert(is_key_index(p, k, es.len() as int));
            lemma_key_index_is(p, k, es.len() as int);
        } else {
            lemma_key_index_absent(p, k);
        }
    }
}

/// Taking entries under `k` out leaves what any other key reads.
proof fn lemma_filter_get_other(es: Seq<(Seq<char>, ValueView)>, k: Seq<char>, k2: Seq<char>)
    requires
        k2 != k,
    ensures
        ({
            let f = es.filter(key_differs(k));
            &&& key_index(f, k2) >= 0 <==> key_index(es, k2) >= 0
            &&& key_index(f, k2) >= 0 ==> f[key_index(f, k2)].1 == es[key_index(es, k2)].1
        }),
    decreases es.len(),
{
    let pred = key_differs(k);
    reveal_with_fuel(Seq::<_>::filter, 1);
    if es.len() == 0 {
        lemma_key_index_absent(es, k2);
        lemma_key_index_absent(es.filter(pred), k2);
    } else {
        let d = es.drop_last();
        let x = es.last();
        lemma_filter_get_other(d, k, k2);
        assert(d.push(x) =~= es);
        lemma_get_push(d, x, k2);
        let fd = d.filter(pred);
        if pred(x) {
            assert(es.filter(pred) == fd.push(x));
            lemma_get_push(fd, x, k2);
        } else {
            assert(es.filter(pred) == fd);
        }
        if key_index(d, k2) >= 0 {
            lemma_key_index_found(d, k2);
        }
        if key_index(fd, k2) >= 0 {
            lemma_key_index_found(fd, k2);
        }
    }
}

/// Taking one key out leaves what another key reads.
pub proof fn lemma_get_after_remove_other(t: TableView, k: Seq<char>, k2: Seq<char>)
    requires
        k2 != k,
    ensures
        t.remove(k).get(k2) == t.get(k2),
{
    lemma_filter_get_other(t.entries, k, k2);
}

/// Changing or adding an entry under `k` does not change the entries left once `k` is taken out.
proof fn lemma_filter_insert(es: Seq<(Seq<char>, ValueView)>, k: Seq<char>, v: ValueView)
    ensures
        crate::data_types::data_types::insert_entry(es, k, v).filter(key_differs(k)) == es.filter(
            key_differs(k),
        ),
    decreases es.len(),
{
    let pred = key_differs(k);
    reveal_with_fuel(Seq::<_>::filter, 1);
    let i = key_index(es, k);
    if i < 0 {
        let p = es.push((k, v));
        assert(p.drop_last() =~= es);
    } else {
        lemma_key_index_found(es, k);
        lemma_filter_update_dropped(es, i, (k, v), k);
    }
}

/// Replacing an entry under `k` by another under `k` does not change the entries left once
/// `k` is taken out.
proof fn lemma_filter_update_dropped(
    es: Seq<(Seq<char>, ValueView)>,
    i: int,
    x: (Seq<char>, ValueView),
    k: Seq<char>,
)
    requires
        0 <= i < es.len(),
        es[i].0 == k,
        x.0 == k,
    ensures
        es.update(i, x).filter(key_differs(k)) == es.filter(key_differs(k)),
    decreases es.len(),
{
    let pred = key_differs(k);
    reveal_with_fuel(Seq::<_>::filter, 1);
    let u = es.update(i, x);
    if i == es.len() - 1 {
        assert(u.drop_last() =~= es.drop_last());
    } else {
        lemma_filter_update_dropped(es.drop_last(), i, x, k);
        assert(u.drop_last() =~= es.drop_last().update(i, x));
        assert(u.last() == es.last());
    }
}

/// Storing under a key and then taking the key out is the same as taking it out.
pub proof fn lemma_remove_after_insert(t: TableView, k: Seq<char>, v: ValueView)
    ensures
        t.insert(k, v).remove(k) == t.remove(k),
{
    lemma_filter_insert(t.entries, k, v);
}

/// Whether an entry is loaded back exactly as it was dumped: writable, any integer 0, and any
/// nested table canonical.
pub open spec fn entry_dumpable(e: (Seq<char>, ValueView)) -> bool {
    &&& raw_entry_writable(raw_entry_of(e.0, e.1))
    &&& e.1 matches ValueView::Table(u) ==> canonical(u)
    &&& e.1 matches ValueView::Int(x) ==> x == 0
}

/// Whether an entry is loaded back with the same key and value: writable, any integer 0, and
/// any nested table dumpable.
pub open spec fn entry_reloadable(e: (Seq<char>, ValueView)) -> bool {
    &&& raw_entry_writable(raw_entry_of(e.0, e.1))
    &&& e.1 matches ValueView::Table(u) ==> dumpable(u)
    &&& e.1 matches ValueView::Int(x) ==> x == 0
}

/// The entries as loading reads them back out of their dump.
pub open spec fn reloaded(es: Seq<(Seq<char>, ValueView)>) -> Seq<(Seq<char>, ValueView)> {
    es.map_values(|e: (Seq<char>, ValueView)| decode_entry(raw_entry_of(e.0, e.1)))
}

/// Storing entries in turn is storing the first one, then the others in turn.
pub proof fn lemma_insert_all_front(t: TableView, ds: Seq<(Seq<char>, ValueView)>)
    requires
        ds.len() > 0,
    ensures
        insert_all(t, ds) == insert_all(t.insert(ds[0].0, ds[0].1), ds.drop_first()),
    decreases ds.len(),
{
    reveal_with_fuel(insert_all, 2);
    if ds.len() > 1 {
        lemma_insert_all_front(t, ds.drop_last());
        assert(ds.drop_last()[0] == ds[0]);
        assert(ds.drop_last().drop_first() =~= ds.drop_first().drop_last());
        assert(ds.drop_first().last() == ds.last());
    } else {
        assert(ds.drop_first() =~= Seq::<(Seq<char>, ValueView)>::empty());
        assert(ds.drop_last() =~= Seq::<(Seq<char>, ValueView)>::empty());
        assert(ds.last() == ds[0]);
    }
}

/// Where the parts of a written entry lie in its bytes.
proof fn lemma_raw_bits_parts(e: RawEntry)
    ensures
        ({
            let h = raw_bits(e);
            let z = e.key.len() as int;
            &&& h.len() == 6 + z + e.val.len()
            &&& h[0] == e.sig
            &&& h.subrange(1, 5) == be32(e.val.len() as u32)
            &&& h.subrange(5, 5 + z) == e.key
            &&& h[5 + z] == 0
            &&& h.subrange(6 + z, h.len() as int) == e.val
        }),
{
    let h = raw_bits(e);
    let z = e.key.len() as int;
    let b = be32(e.val.len() as u32);
    assert(b.len() == 4);
    let a0 = seq![e.sig];
    let a1 = a0 + b;
    let a2 = a1 + e.key;
    let a3 = a2 + seq![0u8];
    assert(h == a3 + e.val);
    assert(h.subrange(1, 5) =~= b) by {
        assert forall|j: int| 0 <= j < 4 implies #[trigger] h.subrange(1, 5)[j] == b[j] by {
            assert(h[1 + j] == a3[1 + j]);
            assert(a3[1 + j] == a2[1 + j]);
            assert(a2[1 + j] == a1[1 + j]);
        }
    }
    assert(h.subrange(5, 5 + z) =~= e.key) by {
        assert forall|j: int| 0 <= j < z implies #[trigger] h.subrange(5, 5 + z)[j] == e.key[j] by {
            assert(h[5 + j] == a3[5 + j]);
            assert(a3[5 + j] == a2[5 + j]);
        }
    }
    assert(h[5 + z] == a3[5 + z]);
    assert(h.subrange(6 + z, h.len() as int) =~= e.val);
}

/// The loader reads a written entry back out of the bytes it lies at the front of.
#[verifier::spinoff_prover]
proof fn lemma_dump_record_entry(f: Seq<u8>, p: int, e: RawEntry, tail: Seq<u8>)
    requires
        0 <= p <= f.len(),
        f.skip(p) == raw_bits(e) + tail,
        raw_entry_writable(e),
    ensures
        dump_record(f, p) == (DumpRecord::Record {
            sig: e.sig,
            key: e.key,
            size: e.val.len() as int,
            rest: p + 5 + e.key.len() + 1,
        }),
        f.subrange(p + 5 + e.key.len() + 1, p + raw_bits(e).len()) == e.val,
        f.len() - (p + 5 + e.key.len() + 1) >= e.val.len(),
        f.skip(p + raw_bits(e).len()) == tail,
{
    let g = f.skip(p);
    let h = raw_bits(e);
    let z = e.key.len() as int;
    let n = h.len() as int;
    lemma_raw_bits_parts(e);
    lemma_be32_roundtrip(e.val.len() as u32);
    assert(g.len() == f.len() - p);
    assert(g.len() == n + tail.len());
    assert(forall|j: int| 0 <= j < n ==> f[p + j] == #[trigger] h[j]) by {
        assert forall|j: int| 0 <= j < n implies f[p + j] == #[trigger] h[j] by {
            assert(g[j] == f[p + j]);
            assert(g[j] == h[j]);
        }
    }
    assert(f.subrange(p + 1, p + 5) =~= h.subrange(1, 5));
    assert(f.subrange(p + 5, p + 5 + z) =~= h.subrange(5, 5 + z));
    assert(f.subrange(p + 6 + z, p + n) =~= h.subrange(6 + z, n));
    assert(f[p] == h[0]);
    let s = f.subrange(p + 5, f.len() as int);
    assert(is_first_zero(s, z)) by {
        assert forall|j: int| 0 <= j < z implies s[j] != 0 by {
            assert(s[j] == f[p + 5 + j]);
            assert(h[5 + j] == h.subrange(5, 5 + z)[j]);
        }
        assert(s[z] == f[p + 5 + z]);
    }
    lemma_first_zero_unique(s, z);
    assert(f.skip(p + n) =~= g.skip(n));
    assert(g.skip(n) =~= tail);
}

/// Loading the bytes of reloadable entries, found from position `p` on, stores each entry in
/// turn as it reads back.
#[verifier::spinoff_prover]
proof fn lemma_load_raw(t: TableView, f: Seq<u8>, p: int, es: Seq<(Seq<char>, ValueView)>)
    requires
        0 <= p <= f.len(),
        f.skip(p) == raw_bits_all(raw_entries_of(es)),
        forall|i: int| 0 <= i < es.len() ==> entry_reloadable(#[trigger] es[i]),
    ensures
        load_ok(f, p),
        load_from(ValueView::Table(t), f, p) == (
            ValueView::Table(insert_all(t, reloaded(es))),
            LoadOutcome::Loaded,
        ),
    decreases es.len(),
{
    let raws = raw_entries_of(es);
    let ds = reloaded(es);
    if es.len() == 0 {
        assert(f.skip(p).len() == 0);
        assert(dump_record(f, p) is End);
        assert(ds.len() == 0);
    } else {
        let (k, v) = es[0];
        assert(entry_reloadable(es[0]));
        let e = raw_entry_of(k, v);
        assert(raws[0] == e);
        let rest = es.drop_first();
        assert(raws.drop_first() =~= raw_entries_of(rest));
        lemma_dump_record_entry(f, p, e, raw_bits_all(raw_entries_of(rest)));
        let n = raw_bits(e).len() as int;
        lemma_dumpable_entry(k, v);
        vstd::utf8::encode_utf8_valid_utf8(k);
        assert(v.signature() <= 2);
        let d0 = decode_entry(e);
        assert(ds[0] == d0);
        assert forall|i: int| 0 <= i < rest.len() implies entry_reloadable(#[trigger] rest[i]) by {
            assert(rest[i] == es[i + 1]);
        }
        lemma_load_raw(t.insert(d0.0, d0.1), f, p + n, rest);
        assert(reloaded(rest) =~= ds.drop_first());
        lemma_insert_all_front(t, ds);
    }
}

/// A canonical table is dumpable.
proof fn lemma_canonical_dumpable(t: TableView)
    requires
        canonical(t),
    ensures
        dumpable(t),
    decreases t,
{
    let es = t.entries;
    assert forall|i: int| 0 <= i < es.len() implies match #[trigger] es[i].1 {
        ValueView::Table(u) => dumpable(u),
        ValueView::Int(x) => x == 0,
        _ => true,
    } by {
        assert(match es[i].1 {
            ValueView::Table(u) => canonical(u),
            ValueView::Int(x) => x == 0,
            _ => true,
        });
        if let ValueView::Table(u) = es[i].1 {
            lemma_canonical_dumpable(u);
        }
    }
}

/// What a dump writes, loading reads back exactly: loading the dump of entries whose integers
/// are 0 and whose nested tables are canonical into a table stores each of them in turn, and
/// ends cleanly.
pub proof fn lemma_load_after_dump(t: TableView, es: Seq<(Seq<char>, ValueView)>)
    requires
        forall|i: int| 0 <= i < es.len() ==> entry_dumpable(#[trigger] es[i]),
    ensures
        load_ok(entries_bits(es), 0),
        load_from(ValueView::Table(t), entries_bits(es), 0) == (
            ValueView::Table(insert_all(t, es)),
            LoadOutcome::Loaded,
        ),
{
    assert forall|i: int| 0 <= i < es.len() implies entry_reloadable(#[trigger] es[i])
        && reloaded(es)[i] == es[i] by {
        assert(entry_dumpable(es[i]));
        if let ValueView::Table(u) = es[i].1 {
            lemma_canonical_dumpable(u);
        }
        lemma_canonical_entry(es[i].0, es[i].1);
    }
    assert(reloaded(es) =~= es);
    lemma_entries_bits_raw(es);
    assert(entries_bits(es).skip(0) =~= entries_bits(es));
    lemma_load_raw(t, entries_bits(es), 0, es);
}

/// What a dump writes, loading reads back: loading the dump of entries whose integers are 0
/// and whose nested tables are dumpable (emptied ones too) into a table stores each entry in
/// turn with the same key and the same value, and ends cleanly. Loaded into a new root table,
/// entries with distinct keys give a table with the same keys in the same order, each holding
/// the same value.
pub proof fn lemma_load_after_dump_same(t: TableView, es: Seq<(Seq<char>, ValueView)>)
    requires
        forall|i: int| 0 <= i < es.len() ==> entry_reloadable(#[trigger] es[i]),
    ensures
        load_ok(entries_bits(es), 0),
        load_from(ValueView::Table(t), entries_bits(es), 0) == (
            ValueView::Table(insert_all(t, reloaded(es))),
            LoadOutcome::Loaded,
        ),
        same_entries(reloaded(es), es),
        keys_distinct(es) ==> (load_from(
            ValueView::Table(TableView::empty()),
            entries_bits(es),
            0,
        ).0 matches ValueView::Table(u) && same_entries(u.entries, es)),
{
    let ds = reloaded(es);
    assert forall|i: int| 0 <= i < es.len() implies ds[i].0 == es[i].0 && same_value(
        ds[i].1,
        es[i].1,
    ) by {
        assert(entry_reloadable(es[i]));
        lemma_dumpable_entry(es[i].0, es[i].1);
    }
    assert(same_entries(ds, es));
    lemma_entries_bits_raw(es);
    assert(entries_bits(es).skip(0) =~= entries_bits(es));
    lemma_load_raw(t, entries_bits(es), 0, es);
    lemma_load_raw(TableView::empty(), entries_bits(es), 0, es);
    if keys_distinct(es) {
        assert forall|i: int, j: int| 0 <= i < j < ds.len() implies ds[i].0 != ds[j].0 by {
            assert(ds[i].0 == es[i].0);
            assert(ds[j].0 == es[j].0);
        }
        lemma_insert_all_distinct(ds);
    }
}

/// Replacing an entry by one under the same key leaves every key at its position.
pub proof fn lemma_update_same_key(es: Seq<(Seq<char>, ValueView)>, i: int, x: (Seq<char>, ValueView), k: Seq<char>)
    requires
        0 <= i < es.len(),
        x.0 == es[i].0,
    ensures
        key_index(es.update(i, x), k) == key_index(es, k),
{
    let u = es.update(i, x);
    assert forall|j: int| 0 <= j < es.len() implies #[trigger] u[j].0 == es[j].0 by {}
    if key_index(es, k) >= 0 {
        lemma_key_index_found(es, k);
        let j = key_index(es, k);
        assert(is_key_index(u, k, j));
        lemma_key_index_is(u, k, j);
    } else {
        assert forall|j: int| 0 <= j < u.len() implies u[j].0 != k by {
            if es[j].0 == k {
                lemma_key_index_held(es, k, j);
            }
        }
        lemma_key_index_absent(u, k);
    }
}

/// A command run in the table stored under `k` changes the table stored there: afterwards
/// the root reads under `k` the table as the command left it, every other key reads as
/// before, and the answer is the command's own.
pub proof fn lemma_nested_command_stays(
    t: TableView,
    k: Seq<char>,
    u: TableView,
    first: Seq<char>,
    args: Seq<Seq<char>>,
)
    requires
        t.get(k) == Some(ValueView::Table(u)),
    ensures
        ({
            let (v2, o) = path_result(ValueView::Table(t), seq![k], first, args);
            let (u2, r) = u.command_result(first, args);
            &&& v2 matches ValueView::Table(t2) && t2.get(k) == Some(ValueView::Table(u2))
                && (forall|k2: Seq<char>| k2 != k ==> #[trigger] t2.get(k2) == t.get(k2))
            &&& o == match r {
                Ok(b) => OutcomeView::Reply(b),
                Err(e) => OutcomeView::Failed(e),
            }
        }),
{
    let dir = seq![k];
    let i = key_index(t.entries, k);
    lemma_key_index_found(t.entries, k);
    assert(dir.drop_first() =~= Seq::<Seq<char>>::empty());
    let (u2, r) = u.command_result(first, args);
    let x = (t.entries[i].0, ValueView::Table(u2));
    let es2 = t.entries.update(i, x);
    reveal_with_fuel(path_result, 2);
    let t2 = TableView { entries: es2, bin: t.bin };
    assert(path_result(ValueView::Table(t), dir, first, args) == (
        ValueView::Table(t2),
        match r {
            Ok(b) => OutcomeView::Reply(b),
            Err(e) => OutcomeView::Failed(e),
        },
    ));
    lemma_update_same_key(t.entries, i, x, k);
    assert(t2.get(k) == Some(ValueView::Table(u2)));
    assert forall|k2: Seq<char>| k2 != k implies #[trigger] t2.get(k2) == t.get(k2) by {
        lemma_update_same_key(t.entries, i, x, k2);
        let j = key_index(t.entries, k2);
        if j >= 0 {
            lemma_key_index_found(t.entries, k2);
            assert(j != i);
            assert(es2[j] == t.entries[j]);
        }
    }
}

} // verus!
