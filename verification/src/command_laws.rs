use vstd::prelude::*;
use vstd::utf8::encode_utf8;

use crate::commands::commands::{text, ErrorView};
use crate::commands::list::{keys_of, list_text};
use crate::data_types::data_types::{
    key_index, keys_distinct, lemma_key_index_found, lemma_key_index_held, TableView, ValueView,
};
use crate::data_types::integer::parse_decimal_i64;
use crate::laws::{lemma_get_after_insert, lemma_get_after_insert_other, lemma_update_same_key};

verus! {

/// `inc` adds one: where the key holds the integer `x` (below the largest `i64`), afterwards it
/// holds `x + 1`, every other key reads as before, and the answer is "done".
pub proof fn lemma_inc_adds_one(t: TableView, args: Seq<Seq<char>>, x: i64)
    requires
        args.len() >= 1,
        t.get(args[0]) == Some(ValueView::Int(x)),
        x < i64::MAX,
    ensures
        ({
            let (t2, r) = t.inc_result(args);
            &&& t2.get(args[0]) == Some(ValueView::Int((x + 1) as i64))
            &&& forall|k2: Seq<char>| k2 != args[0] ==> #[trigger] t2.get(k2) == t.get(k2)
            &&& t2.entries.len() == t.entries.len()
            &&& r == Ok::<Seq<u8>, ErrorView>(text("done"))
        }),
{
    let es = t.entries;
    let i = key_index(es, args[0]);
    lemma_key_index_found(es, args[0]);
    let x2 = (args[0], ValueView::Int((x + 1) as i64));
    let es2 = es.update(i, x2);
    let t2 = t.inc_result(args).0;
    assert(t2.entries == es2);
    lemma_update_same_key(es, i, x2, args[0]);
    assert forall|k2: Seq<char>| k2 != args[0] implies #[trigger] t2.get(k2) == t.get(k2) by {
        lemma_update_same_key(es, i, x2, k2);
        let j = key_index(es, k2);
        if j >= 0 {
            lemma_key_index_found(es, k2);
            assert(j != i);
            assert(es2[j] == es[j]);
        }
    }
}

/// `touch name type` stores the empty value of the named type under the name, whatever was
/// stored there before: "" for `str` and `string`, 0 for `int`, a new table for `table`;
/// every other key reads as before and the answer is "done". Any other type name changes
/// nothing.
pub proof fn lemma_touch_replaces(t: TableView, args: Seq<Seq<char>>)
    requires
        args.len() >= 2,
    ensures
        ({
            let (t2, r) = t.touch_result(args);
            let k = args[0];
            let ty = args[1];
            &&& (ty == "str"@ || ty == "string"@) ==> t2.get(k) == Some(ValueView::Str(Seq::empty()))
            &&& ty == "int"@ ==> t2.get(k) == Some(ValueView::Int(0))
            &&& ty == "table"@ ==> t2.get(k) == Some(
                ValueView::Table(TableView { entries: Seq::empty(), bin: seq![0u8] }),
            )
            &&& (ty == "str"@ || ty == "string"@ || ty == "int"@ || ty == "table"@) ==> {
                &&& r == Ok::<Seq<u8>, ErrorView>(text("done"))
                &&& forall|k2: Seq<char>| k2 != k ==> #[trigger] t2.get(k2) == t.get(k2)
            }
            &&& !(ty == "str"@ || ty == "string"@ || ty == "int"@ || ty == "table"@) ==> {
                &&& t2 == t
                &&& r == Err::<Seq<u8>, ErrorView>(ErrorView::VariantNotFound)
            }
        }),
{
    let k = args[0];
    let ty = args[1];
    reveal_strlit("str");
    reveal_strlit("string");
    reveal_strlit("int");
    reveal_strlit("table");
    assert("int"@ != "str"@ && "int"@ != "string"@) by {
        assert("int"@[0] != "str"@[0]);
    }
    assert("table"@ != "str"@ && "table"@ != "string"@ && "table"@ != "int"@) by {
        assert("table"@[0] != "str"@[0]);
        assert("table"@[0] != "int"@[0]);
    }
    match ValueView::from_type_name(ty) {
        Some(v) => {
            lemma_get_after_insert(t, k, v);
            assert forall|k2: Seq<char>| k2 != k implies #[trigger] t.insert(k, v).get(k2) == t.get(
                k2,
            ) by {
                lemma_get_after_insert_other(t, k, v, k2);
            }
        },
        None => {},
    }
}

/// `inc` changes nothing unless the key holds an integer: a missing key is reported, and a
/// key that holds text or a table is answered "inc can only be used on ints".
pub proof fn lemma_inc_only_ints(t: TableView, args: Seq<Seq<char>>)
    requires
        args.len() >= 1,
        !(t.get(args[0]) matches Some(ValueView::Int(_))),
    ensures
        t.inc_result(args).0 == t,
        t.get(args[0]) is None ==> t.inc_result(args).1 == Err::<Seq<u8>, ErrorView>(
            ErrorView::KeyNotFound(args[0]),
        ),
        t.get(args[0]) is Some ==> t.inc_result(args).1 == Ok::<Seq<u8>, ErrorView>(
            text("inc can only be used on ints"),
        ),
{
}

/// `set key text` never changes the type of what the key holds: a key that held a value holds
/// a value of the same type afterwards (text stays text, an integer stays an integer, a table
/// stays a table); a new key holds the text; every other key reads as before.
pub proof fn lemma_set_keeps_type(t: TableView, args: Seq<Seq<char>>)
    requires
        args.len() >= 2,
    ensures
        ({
            let (t2, r) = t.set_result(args);
            let k = args[0];
            &&& r == Ok::<Seq<u8>, ErrorView>(text("done"))
            &&& t.get(k) matches Some(v) ==> (t2.get(k) matches Some(w) && w.signature()
                == v.signature())
            &&& t.get(k) matches Some(ValueView::Str(_)) ==> t2.get(k) == Some(ValueView::Str(args[1]))
            &&& t.get(k) matches Some(ValueView::Table(_)) ==> t2.get(k) == Some(
                ValueView::Table(TableView { entries: Seq::empty(), bin: seq![0u8] }),
            )
            &&& t.get(k) matches Some(ValueView::Int(_)) ==> t2.get(k) == Some(
                ValueView::Int(parse_decimal_i64(encode_utf8(args[1]))->0),
            )
            &&& t.get(k) is None ==> t2.get(k) == Some(ValueView::Str(args[1]))
            &&& forall|k2: Seq<char>| k2 != k ==> #[trigger] t2.get(k2) == t.get(k2)
        }),
{
    let k = args[0];
    let v = ValueView::from_string(args[1], t.set_type(k));
    lemma_get_after_insert(t, k, v);
    assert forall|k2: Seq<char>| k2 != k implies #[trigger] t.insert(k, v).get(k2) == t.get(k2) by {
        lemma_get_after_insert_other(t, k, v, k2);
    }
}

/// The lines of `s`: the pieces between its line breaks, in order (one piece, empty, for empty
/// text).
pub open spec fn lines(s: Seq<char>) -> Seq<Seq<char>>
    decreases s.len(),
{
    if s.len() == 0 {
        seq![Seq::empty()]
    } else if s.last() == '\n' {
        lines(s.drop_last()).push(Seq::empty())
    } else {
        let l = lines(s.drop_last());
        l.update(l.len() - 1, l.last().push(s.last()))
    }
}

/// Whether `s` holds no line break.
pub open spec fn one_line(s: Seq<char>) -> bool {
    forall|j: int| 0 <= j < s.len() ==> s[j] != '\n'
}

proof fn lemma_lines_len(s: Seq<char>)
    ensures
        lines(s).len() >= 1,
    decreases s.len(),
{
    if s.len() > 0 {
        lemma_lines_len(s.drop_last());
    }
}

/// Text after a line break that holds no line break itself is one more line.
proof fn lemma_lines_after_break(a: Seq<char>, b: Seq<char>)
    requires
        one_line(b),
    ensures
        lines(a + seq!['\n'] + b) == lines(a).push(b),
    decreases b.len(),
{
    let s = a + seq!['\n'] + b;
    if b.len() == 0 {
        assert(s.drop_last() =~= a);
        assert(s.last() == '\n');
        assert(b =~= Seq::<char>::empty());
    } else {
        let b2 = b.drop_last();
        assert forall|j: int| 0 <= j < b2.len() implies b2[j] != '\n' by {
            assert(b2[j] == b[j]);
        }
        lemma_lines_after_break(a, b2);
        assert(s.drop_last() =~= a + seq!['\n'] + b2);
        assert(s.last() == b.last());
        assert(b.last() != '\n');
        lemma_lines_len(a);
        assert(b2.push(b.last()) =~= b);
        let l = lines(a).push(b2);
        assert(l.len() - 1 == lines(a).len());
        assert(l.last() == b2);
        assert(l.update(l.len() - 1, b2.push(b.last())) =~= lines(a).push(b));
    }
}

/// Text without line breaks is a single line.
proof fn lemma_lines_one(b: Seq<char>)
    requires
        one_line(b),
    ensures
        lines(b) == seq![b],
    decreases b.len(),
{
    if b.len() > 0 {
        let b2 = b.drop_last();
        assert forall|j: int| 0 <= j < b2.len() implies b2[j] != '\n' by {
            assert(b2[j] == b[j]);
        }
        lemma_lines_one(b2);
        assert(b.last() != '\n');
        assert(b2.push(b.last()) =~= b);
        assert(seq![b2].update(0, b2.push(b.last())) =~= seq![b]);
    } else {
        assert(b =~= Seq::<char>::empty());
    }
}

/// Listing non-empty keys without line breaks answers each key on a line of its own: split at
/// its line breaks, the answer gives back exactly the keys, in order. No keys give no text.
pub proof fn lemma_list_lines(keys: Seq<Seq<char>>)
    requires
        forall|i: int| 0 <= i < keys.len() ==> #[trigger] keys[i].len() > 0 && one_line(keys[i]),
    ensures
        keys.len() == 0 ==> list_text(keys) == Seq::<char>::empty(),
        keys.len() > 0 ==> list_text(keys).len() > 0 && lines(list_text(keys)) == keys,
    decreases keys.len(),
{
    if keys.len() > 0 {
        let d = keys.drop_last();
        assert forall|i: int| 0 <= i < d.len() implies #[trigger] d[i].len() > 0 && one_line(d[i]) by {
            assert(d[i] == keys[i]);
        }
        lemma_list_lines(d);
        let last = keys[keys.len() - 1];
        assert(last.len() > 0 && one_line(last));
        if d.len() == 0 {
            lemma_lines_one(last);
            assert(keys =~= seq![last]);
        } else {
            lemma_lines_after_break(list_text(d), last);
            assert(d.push(last) =~= keys);
        }
    }
}

/// `list` on a table whose keys are non-empty and hold no line break answers every key of the
/// table exactly once, one per line, in the table's order: split at line breaks, the answer is
/// the keys, they are distinct, and a text is one of the lines exactly where the table holds a
/// value under it.
pub proof fn lemma_list_table(t: TableView)
    requires
        t.wf(),
        t.entries.len() > 0,
        forall|i: int| 0 <= i < t.entries.len() ==> #[trigger] t.entries[i].0.len() > 0 && one_line(
            t.entries[i].0,
        ),
    ensures
        lines(list_text(keys_of(t.entries))) == keys_of(t.entries),
        keys_distinct(t.entries),
        forall|k: Seq<char>| #[trigger] lines(list_text(keys_of(t.entries))).contains(k) <==> t.get(k) is Some,
{
    let keys = keys_of(t.entries);
    assert forall|i: int| 0 <= i < keys.len() implies #[trigger] keys[i].len() > 0 && one_line(keys[i]) by {
        assert(keys[i] == t.entries[i].0);
    }
    lemma_list_lines(keys);
    assert forall|k: Seq<char>| #[trigger] lines(list_text(keys)).contains(k) <==> t.get(k) is Some by {
        if keys.contains(k) {
            let j = choose|j: int| 0 <= j < keys.len() && keys[j] == k;
            assert(t.entries[j].0 == k);
            lemma_key_index_held(t.entries, k, j);
        }
        if t.get(k) is Some {
            lemma_key_index_found(t.entries, k);
            let i = key_index(t.entries, k);
            assert(keys[i] == k);
        }
    }
}

} // verus!
