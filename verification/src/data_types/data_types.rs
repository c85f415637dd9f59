use vstd::prelude::*;
use vstd::utf8::encode_utf8;

use crate::data_types::integer::{be64, decimal_i64, parse_decimal_i64, Int};
use crate::data_types::table::Table;
use crate::utils::{be32, str_eq};

verus! {

/// A value that can be written out: its stored bytes, its text and its type byte.
pub trait Savable {
    spec fn spec_to_bin(&self) -> Seq<u8>;

    spec fn spec_to_string_bin(&self) -> Seq<u8>;

    spec fn spec_signature(&self) -> u8;

    /// The bytes that stand for the value in a dump.
    fn to_bin(&self) -> (r: &[u8])
        ensures
            r@ == self.spec_to_bin(),
    ;

    /// The bytes that `get` answers with.
    fn to_string_bin(&self) -> (r: Vec<u8>)
        ensures
            r@ == self.spec_to_string_bin(),
    ;

    /// The type byte written before the value in a dump.
    fn signature(&self) -> (r: u8)
        ensures
            r == self.spec_signature(),
    ;
}

/// A value that can be read back from text or from the bytes of a dump.
pub trait Loadable: Sized {
    /// Whether text `s` can be read as a value of this type.
    spec fn loads_from_str(s: Seq<char>) -> bool;

    /// Whether `r` is what text `s` reads as.
    spec fn loaded_from_str(s: Seq<char>, r: Self) -> bool;

    /// Whether bytes `b` can be read as a value of this type.
    spec fn loads_from_bin(b: Seq<u8>) -> bool;

    /// Whether `r` is what bytes `b` read as.
    spec fn loaded_from_bin(b: Seq<u8>, r: Self) -> bool;

    fn from_str(s: &str) -> (r: Self)
        requires
            Self::loads_from_str(s@),
        ensures
            Self::loaded_from_str(s@, r),
    ;

    fn from_bin(b: &[u8]) -> (r: Self)
        requires
            Self::loads_from_bin(b@),
        ensures
            Self::loaded_from_bin(b@, r),
    ;
}

/// A type that the database stores.
pub trait DBDataType: Savable + Loadable {

}

/// What a stored value is: a string, a nested table or an integer.
pub enum ValueView {
    Str(Seq<char>),
    Table(TableView),
    Int(i64),
}

/// What a table is: its entries in order, and the bytes it keeps as its dump.
pub struct TableView {
    pub entries: Seq<(Seq<char>, ValueView)>,
    pub bin: Seq<u8>,
}

/// A stored value.
#[derive(Debug)]
pub enum SavableType {
    String(String),
    Table(Table),
    Int(Int),
}

pub open spec fn value_view(v: SavableType) -> ValueView
    decreases v,
{
    match v {
        SavableType::String(s) => ValueView::Str(s@),
        SavableType::Table(t) => ValueView::Table(
            TableView { entries: entries_view(t.data@), bin: t.bin_data@ },
        ),
        SavableType::Int(i) => ValueView::Int(i@),
    }
}

/// What a run of stored entries is: each key's characters with its value's view.
pub open spec fn entries_view(s: Seq<(String, SavableType)>) -> Seq<(Seq<char>, ValueView)>
    decreases s,
{
    Seq::new(
        s.len(),
        |i: int|
            if 0 <= i < s.len() {
                (s[i].0@, value_view(s[i].1))
            } else {
                (Seq::empty(), ValueView::Int(0))
            },
    )
}

impl View for SavableType {
    type V = ValueView;

    open spec fn view(&self) -> ValueView {
        value_view(*self)
    }
}

impl ValueView {
    /// The type byte: 0 for strings, 1 for tables, 2 for integers.
    pub open spec fn signature(self) -> u8 {
        match self {
            ValueView::Str(_) => 0,
            ValueView::Table(_) => 1,
            ValueView::Int(_) => 2,
        }
    }

    /// The bytes written for the value in a dump.
    pub open spec fn bin(self) -> Seq<u8> {
        match self {
            ValueView::Str(s) => encode_utf8(s),
            ValueView::Table(t) => t.bin,
            ValueView::Int(i) => be64(i),
        }
    }

    /// The bytes that `get` answers with.
    pub open spec fn string_bin(self) -> Seq<u8> {
        match self {
            ValueView::Str(s) => encode_utf8(s),
            ValueView::Table(t) => t.bin,
            ValueView::Int(i) => decimal_i64(i),
        }
    }

    /// Whether `s` can be stored as a value of type `typ` (an integer must parse).
    pub open spec fn from_string_ok(s: Seq<char>, typ: u8) -> bool {
        typ == 2 ==> parse_decimal_i64(encode_utf8(s)) is Some
    }

    /// The value that text `s` becomes when stored as type `typ`; unknown types store text.
    pub open spec fn from_string(s: Seq<char>, typ: u8) -> ValueView {
        if typ == 1 {
            ValueView::Table(TableView::empty())
        } else if typ == 2 {
            ValueView::Int(parse_decimal_i64(encode_utf8(s))->0)
        } else {
            ValueView::Str(s)
        }
    }

    /// The empty value of the type that `ty` names, if it names one.
    pub open spec fn from_type_name(ty: Seq<char>) -> Option<ValueView> {
        if ty == "str"@ || ty == "string"@ {
            Some(ValueView::Str(Seq::empty()))
        } else if ty == "table"@ {
            Some(ValueView::Table(TableView::empty()))
        } else if ty == "int"@ {
            Some(ValueView::Int(0))
        } else {
            None
        }
    }
}

/// One entry as a dump writes it: type byte, four length bytes, key, a zero byte, value.
pub open spec fn entry_bits(k: Seq<char>, v: ValueView) -> Seq<u8> {
    seq![v.signature()] + be32(v.bin().len() as u32) + encode_utf8(k) + seq![0u8] + v.bin()
}

/// The entries written one after another.
pub open spec fn entries_bits(es: Seq<(Seq<char>, ValueView)>) -> Seq<u8>
    decreases es.len(),
{
    if es.len() == 0 {
        Seq::empty()
    } else {
        entries_bits(es.drop_last()) + entry_bits(es.last().0, es.last().1)
    }
}

/// `i` is the first position that holds key `k`.
pub open spec fn is_key_index(es: Seq<(Seq<char>, ValueView)>, k: Seq<char>, i: int) -> bool {
    &&& 0 <= i < es.len()
    &&& es[i].0 == k
    &&& forall|j: int| 0 <= j < i ==> es[j].0 != k
}

/// The first position that holds key `k`, or -1.
pub open spec fn key_index(es: Seq<(Seq<char>, ValueView)>, k: Seq<char>) -> int {
    if exists|i: int| is_key_index(es, k, i) {
        choose|i: int| is_key_index(es, k, i)
    } else {
        -1
    }
}

/// The entries after storing `v` under `k`: an existing key keeps its place, a new one goes last.
pub open spec fn insert_entry(es: Seq<(Seq<char>, ValueView)>, k: Seq<char>, v: ValueView) -> Seq<
    (Seq<char>, ValueView),
> {
    let i = key_index(es, k);
    if i >= 0 {
        es.update(i, (k, v))
    } else {
        es.push((k, v))
    }
}

/// Whether an entry's key differs from `k`.
pub open spec fn key_differs(k: Seq<char>) -> spec_fn((Seq<char>, ValueView)) -> bool {
    |e: (Seq<char>, ValueView)| e.0 != k
}

impl TableView {
    /// A new table: no entries, and the single zero byte as its bytes.
    pub open spec fn empty() -> TableView {
        TableView { entries: Seq::empty(), bin: seq![0u8] }
    }

    /// The value stored under `k`.
    pub open spec fn get(self, k: Seq<char>) -> Option<ValueView> {
        let i = key_index(self.entries, k);
        if i >= 0 {
            Some(self.entries[i].1)
        } else {
            None
        }
    }

    /// The same entries with their bytes written afresh.
    pub open spec fn refreshed(self) -> TableView {
        TableView { entries: self.entries, bin: entries_bits(self.entries) }
    }

    /// The table after storing `v` under `k`.
    pub open spec fn insert(self, k: Seq<char>, v: ValueView) -> TableView {
        TableView { entries: insert_entry(self.entries, k, v), bin: self.bin }.refreshed()
    }

    /// The table after taking key `k` out.
    pub open spec fn remove(self, k: Seq<char>) -> TableView {
        TableView {
            entries: self.entries.filter(key_differs(k)),
            bin: self.bin,
        }.refreshed()
    }
}

/// Whether no key occurs twice among the entries.
pub open spec fn keys_distinct(es: Seq<(Seq<char>, ValueView)>) -> bool {
    forall|i: int, j: int| 0 <= i < j < es.len() ==> es[i].0 != es[j].0
}

impl TableView {
    /// Whether the table is well formed: each key occurs once.
    pub open spec fn wf(self) -> bool {
        keys_distinct(self.entries)
    }
}

/// A key that is held somewhere has a position.
pub proof fn lemma_key_index_held(es: Seq<(Seq<char>, ValueView)>, k: Seq<char>, j: int)
    requires
        0 <= j < es.len(),
        es[j].0 == k,
    ensures
        key_index(es, k) >= 0,
    decreases j,
{
    if exists|m: int| 0 <= m < j && es[m].0 == k {
        let m = choose|m: int| 0 <= m < j && es[m].0 == k;
        lemma_key_index_held(es, k, m);
    } else {
        assert(is_key_index(es, k, j));
    }
}

/// Storing under a key keeps the keys distinct.
pub proof fn lemma_insert_wf(t: TableView, k: Seq<char>, v: ValueView)
    requires
        t.wf(),
    ensures
        t.insert(k, v).wf(),
{
    let es = t.entries;
    let i = key_index(es, k);
    let n = insert_entry(es, k, v);
    if i >= 0 {
        lemma_key_index_found(es, k);
        assert forall|a: int, b: int| 0 <= a < b < n.len() implies n[a].0 != n[b].0 by {
            assert(n[a].0 == es[a].0);
            assert(n[b].0 == es[b].0);
        }
    } else {
        assert forall|a: int, b: int| 0 <= a < b < n.len() implies n[a].0 != n[b].0 by {
            if b == es.len() {
                if es[a].0 == k {
                    lemma_key_index_held(es, k, a);
                }
            }
        }
    }
}

/// Taking entries out keeps the keys distinct.
pub proof fn lemma_filter_keys_distinct(es: Seq<(Seq<char>, ValueView)>, k: Seq<char>)
    requires
        keys_distinct(es),
    ensures
        keys_distinct(es.filter(key_differs(k))),
    decreases es.len(),
{
    let pred = key_differs(k);
    reveal_with_fuel(Seq::<_>::filter, 1);
    if es.len() > 0 {
        let d = es.drop_last();
        let x = es.last();
        assert(d.push(x) =~= es);
        lemma_filter_keys_distinct(d, k);
        let fd = d.filter(pred);
        if pred(x) {
            let f = fd.push(x);
            assert(es.filter(pred) == f);
            assert forall|a: int, b: int| 0 <= a < b < f.len() implies f[a].0 != f[b].0 by {
                if b == fd.len() {
                    assert(fd.contains(fd[a]));
                    d.lemma_filter_contains_rev(pred, fd[a]);
                    let m = choose|m: int| 0 <= m < d.len() && d[m] == fd[a];
                    assert(es[m] == d[m]);
                    assert(es[es.len() - 1] == x);
                }
            }
        } else {
            assert(es.filter(pred) == fd);
        }
    }
}

/// Taking a key out keeps the keys distinct.
pub proof fn lemma_remove_wf(t: TableView, k: Seq<char>)
    requires
        t.wf(),
    ensures
        t.remove(k).wf(),
{
    lemma_filter_keys_distinct(t.entries, k);
}

/// The first position of a key is unique.
pub proof fn lemma_key_index_is(es: Seq<(Seq<char>, ValueView)>, k: Seq<char>, i: int)
    requires
        is_key_index(es, k, i),
    ensures
        key_index(es, k) == i,
{
    let j = key_index(es, k);
    assert(is_key_index(es, k, j));
    if j < i {
        assert(es[j].0 != k);
    } else if i < j {
        assert(es[i].0 != k);
    }
}

/// A key held nowhere has no position.
pub proof fn lemma_key_index_absent(es: Seq<(Seq<char>, ValueView)>, k: Seq<char>)
    requires
        forall|j: int| 0 <= j < es.len() ==> es[j].0 != k,
    ensures
        key_index(es, k) == -1,
{
}

/// A found key position is a position of that key.
pub proof fn lemma_key_index_found(es: Seq<(Seq<char>, ValueView)>, k: Seq<char>)
    requires
        key_index(es, k) >= 0,
    ensures
        is_key_index(es, k, key_index(es, k)),
{
}

/// Why a type name was refused.
#[derive(Debug)]
pub enum ParseError {
    VariantNotFound,
}

impl Savable for SavableType {
    open spec fn spec_to_bin(&self) -> Seq<u8> {
        self@.bin()
    }

    open spec fn spec_to_string_bin(&self) -> Seq<u8> {
        self@.string_bin()
    }

    open spec fn spec_signature(&self) -> u8 {
        self@.signature()
    }

    fn to_bin(&self) -> (r: &[u8]) {
        match self {
            SavableType::String(t) => t.to_bin(),
            SavableType::Table(t) => t.to_bin(),
            SavableType::Int(t) => t.to_bin(),
        }
    }

    fn signature(&self) -> (r: u8) {
        match self {
            SavableType::String(t) => t.signature(),
            SavableType::Table(t) => t.signature(),
            SavableType::Int(t) => t.signature(),
        }
    }

    fn to_string_bin(&self) -> (r: Vec<u8>) {
        match self {
            SavableType::String(t) => t.to_string_bin(),
            SavableType::Table(t) => t.to_string_bin(),
            SavableType::Int(t) => t.to_string_bin(),
        }
    }
}

impl SavableType {
    /// Stores text `s` as a value of type `typ` (0 text, 1 table, 2 integer, others text).
    pub fn from_string(s: String, typ: u8) -> (r: Self)
        requires
            ValueView::from_string_ok(s@, typ),
        ensures
            r@ == ValueView::from_string(s@, typ),
    {
        match typ {
            0 => SavableType::String(s),
            1 => SavableType::Table(<Table as Loadable>::from_str(s.as_str())),
            2 => SavableType::Int(<Int as Loadable>::from_str(s.as_str())),
            _ => SavableType::String(s),
        }
    }

    /// The empty value of the type named by `ty` (`str` or `string`, `table`, `int`).
    pub fn from_str(ty: &str) -> (r: Result<Self, ParseError>)
        ensures
            match r {
                Ok(v) => ValueView::from_type_name(ty@) == Some(v@),
                Err(_) => ValueView::from_type_name(ty@) is None,
            },
    {
        if str_eq(ty, "str") || str_eq(ty, "string") {
            Ok(SavableType::String(String::new()))
        } else if str_eq(ty, "table") {
            Ok(SavableType::Table(Table::default()))
        } else if str_eq(ty, "int") {
            Ok(SavableType::Int(Int::new(0)))
        } else {
            Err(ParseError::VariantNotFound)
        }
    }
}

} // verus!
