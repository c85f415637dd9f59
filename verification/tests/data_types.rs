use nosql::commands::commands::DbHandler;
use nosql::data_types::data_types::{Loadable, Savable, SavableType};
use nosql::data_types::integer::{format_i64, parse_i64, Int};
use nosql::data_types::table::Table;
use nosql::utils::{bytes_to_usize, u32_to_bytes};

fn s(x: &str) -> String {
    x.to_string()
}

#[test]
fn u32_to_bytes_is_big_endian() {
    assert_eq!(u32_to_bytes(0x01020304), [1, 2, 3, 4]);
    assert_eq!(u32_to_bytes(0), [0, 0, 0, 0]);
    assert_eq!(u32_to_bytes(u32::MAX), [255, 255, 255, 255]);
}

#[test]
fn bytes_to_usize_reads_big_endian() {
    assert_eq!(bytes_to_usize(vec![0, 0, 1, 0]), 256);
    assert_eq!(bytes_to_usize(vec![1, 2, 3, 4, 9, 9]), 0x01020304);
}

#[test]
fn u32_bytes_roundtrip_on_values() {
    for n in [0u32, 1, 255, 256, 65535, 0x12345678, u32::MAX] {
        assert_eq!(bytes_to_usize(u32_to_bytes(n).to_vec()), n as usize);
    }
}

#[test]
fn parse_i64_reads_decimal() {
    assert_eq!(parse_i64(b"42"), Some(42));
    assert_eq!(parse_i64(b"+007"), Some(7));
    assert_eq!(parse_i64(b"-15"), Some(-15));
    assert_eq!(parse_i64(b"9223372036854775807"), Some(i64::MAX));
    assert_eq!(parse_i64(b"-9223372036854775808"), Some(i64::MIN));
}

#[test]
fn parse_i64_refuses_what_from_str_refuses() {
    assert_eq!(parse_i64(b""), None);
    assert_eq!(parse_i64(b"-"), None);
    assert_eq!(parse_i64(b"+"), None);
    assert_eq!(parse_i64(b"12a"), None);
    assert_eq!(parse_i64(b" 1"), None);
    assert_eq!(parse_i64(b"9223372036854775808"), None);
    assert_eq!(parse_i64(b"-9223372036854775809"), None);
    assert_eq!(parse_i64(b"100000000000000000000000"), None);
}

#[test]
fn parse_i64_agrees_with_std() {
    for text in ["0", "-0", "+1", "00012", "-9223372036854775808", "9223372036854775807", "x", "1-", "--1", "٣"] {
        assert_eq!(parse_i64(text.as_bytes()), text.parse::<i64>().ok(), "{}", text);
    }
}

#[test]
fn format_i64_writes_decimal() {
    assert_eq!(format_i64(0), b"0".to_vec());
    assert_eq!(format_i64(-42), b"-42".to_vec());
    assert_eq!(format_i64(i64::MIN), b"-9223372036854775808".to_vec());
    assert_eq!(format_i64(i64::MAX), b"9223372036854775807".to_vec());
}

#[test]
fn decimal_roundtrip_on_values() {
    for v in [0i64, 1, -1, 10, 99, -100, i64::MAX, i64::MIN, 1234567890123] {
        assert_eq!(parse_i64(&format_i64(v)), Some(v));
        assert_eq!(format_i64(v), v.to_string().into_bytes());
    }
}

#[test]
fn int_bytes_are_big_endian() {
    let i = Int::new(0x0102030405060708);
    assert_eq!(i.to_bin(), &[1, 2, 3, 4, 5, 6, 7, 8]);
    assert_eq!(Int::new(-1).to_bin(), &[255; 8]);
    assert_eq!(i.signature(), 2);
}

#[test]
fn int_from_bin_shifts_every_bit_out() {
    for v in [0i64, 7, 300, i64::MIN, 0x0102030405060708] {
        let i = Int::new(v);
        assert!(Int::bin_readable(i.to_bin()));
        assert_eq!(<Int as Loadable>::from_bin(i.to_bin()).value(), 0);
    }
    assert_eq!(<Int as Loadable>::from_bin(&[0, 0, 0, 0, 0, 0, 1, 2]).value(), 0);
    assert_eq!(<Int as Loadable>::from_bin(&[0, 0, 0, 0, 0, 0, 1, 0, 99]).value(), 0);
    assert!(!Int::bin_readable(Int::new(-1).to_bin()));
    assert!(!Int::bin_readable(Int::new(-5).to_bin()));
    assert!(!Int::bin_readable(Int::new(0x7f00).to_bin()));
    assert!(!Int::bin_readable(&[0, 8, 0, 0, 0, 0, 0, 0]));
    assert!(!Int::bin_readable(&[0, 0, 0, 0, 0, 0, 0, 56]));
    assert!(Int::bin_readable(&[0, 7, 15, 23, 31, 39, 47, 55]));
    assert!(!Int::bin_readable(&[0, 0, 0, 0, 0, 0, 0]));
}

#[test]
fn int_from_str_and_text() {
    let i = <Int as Loadable>::from_str("+0041");
    assert_eq!(i.value(), 41);
    assert_eq!(i.to_string_bin(), b"41".to_vec());
}

#[test]
fn string_savable() {
    let x = s("héllo");
    assert_eq!(x.to_bin(), "héllo".as_bytes());
    assert_eq!(x.signature(), 0);
    assert_eq!(<String as Loadable>::from_bin("héllo".as_bytes()), s("héllo"));
    assert_eq!(<String as Loadable>::from_str("abc"), s("abc"));
}

#[test]
fn savable_type_from_string() {
    match SavableType::from_string(s("hi"), 0) {
        SavableType::String(t) => assert_eq!(t, s("hi")),
        _ => panic!("expected a string"),
    }
    match SavableType::from_string(s("hi"), 7) {
        SavableType::String(t) => assert_eq!(t, s("hi")),
        _ => panic!("expected a string"),
    }
    match SavableType::from_string(s("-12"), 2) {
        SavableType::Int(t) => assert_eq!(t.value(), -12),
        _ => panic!("expected an int"),
    }
    match SavableType::from_string(s("whatever"), 1) {
        SavableType::Table(t) => {
            assert!(t.data.is_empty());
            assert_eq!(t.bin_data, vec![0]);
        },
        _ => panic!("expected a table"),
    }
}

#[test]
fn savable_type_from_type_name() {
    assert!(matches!(SavableType::from_str("str"), Ok(SavableType::String(ref t)) if t.is_empty()));
    assert!(matches!(SavableType::from_str("string"), Ok(SavableType::String(_))));
    assert!(matches!(SavableType::from_str("table"), Ok(SavableType::Table(_))));
    assert!(matches!(SavableType::from_str("int"), Ok(SavableType::Int(ref i)) if i.value() == 0));
    assert!(SavableType::from_str("Int").is_err());
    assert!(SavableType::from_str("float").is_err());
}

#[test]
fn default_table_bytes() {
    let t = Table::default();
    assert!(t.data.is_empty());
    assert_eq!(t.to_bin(), &[0]);
    assert_eq!(t.signature(), 1);
}

#[test]
fn kv_bits_layout() {
    let b = DbHandler::kv_bits(&s("k"), &SavableType::String(s("ab")));
    assert_eq!(b, vec![0, 0, 0, 0, 2, b'k', 0, b'a', b'b']);
    let b = DbHandler::kv_bits(&s("n"), &SavableType::Int(Int::new(1)));
    assert_eq!(b, vec![2, 0, 0, 0, 8, b'n', 0, 0, 0, 0, 0, 0, 0, 0, 1]);
    let b = DbHandler::kv_bits(&s("t"), &SavableType::Table(Table::default()));
    assert_eq!(b, vec![1, 0, 0, 0, 1, b't', 0, 0]);
}

#[test]
fn insert_rewrites_bytes() {
    let mut t = Table::default();
    t.insert(s("a"), SavableType::String(s("x")));
    assert_eq!(t.bin_data, vec![0, 0, 0, 0, 1, b'a', 0, b'x']);
    t.insert(s("b"), SavableType::String(s("yz")));
    t.insert(s("a"), SavableType::String(s("w")));
    assert_eq!(t.data.len(), 2);
    assert_eq!(t.data[0].0, s("a"));
    assert_eq!(t.data[1].0, s("b"));
    let mut expected = DbHandler::kv_bits(&s("a"), &SavableType::String(s("w")));
    expected.extend(DbHandler::kv_bits(&s("b"), &SavableType::String(s("yz"))));
    assert_eq!(t.bin_data, expected);
}

#[test]
fn remove_takes_key_out() {
    let mut t = Table::default();
    t.insert(s("a"), SavableType::String(s("x")));
    t.insert(s("b"), SavableType::String(s("y")));
    t.remove(s("a"));
    assert_eq!(t.data.len(), 1);
    assert_eq!(t.data[0].0, s("b"));
    assert!(t.load(s("a")).is_err());
    assert_eq!(t.bin_data, DbHandler::kv_bits(&s("b"), &SavableType::String(s("y"))));
    t.remove(s("b"));
    assert!(t.bin_data.is_empty());
    t.remove(s("missing"));
    assert!(t.data.is_empty());
}

#[test]
fn position_finds_first() {
    let mut t = Table::default();
    t.insert(s("a"), SavableType::String(s("x")));
    t.insert(s("b"), SavableType::String(s("y")));
    assert_eq!(t.position("b"), Some(1));
    assert_eq!(t.position("c"), None);
}

#[test]
fn table_bytes_roundtrip() {
    let mut inner = Table::default();
    inner.insert(s("deep"), SavableType::Int(Int::new(0)));
    let mut t = Table::default();
    t.insert(s("name"), SavableType::String(s("crash")));
    t.insert(s("count"), SavableType::Int(Int::new(0)));
    t.insert(s("sub"), SavableType::Table(inner));
    let back = Table::try_from_bin(t.to_bin()).expect("readable");
    assert_eq!(back.data.len(), 3);
    assert_eq!(back.bin_data, t.bin_data);
    assert!(matches!(&back.data[0], (k, SavableType::String(v)) if k == "name" && v == "crash"));
    assert!(matches!(&back.data[1], (k, SavableType::Int(v)) if k == "count" && v.value() == 0));
    match &back.data[2] {
        (k, SavableType::Table(u)) => {
            assert_eq!(k, "sub");
            assert_eq!(u.data.len(), 1);
            assert!(matches!(&u.data[0], (k, SavableType::Int(v)) if k == "deep" && v.value() == 0));
        },
        _ => panic!("expected a table"),
    }
    let again = <Table as Loadable>::from_bin(t.to_bin());
    assert_eq!(again.bin_data, t.bin_data);
}

#[test]
fn table_ints_read_back_as_zero() {
    let mut t = Table::default();
    t.insert(s("count"), SavableType::Int(Int::new(3)));
    let back = Table::try_from_bin(t.to_bin()).expect("readable");
    assert!(matches!(&back.data[0], (k, SavableType::Int(v)) if k == "count" && v.value() == 0));
    let mut t = Table::default();
    t.insert(s("neg"), SavableType::Int(Int::new(-5)));
    assert!(Table::try_from_bin(t.to_bin()).is_none());
}

#[test]
fn emptied_nested_table_reads_back_empty() {
    let mut inner = Table::default();
    inner.insert(s("x"), SavableType::String(s("y")));
    inner.remove(s("x"));
    assert!(inner.bin_data.is_empty());
    let mut t = Table::default();
    t.insert(s("sub"), SavableType::Table(inner));
    let back = Table::try_from_bin(t.to_bin()).expect("readable");
    match &back.data[0] {
        (k, SavableType::Table(u)) => {
            assert_eq!(k, "sub");
            assert!(u.data.is_empty());
            assert_eq!(u.bin_data, vec![0]);
        },
        _ => panic!("expected a table"),
    }
}

#[test]
fn tables_keep_keys_distinct() {
    let mut t = Table::default();
    t.insert(s("a"), SavableType::String(s("1")));
    t.insert(s("b"), SavableType::String(s("2")));
    t.insert(s("a"), SavableType::String(s("3")));
    assert_eq!(t.data.len(), 2);
    t.remove(s("a"));
    assert_eq!(t.data.len(), 1);
    assert_eq!(t.data[0].0, s("b"));
}

#[test]
fn table_from_bin_later_entries_win() {
    let mut b = DbHandler::kv_bits(&s("k"), &SavableType::String(s("one")));
    b.extend(DbHandler::kv_bits(&s("j"), &SavableType::String(s("x"))));
    b.extend(DbHandler::kv_bits(&s("k"), &SavableType::String(s("two"))));
    let t = Table::try_from_bin(&b).expect("readable");
    assert_eq!(t.data.len(), 2);
    assert!(matches!(&t.data[0], (k, SavableType::String(v)) if k == "k" && v == "two"));
}

#[test]
fn table_from_bin_unknown_type_reads_text() {
    let b = vec![9, 0, 0, 0, 2, b'k', 0, b'h', b'i'];
    let t = Table::try_from_bin(&b).expect("readable");
    assert!(matches!(&t.data[0], (k, SavableType::String(v)) if k == "k" && v == "hi"));
}

#[test]
fn table_from_bin_refuses_broken_bytes() {
    assert!(Table::try_from_bin(&[0]).is_none());
    assert!(Table::try_from_bin(&[0, 0, 0, 0, 1, b'k']).is_none());
    assert!(Table::try_from_bin(&[0, 0, 0, 0, 5, b'k', 0, b'a']).is_none());
    assert!(Table::try_from_bin(&[0, 0, 0, 0, 1, 0xff, 0, b'a']).is_none());
    assert!(Table::try_from_bin(&[2, 0, 0, 0, 1, b'k', 0, 1]).is_none());
    assert!(Table::try_from_bin(&[1, 0, 0, 0, 1, b'k', 0, 0]).is_none());
    let empty = Table::try_from_bin(&[]).expect("readable");
    assert!(empty.data.is_empty());
    assert_eq!(empty.bin_data, vec![0]);
}
