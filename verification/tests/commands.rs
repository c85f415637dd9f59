use nosql::utils::bytes_to_usize;
use nosql::client::{char_bytes, char_is_white_space, client_message, split_bytes, split_words_bytes};
use nosql::commands::commands::{CommandError, DbAction, DbHandler};
use nosql::commands::dump::LoadError;
use nosql::commands::load::GetError;
use nosql::data_types::data_types::{SavableType, ParseError};
use nosql::data_types::integer::Int;
use nosql::data_types::table::Table;
use nosql::server::{bytes_to_strvec, try_bytes_to_strvec, TableOutcome};

fn s(x: &str) -> String {
    x.to_string()
}

fn args(xs: &[&str]) -> Vec<String> {
    xs.iter().map(|x| x.to_string()).collect()
}

fn run(db: &mut DbHandler, dir: &[&str], line: &str) -> TableOutcome {
    let words: Vec<&str> = line.split_whitespace().collect();
    db.handle_path_command(&args(dir), words[0], &args(&words[1..]))
}

fn reply(o: TableOutcome) -> Vec<u8> {
    match o {
        TableOutcome::Reply(b) => b,
        other => panic!("expected a reply, got {:?}", other),
    }
}

#[test]
fn set_then_get_answers_the_text() {
    let mut t = Table::default();
    assert_eq!(t.handle_command("set", &args(&["foo", "bar"])).unwrap(), b"done".to_vec());
    assert_eq!(t.handle_command("get", &args(&["foo"])).unwrap(), b"bar".to_vec());
    assert_eq!(t.handle_command("set", &args(&["foo", "baz"])).unwrap(), b"done".to_vec());
    assert_eq!(t.handle_command("get", &args(&["foo"])).unwrap(), b"baz".to_vec());
}

#[test]
fn readme_session() {
    let mut db = DbHandler::default();
    assert_eq!(reply(run(&mut db, &[], "set foo bar")), b"done".to_vec());
    assert_eq!(reply(run(&mut db, &[], "get foo")), b"bar".to_vec());
    assert_eq!(reply(run(&mut db, &[], "touch mytable table")), b"done".to_vec());
    assert_eq!(reply(run(&mut db, &["mytable"], "set foo notbar")), b"done".to_vec());
    assert_eq!(reply(run(&mut db, &["mytable"], "get foo")), b"notbar".to_vec());
    assert_eq!(reply(run(&mut db, &[], "get foo")), b"bar".to_vec());
}

#[test]
fn get_missing_key_fails() {
    let mut t = Table::default();
    match t.handle_command("get", &args(&["nope"])) {
        Err(CommandError::Get(GetError::KeyNotFoundError(e))) => assert_eq!(e.key, s("nope")),
        other => panic!("unexpected {:?}", other),
    }
}

#[test]
fn get_without_key_fails() {
    let mut t = Table::default();
    assert!(matches!(t.handle_command("get", &[]), Err(CommandError::Get(GetError::NotEnoughArgsError(_)))));
}

#[test]
fn set_without_value_fails() {
    let mut t = Table::default();
    assert!(matches!(t.handle_command("set", &args(&["k"])), Err(CommandError::NotEnoughArgs(_))));
    assert!(matches!(t.handle_command("set", &[]), Err(CommandError::NotEnoughArgs(_))));
    assert!(t.data.is_empty());
}

#[test]
fn touch_refuses_unknown_type() {
    let mut t = Table::default();
    assert!(matches!(
        t.handle_command("touch", &args(&["x", "float"])),
        Err(CommandError::Type(ParseError::VariantNotFound))
    ));
    assert!(matches!(t.handle_command("touch", &args(&["x"])), Err(CommandError::NotEnoughArgs(_))));
    assert!(t.data.is_empty());
}

#[test]
fn unknown_table_command() {
    let mut t = Table::default();
    assert_eq!(t.handle_command("frobnicate", &[]).unwrap(), b"unknown command".to_vec());
    assert_eq!(t.handle_command("inc", &args(&["x"])).unwrap(), b"unknown command".to_vec());
}

#[test]
fn int_values_keep_their_type() {
    let mut t = Table::default();
    assert_eq!(t.handle_command("touch", &args(&["n", "int"])).unwrap(), b"done".to_vec());
    assert_eq!(t.handle_command("get", &args(&["n"])).unwrap(), b"0".to_vec());
    assert_eq!(t.handle_command("set", &args(&["n", "+0041"])).unwrap(), b"done".to_vec());
    assert_eq!(t.handle_command("get", &args(&["n"])).unwrap(), b"41".to_vec());
    assert_eq!(t.handle_inc(&args(&["n"])).unwrap(), b"done".to_vec());
    assert_eq!(t.handle_command("get", &args(&["n"])).unwrap(), b"42".to_vec());
}

#[test]
fn inc_leaves_bytes_alone() {
    let mut t = Table::default();
    t.insert(s("n"), SavableType::Int(Int::new(5)));
    let before = t.bin_data.clone();
    assert_eq!(t.handle_inc(&args(&["n"])).unwrap(), b"done".to_vec());
    assert_eq!(t.bin_data, before);
    assert!(matches!(&t.data[0].1, SavableType::Int(i) if i.value() == 6));
}

#[test]
fn inc_on_text_and_missing() {
    let mut t = Table::default();
    t.insert(s("w"), SavableType::String(s("x")));
    assert_eq!(t.handle_inc(&args(&["w"])).unwrap(), b"inc can only be used on ints".to_vec());
    assert!(matches!(t.handle_inc(&args(&["q"])), Err(CommandError::Get(GetError::KeyNotFoundError(_)))));
    assert!(matches!(t.handle_inc(&[]), Err(CommandError::NotEnoughArgs(_))));
}

#[test]
fn list_joins_keys() {
    let mut t = Table::default();
    assert_eq!(t.handle_list(&[]).unwrap(), Vec::<u8>::new());
    t.insert(s("a"), SavableType::String(s("1")));
    t.insert(s("b"), SavableType::String(s("2")));
    t.insert(s("c"), SavableType::String(s("3")));
    assert_eq!(t.handle_list(&[]).unwrap(), b"a\nb\nc".to_vec());
}

#[test]
fn list_restarts_after_empty_key() {
    let mut t = Table::default();
    t.insert(s(""), SavableType::String(s("1")));
    t.insert(s("b"), SavableType::String(s("2")));
    assert_eq!(t.handle_list(&[]).unwrap(), b"b".to_vec());
}

#[test]
fn table_get_answers_its_bytes() {
    let mut t = Table::default();
    t.handle_command("touch", &args(&["sub", "table"])).unwrap();
    assert_eq!(t.handle_command("get", &args(&["sub"])).unwrap(), vec![0]);
}

#[test]
fn open_answers_name_and_zero() {
    let mut db = DbHandler::default();
    assert_eq!(db.handle_open(&args(&["dir"])).unwrap(), b"dir\0".to_vec());
    assert!(matches!(db.handle_open(&[]), Err(CommandError::NotEnoughArgs(_))));
}

#[test]
fn db_level_commands() {
    let db = DbHandler::default();
    assert!(matches!(db.handle_command("dump", &[]), DbAction::Dump));
    match db.handle_command("hawk", &[]) {
        DbAction::Reply(b) => assert_eq!(b, b"tuah".to_vec()),
        _ => panic!("expected a reply"),
    }
    assert!(matches!(db.handle_command("get", &[]), DbAction::Unknown));
    assert_eq!(db.dump_path, s("dump.dat"));
}

#[test]
fn path_to_missing_table_stops() {
    let mut db = DbHandler::default();
    match run(&mut db, &["nope"], "get x") {
        TableOutcome::PathNotFound(GetError::KeyNotFoundError(e)) => assert_eq!(e.key, s("nope")),
        other => panic!("unexpected {:?}", other),
    }
}

#[test]
fn path_through_text_is_passed_over() {
    let mut db = DbHandler::default();
    reply(run(&mut db, &[], "set foo bar"));
    assert!(matches!(run(&mut db, &["foo"], "get foo"), TableOutcome::NoReply));
    reply(run(&mut db, &[], "touch t table"));
    reply(run(&mut db, &["t"], "set k v"));
    assert!(matches!(run(&mut db, &["t", "k", "zzz"], "get k"), TableOutcome::NoReply));
    assert_eq!(reply(run(&mut db, &["t"], "get k")), b"v".to_vec());
}

#[test]
fn failed_table_command_is_reported() {
    let mut db = DbHandler::default();
    assert!(matches!(run(&mut db, &[], "get missing"), TableOutcome::Failed(_)));
}

#[test]
fn nested_set_leaves_parent_bytes() {
    let mut db = DbHandler::default();
    reply(run(&mut db, &[], "touch t table"));
    let parent_before = match &db.data {
        SavableType::Table(t) => t.bin_data.clone(),
        _ => panic!("root is a table"),
    };
    reply(run(&mut db, &["t"], "set k v"));
    match &db.data {
        SavableType::Table(t) => {
            assert_eq!(t.bin_data, parent_before);
            match &t.data[0].1 {
                SavableType::Table(u) => assert_eq!(u.bin_data, DbHandler::kv_bits(&s("k"), &SavableType::String(s("v")))),
                _ => panic!("expected a table"),
            }
        },
        _ => panic!("root is a table"),
    }
}

#[test]
fn dump_then_load_restores_entries() {
    let mut db = DbHandler::default();
    reply(run(&mut db, &[], "set foo bar"));
    reply(run(&mut db, &[], "touch n int"));
    reply(run(&mut db, &[], "set n 12"));
    reply(run(&mut db, &[], "touch t table"));
    reply(run(&mut db, &["t"], "set k v"));
    let (file, report) = db.dump();
    assert_eq!(report, format!("{} bytes dumped to dump.dat", file.len()).into_bytes());
    assert!(DbHandler::dump_loads(&file));
    let mut fresh = DbHandler::default();
    assert_eq!(fresh.handle_full_load(&file).unwrap(), b"loaded".to_vec());
    assert_eq!(reply(run(&mut fresh, &[], "get foo")), b"bar".to_vec());
    assert_eq!(reply(run(&mut fresh, &[], "get n")), b"0".to_vec());
    assert_eq!(reply(run(&mut fresh, &["t"], "get k")), b"v".to_vec());
}

#[test]
fn load_stops_on_cut_off_dump() {
    let mut db = DbHandler::default();
    let mut file = DbHandler::kv_bits(&s("a"), &SavableType::String(s("xyz")));
    file.extend(DbHandler::kv_bits(&s("b"), &SavableType::String(s("xyz"))));
    file.truncate(file.len() - 1);
    assert!(DbHandler::dump_loads(&file));
    assert!(matches!(db.handle_full_load(&file), Err(LoadError::UnexpectedEof)));
    match &db.data {
        SavableType::Table(t) => {
            assert_eq!(t.data.len(), 1);
            assert_eq!(t.data[0].0, s("a"));
        },
        _ => panic!("root is a table"),
    }
    let mut db2 = DbHandler::default();
    assert!(matches!(db2.handle_full_load(&[0, 0, 0]), Err(LoadError::UnexpectedEof)));
}

#[test]
fn load_refuses_unknown_type() {
    let mut db = DbHandler::default();
    let file = vec![9, 0, 0, 0, 1, b'k', 0, b'x'];
    match db.handle_full_load(&file) {
        Err(LoadError::InvalidTypeSignature(e)) => assert_eq!(e.signature, 9),
        other => panic!("unexpected {:?}", other),
    }
}

#[test]
fn load_key_without_terminator_drops_last_byte() {
    let mut db = DbHandler::default();
    let file = vec![0, 0, 0, 0, 0, b'a', b'b', b'c'];
    assert_eq!(db.handle_full_load(&file).unwrap(), b"loaded".to_vec());
    match &db.data {
        SavableType::Table(t) => assert_eq!(t.data[0].0, s("ab")),
        _ => panic!("root is a table"),
    }
}

#[test]
fn dump_loads_spots_unreadable_dumps() {
    assert!(!DbHandler::dump_loads(&[0, 0, 0, 0, 1, 0xff, 0, b'a']));
    assert!(!DbHandler::dump_loads(&[2, 0, 0, 0, 1, b'k', 0, 1]));
    assert!(!DbHandler::dump_loads(&[2, 0, 0, 0, 8, b'k', 0, 0, 8, 0, 0, 0, 0, 0, 0]));
    assert!(DbHandler::dump_loads(&[2, 0, 0, 0, 8, b'k', 0, 0, 7, 0, 0, 0, 0, 0, 0]));
    assert!(DbHandler::dump_loads(&[]));
}

#[test]
fn dump_of_one_text_entry() {
    let mut db = DbHandler::default();
    reply(run(&mut db, &[], "set foo bar"));
    let (file, report) = db.dump();
    assert_eq!(file, vec![0, 0, 0, 0, 3, b'f', b'o', b'o', 0, b'b', b'a', b'r']);
    assert_eq!(report, b"12 bytes dumped to dump.dat".to_vec());
    let (file, report) = DbHandler::default().dump();
    assert!(file.is_empty());
    assert_eq!(report, b"0 bytes dumped to dump.dat".to_vec());
}

#[test]
fn dump_report_text() {
    let db = DbHandler::default();
    assert_eq!(db.dump_report(123), b"123 bytes dumped to dump.dat".to_vec());
    assert_eq!(db.dump_report(0), b"0 bytes dumped to dump.dat".to_vec());
}

#[test]
fn strvec_roundtrip() {
    let words = args(&["set", "fö", "", "bar"]);
    let bytes = split_bytes(&words);
    assert_eq!(bytes_to_strvec(bytes.clone()), words);
    assert_eq!(try_bytes_to_strvec(&bytes), Some(words));
}

#[test]
fn strvec_layout() {
    assert_eq!(split_bytes(&args(&["ab", "c"])), vec![0, 0, 0, 2, b'a', b'b', 0, 0, 0, 1, b'c']);
    assert_eq!(bytes_to_strvec(vec![0, 0, 0, 1, b'x']), args(&["x"]));
    assert_eq!(bytes_to_strvec(vec![]), Vec::<String>::new());
}

#[test]
fn strvec_refuses_broken_messages() {
    assert_eq!(try_bytes_to_strvec(&[0, 0, 0]), None);
    assert_eq!(try_bytes_to_strvec(&[0, 0, 0, 5, b'a']), None);
    assert_eq!(try_bytes_to_strvec(&[0, 0, 0, 1, 0xff]), None);
}

#[test]
fn client_message_layout() {
    assert_eq!(
        client_message(b"abc", b"xy"),
        vec![0, 0, 0, 3, b'a', b'b', b'c', 0, 0, 0, 2, b'x', b'y']
    );
    assert_eq!(client_message(b"", b""), vec![0, 0, 0, 0, 0, 0, 0, 0]);
}

#[test]
fn message_reads_back_as_words_and_path() {
    let words: Vec<String> = vec!["set".into(), "foo".into(), "notbar".into()];
    let path: Vec<String> = vec!["mytable".into()];
    let mut m = client_message(&split_bytes(&words), &split_bytes(&path));
    m.extend_from_slice(b"next");
    let n = bytes_to_usize(m[0..4].to_vec());
    let cmd = bytes_to_strvec(m[4..4 + n].to_vec());
    let rest = &m[4 + n..];
    let p = bytes_to_usize(rest[0..4].to_vec());
    let dir = bytes_to_strvec(rest[4..4 + p].to_vec());
    assert_eq!(&rest[4 + p..], b"next");
    assert_eq!(cmd, words);
    assert_eq!(dir, path);
    let empty: Vec<String> = vec![];
    let m = client_message(&split_bytes(&words[..1]), &split_bytes(&empty));
    assert_eq!(m.len(), 4 + 7 + 4);
    assert_eq!(&m[11..], &[0, 0, 0, 0]);
}

#[test]
fn split_words_bytes_matches_split_whitespace() {
    for line in ["set foo bar\n", "  a\tb  ", "", "   ", "x\u{3000}y\u{85}z", "héllo wörld", "one"] {
        let words: Vec<String> = line.split_whitespace().map(|w| w.to_string()).collect();
        assert_eq!(split_words_bytes(line), split_bytes(&words), "{:?}", line);
    }
}

#[test]
fn char_bytes_is_utf8() {
    for c in ['a', 'é', '€', '😀', '\u{7f}', '\u{80}', '\u{7ff}', '\u{800}', '\u{ffff}', '\u{10000}'] {
        let mut buf = [0u8; 4];
        assert_eq!(char_bytes(c), c.encode_utf8(&mut buf).as_bytes().to_vec());
    }
}

#[test]
fn white_space_matches_std() {
    for u in 0u32..0x3100 {
        if let Some(c) = char::from_u32(u) {
            assert_eq!(char_is_white_space(c), c.is_whitespace(), "{:#x}", u);
        }
    }
}
