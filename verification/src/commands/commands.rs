use vstd::prelude::*;
use vstd::utf8::encode_utf8;

use crate::commands::load::GetError;
use crate::data_types::data_types::{ParseError, Savable, SavableType, TableView, ValueView};
use crate::data_types::table::Table;
use crate::utils::{append_bytes, str_eq};

verus! {

/// A command was given fewer arguments than it reads.
#[derive(Debug)]
pub struct NotEnoughArgsError {}

/// Why a table command failed.
#[derive(Debug)]
pub enum CommandError {
    NotEnoughArgs(NotEnoughArgsError),
    Get(GetError),
    Type(ParseError),
}

/// What a command's failure is, with keys as their characters.
pub enum ErrorView {
    NotEnoughArgs,
    GetNotEnoughArgs,
    KeyNotFound(Seq<char>),
    VariantNotFound,
}

impl View for CommandError {
    type V = ErrorView;

    open spec fn view(&self) -> ErrorView {
        match self {
            CommandError::NotEnoughArgs(_) => ErrorView::NotEnoughArgs,
            CommandError::Get(GetError::NotEnoughArgsError(_)) => ErrorView::GetNotEnoughArgs,
            CommandError::Get(GetError::KeyNotFoundError(e)) => ErrorView::KeyNotFound(e.key@),
            CommandError::Type(_) => ErrorView::VariantNotFound,
        }
    }
}

/// A command that acts on the whole database.
pub trait Command {
    fn apply(handler: &mut DbHandler, args: &[String]) -> Result<Vec<u8>, CommandError>;
}

/// The database: where dumps go, and the root value (a table).
#[derive(Debug)]
pub struct DbHandler {
    pub dump_path: String,
    pub data: SavableType,
}

/// What a database-level command asks for.
#[derive(Debug)]
pub enum DbAction {
    /// Write the root table to the dump file.
    Dump,
    /// Answer with these bytes.
    Reply(Vec<u8>),
    /// The command is no database-level command ("unknown command").
    Unknown,
}

/// The characters of each argument.
pub open spec fn args_view(args: Seq<String>) -> Seq<Seq<char>> {
    args.map_values(|s: String| s@)
}

/// The bytes of a text answer.
pub open spec fn text(s: &str) -> Seq<u8> {
    encode_utf8(s@)
}

impl TableView {
    /// The type a `set` stores its text as: that of the value already under the key, else text.
    pub open spec fn set_type(self, key: Seq<char>) -> u8 {
        match self.get(key) {
            Some(v) => v.signature(),
            None => 0,
        }
    }

    /// `set key value`: stores the text as a value of the type already under the key.
    pub open spec fn set_result(self, args: Seq<Seq<char>>) -> (TableView, Result<Seq<u8>, ErrorView>) {
        if args.len() < 2 {
            (self, Err(ErrorView::NotEnoughArgs))
        } else {
            (
                self.insert(args[0], ValueView::from_string(args[1], self.set_type(args[0]))),
                Ok(text("done")),
            )
        }
    }

    /// Whether `set` can store its text (an integer must parse).
    pub open spec fn set_ok(self, args: Seq<Seq<char>>) -> bool {
        args.len() >= 2 ==> ValueView::from_string_ok(args[1], self.set_type(args[0]))
    }

    /// `get key`: answers with the text of the value under the key.
    pub open spec fn get_result(self, args: Seq<Seq<char>>) -> (TableView, Result<Seq<u8>, ErrorView>) {
        if args.len() < 1 {
            (self, Err(ErrorView::GetNotEnoughArgs))
        } else {
            match self.get(args[0]) {
                Some(v) => (self, Ok(v.string_bin())),
                None => (self, Err(ErrorView::KeyNotFound(args[0]))),
            }
        }
    }

    /// `touch name type`: stores an empty value of the named type.
    pub open spec fn touch_result(self, args: Seq<Seq<char>>) -> (TableView, Result<Seq<u8>, ErrorView>) {
        if args.len() < 2 {
            (self, Err(ErrorView::NotEnoughArgs))
        } else {
            match ValueView::from_type_name(args[1]) {
                Some(v) => (self.insert(args[0], v), Ok(text("done"))),
                None => (self, Err(ErrorView::VariantNotFound)),
            }
        }
    }

    /// A table command: `set`, `get` or `touch`; any other word is answered "unknown command".
    pub open spec fn command_result(self, first: Seq<char>, args: Seq<Seq<char>>) -> (
        TableView,
        Result<Seq<u8>, ErrorView>,
    ) {
        if first == "set"@ {
            self.set_result(args)
        } else if first == "get"@ {
            self.get_result(args)
        } else if first == "touch"@ {
            self.touch_result(args)
        } else {
            (self, Ok(text("unknown command")))
        }
    }

    /// Whether a table command can run: a `set` must be able to store its text.
    pub open spec fn command_ok(self, first: Seq<char>, args: Seq<Seq<char>>) -> bool {
        first == "set"@ ==> self.set_ok(args)
    }
}

/// The bytes of a text answer.
pub fn text_bytes(s: &str) -> (r: Vec<u8>)
    ensures
        r@ == text(s),
{
    let mut out: Vec<u8> = Vec::new();
    append_bytes(&mut out, s.as_bytes());
    out
}

impl DbHandler {
    /// Database-level commands, checked before table commands: `dump` asks for a dump, `hawk`
    /// answers "tuah", and any other word is unknown here.
    pub fn handle_command(&self, first: &str, args: &[String]) -> (r: DbAction)
        ensures
            first@ == "dump"@ ==> r is Dump,
            first@ == "hawk"@ ==> (r matches DbAction::Reply(b) && b@ == text("tuah")),
            first@ != "dump"@ && first@ != "hawk"@ ==> r is Unknown,
    {
        proof {
            reveal_strlit("dump");
            reveal_strlit("hawk");
            assert("hawk"@[0] != "dump"@[0]);
        }
        if str_eq(first, "dump") {
            DbAction::Dump
        } else if str_eq(first, "hawk") {
            DbAction::Reply(text_bytes("tuah"))
        } else {
            DbAction::Unknown
        }
    }
}

impl Table {
    /// Whether a table command can run: a `set` of a key that holds an integer must be given
    /// decimal text.
    pub fn command_can_run(&self, first: &str, args: &[String]) -> (r: bool)
        ensures
            r == self@.command_ok(first@, args_view(args@)),
    {
        if !str_eq(first, "set") || args.len() < 2 {
            return true;
        }
        assert(args_view(args@)[0] == args@[0]@ && args_view(args@)[1] == args@[1]@);
        match self.load(args[0].clone()) {
            Ok(v) => {
                if v.signature() == 2 {
                    crate::data_types::integer::parse_i64(args[1].as_str().as_bytes()).is_some()
                } else {
                    true
                }
            },
            Err(_) => true,
        }
    }

    /// Table-level commands: `set`, `get` and `touch`.
    pub fn handle_command(&mut self, first: &str, args: &[String]) -> (r: Result<Vec<u8>, CommandError>)
        requires
            old(self)@.command_ok(first@, args_view(args@)),
        ensures
            (final(self)@, match r {
                Ok(b) => Ok(b@),
                Err(e) => Err(e@),
            }) == old(self)@.command_result(first@, args_view(args@)),
    {
        if str_eq(first, "set") {
            self.handle_set(args)
        } else if str_eq(first, "get") {
            self.handle_get(args)
        } else if str_eq(first, "touch") {
            self.handle_touch(args)
        } else {
            Ok(text_bytes("unknown command"))
        }
    }
}

impl Default for DbHandler {
    fn default() -> (r: DbHandler)
        ensures
            r.dump_path@ == "dump.dat"@,
            r.data@ == ValueView::Table(TableView::empty()),
    {
        DbHandler { data: SavableType::Table(Table::default()), dump_path: "dump.dat".to_owned() }
    }
}

} // verus!
