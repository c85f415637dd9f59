use vstd::prelude::*;
use vstd::utf8::{decode_utf8, valid_utf8};

use crate::commands::commands::{args_view, CommandError, DbHandler, ErrorView};
use crate::commands::load::{GetError, KeyNotFoundError};
use crate::data_types::data_types::{entries_view, key_index, lemma_key_index_found, SavableType, TableView, ValueView};
use crate::data_types::string::utf8_to_string;
use crate::utils::{be32_prefix_value, lemma_be32_value_sum, sub_bytes};

verus! {

/// The byte strings that `b` holds one after another, each after four length bytes; `None`
/// where `b` is not whole such pieces.
pub open spec fn parse_frames(b: Seq<u8>) -> Option<Seq<Seq<u8>>>
    decreases b.len(),
{
    if b.len() == 0 {
        Some(Seq::empty())
    } else if b.len() < 4 {
        None
    } else {
        let size = be32_prefix_value(b) as int;
        if b.len() - 4 < size {
            None
        } else {
            match parse_frames(b.skip(4 + size)) {
                None => None,
                Some(rest) => Some(seq![b.subrange(4, 4 + size)] + rest),
            }
        }
    }
}

/// Whether each piece is UTF-8 text.
pub open spec fn all_utf8(frames: Seq<Seq<u8>>) -> bool {
    forall|i: int| 0 <= i < frames.len() ==> valid_utf8(#[trigger] frames[i])
}

/// Whether `b` is whole length-prefixed pieces of UTF-8 text.
pub open spec fn strvec_ok(b: Seq<u8>) -> bool {
    parse_frames(b) matches Some(frames) && all_utf8(frames)
}

/// The texts of the pieces.
pub open spec fn decode_frames(frames: Seq<Seq<u8>>) -> Seq<Seq<char>> {
    frames.map_values(|f: Seq<u8>| decode_utf8(f))
}

/// How the server reads one message off the front of `m`: four length bytes, that many bytes
/// of command, four length bytes, then that many bytes of path; `None` where `m` ends first.
pub open spec fn read_message(m: Seq<u8>) -> Option<(Seq<u8>, Seq<u8>)> {
    if m.len() < 4 {
        None
    } else {
        let n = be32_prefix_value(m) as int;
        let a = m.skip(4);
        if a.len() < n + 4 {
            None
        } else {
            let b = a.skip(n);
            let p = be32_prefix_value(b) as int;
            if b.len() - 4 < p {
                None
            } else {
                Some((a.take(n), b.subrange(4, 4 + p)))
            }
        }
    }
}

/// What the server makes of a message's command and path: the first word, the other words,
/// and the names on the path; `None` where the command holds no word.
pub open spec fn request_of(cmd: Seq<u8>, path: Seq<u8>) -> Option<
    (Seq<char>, Seq<Seq<char>>, Seq<Seq<char>>),
> {
    let ws = decode_frames(parse_frames(cmd)->0);
    if ws.len() == 0 {
        None
    } else {
        Some((ws[0], ws.drop_first(), decode_frames(parse_frames(path)->0)))
    }
}

/// The strings that a message holds; `None` exactly where it is not whole length-prefixed
/// pieces of UTF-8 text.
pub fn try_bytes_to_strvec(bytes: &[u8]) -> (r: Option<Vec<String>>)
    ensures
        r is Some <==> strvec_ok(bytes@),
        r matches Some(v) ==> args_view(v@) == decode_frames(parse_frames(bytes@)->0),
{
    let n = bytes.len();
    let mut svec: Vec<String> = Vec::new();
    let mut idx: usize = 0;
    let ghost mut done: Seq<Seq<u8>> = Seq::empty();
    proof {
        assert(bytes@.skip(0) =~= bytes@);
        match parse_frames(bytes@) {
            Some(rest) => {
                assert(done + rest =~= rest);
            },
            None => {},
        }
        assert(args_view(svec@) =~= decode_frames(done));
    }
    while idx < n
        invariant
            n == bytes@.len(),
            idx <= n,
            parse_frames(bytes@) == (match parse_frames(bytes@.skip(idx as int)) {
                Some(rest) => Some(done + rest),
                None => None,
            }),
            all_utf8(done),
            args_view(svec@) == decode_frames(done),
        decreases n - idx,
    {
        let ghost c = bytes@.skip(idx as int);
        if n - idx < 4 {
            return None;
        }
        let (b0, b1, b2, b3) = (bytes[idx], bytes[idx + 1], bytes[idx + 2], bytes[idx + 3]);
        proof {
            lemma_be32_value_sum(b0, b1, b2, b3);
        }
        let size: usize = ((b0 as usize) << 24) + ((b1 as usize) << 16) + ((b2 as usize) << 8)
            + b3 as usize;
        assert(size == be32_prefix_value(c));
        idx = idx + 4;
        if size > n - idx {
            return None;
        }
        let str_bytes = sub_bytes(bytes, idx, idx + size);
        proof {
            assert(c.skip(4 + size) =~= bytes@.skip(idx + size));
            assert(c.subrange(4, 4 + size) =~= str_bytes@);
            match parse_frames(bytes@.skip(idx + size)) {
                Some(rest) => {
                    assert(done + (seq![str_bytes@] + rest) =~= done.push(str_bytes@) + rest);
                    assert((done.push(str_bytes@) + rest)[done.len() as int] == str_bytes@);
                },
                None => {},
            }
        }
        let s = match utf8_to_string(str_bytes) {
            Some(s) => s,
            None => {
                return None;
            },
        };
        let ghost old_svec = svec@;
        assert(s@ == decode_utf8(str_bytes@));
        svec.push(s);
        idx = idx + size;
        proof {
            let before = done;
            done = done.push(str_bytes@);
            assert(all_utf8(done)) by {
                assert forall|i: int| 0 <= i < done.len() implies valid_utf8(#[trigger] done[i]) by {
                    if i < before.len() {
                        assert(done[i] == before[i]);
                    }
                }
            }
            assert(svec@ == old_svec.push(s));
            assert(args_view(old_svec).len() == old_svec.len());
            assert(decode_frames(before).len() == before.len());
            assert(svec@.len() == done.len());
            assert(args_view(svec@) =~= decode_frames(done)) by {
                assert forall|i: int| 0 <= i < done.len() implies #[trigger] args_view(svec@)[i]
                    == decode_frames(done)[i] by {
                    if i < before.len() {
                        assert(args_view(old_svec)[i] == decode_frames(before)[i]);
                        assert(svec@[i] == old_svec[i]);
                        assert(done[i] == before[i]);
                    } else {
                        assert(svec@[i] == s);
                        assert(done[i] == str_bytes@);
                    }
                }
            }
        }
    }
    proof {
        assert(bytes@.skip(n as int) =~= Seq::<u8>::empty());
        assert(done + Seq::<Seq<u8>>::empty() =~= done);
    }
    Some(svec)
}

/// The strings that a message holds: each after four length bytes, most significant first.
pub fn bytes_to_strvec(bytes: Vec<u8>) -> (r: Vec<String>)
    requires
        strvec_ok(bytes@),
    ensures
        args_view(r@) == decode_frames(parse_frames(bytes@)->0),
{
    match try_bytes_to_strvec(bytes.as_slice()) {
        Some(v) => v,
        None => Vec::new(),
    }
}

/// What running a table command at a path comes to.
#[derive(Debug)]
pub enum TableOutcome {
    /// Answer with these bytes.
    Reply(Vec<u8>),
    /// The command failed; the answer is "command could not be executed".
    Failed(CommandError),
    /// The path ends at a value that is no table; nothing is answered.
    NoReply,
    /// A name on the path is not in its table; the server stops with this error.
    PathNotFound(GetError),
}

/// What a command's run at a path comes to, with bytes and keys as their views.
pub enum OutcomeView {
    Reply(Seq<u8>),
    Failed(ErrorView),
    NoReply,
    PathNotFound(Seq<char>),
}

impl View for TableOutcome {
    type V = OutcomeView;

    open spec fn view(&self) -> OutcomeView {
        match self {
            TableOutcome::Reply(b) => OutcomeView::Reply(b@),
            TableOutcome::Failed(e) => OutcomeView::Failed(e@),
            TableOutcome::NoReply => OutcomeView::NoReply,
            TableOutcome::PathNotFound(GetError::KeyNotFoundError(e)) => OutcomeView::PathNotFound(e.key@),
            TableOutcome::PathNotFound(GetError::NotEnoughArgsError(_)) => OutcomeView::PathNotFound(Seq::empty()),
        }
    }
}

/// Running `first args` at path `dir` from value `v`: each name on the path opens the value
/// under it when the current value is a table, and is passed over when it is not; at the end
/// a table runs the command and any other value answers nothing. Tables on the path keep
/// their bytes as they were.
pub open spec fn path_result(v: ValueView, dir: Seq<Seq<char>>, first: Seq<char>, args: Seq<Seq<char>>) -> (
    ValueView,
    OutcomeView,
)
    decreases dir.len(),
{
    if dir.len() == 0 {
        match v {
            ValueView::Table(t) => {
                let (t2, r) = t.command_result(first, args);
                (
                    ValueView::Table(t2),
                    match r {
                        Ok(b) => OutcomeView::Reply(b),
                        Err(e) => OutcomeView::Failed(e),
                    },
                )
            },
            _ => (v, OutcomeView::NoReply),
        }
    } else {
        match v {
            ValueView::Table(t) => {
                let i = key_index(t.entries, dir[0]);
                if i < 0 {
                    (v, OutcomeView::PathNotFound(dir[0]))
                } else {
                    let (c2, o) = path_result(t.entries[i].1, dir.drop_first(), first, args);
                    (
                        ValueView::Table(
                            TableView { entries: t.entries.update(i, (t.entries[i].0, c2)), bin: t.bin },
                        ),
                        o,
                    )
                }
            },
            _ => path_result(v, dir.drop_first(), first, args),
        }
    }
}

/// Whether the command that the path reaches can run.
pub open spec fn path_ok(v: ValueView, dir: Seq<Seq<char>>, first: Seq<char>, args: Seq<Seq<char>>) -> bool
    decreases dir.len(),
{
    if dir.len() == 0 {
        match v {
            ValueView::Table(t) => t.command_ok(first, args),
            _ => true,
        }
    } else {
        match v {
            ValueView::Table(t) => {
                let i = key_index(t.entries, dir[0]);
                i < 0 || path_ok(t.entries[i].1, dir.drop_first(), first, args)
            },
            _ => path_ok(v, dir.drop_first(), first, args),
        }
    }
}

fn run_at_path(v: &mut SavableType, dir: &[String], k: usize, first: &str, args: &[String]) -> (r: TableOutcome)
    requires
        k <= dir@.len(),
        path_ok(old(v)@, args_view(dir@).skip(k as int), first@, args_view(args@)),
    ensures
        (final(v)@, r@) == path_result(old(v)@, args_view(dir@).skip(k as int), first@, args_view(args@)),
    decreases dir@.len() - k,
{
    let ghost d = args_view(dir@).skip(k as int);
    if k == dir.len() {
        assert(d.len() == 0);
        match v {
            SavableType::Table(t) => match t.handle_command(first, args) {
                Ok(b) => TableOutcome::Reply(b),
                Err(e) => TableOutcome::Failed(e),
            },
            _ => TableOutcome::NoReply,
        }
    } else {
        assert(d[0] == dir@[k as int]@);
        assert(d.drop_first() =~= args_view(dir@).skip(k + 1));
        match v {
            SavableType::Table(t) => match t.position(dir[k].as_str()) {
                None => TableOutcome::PathNotFound(
                    GetError::KeyNotFoundError(KeyNotFoundError { key: dir[k].clone() }),
                ),
                Some(i) => {
                    proof {
                        lemma_key_index_found(t@.entries, dir@[k as int]@);
                    }
                    let ghost old_t = t@;
                    let ghost old_data = t.data@;
                    let r = run_at_path(&mut t.data[i].1, dir, k + 1, first, args);
                    assert(entries_view(t.data@) =~= old_t.entries.update(
                        i as int,
                        (old_t.entries[i as int].0, path_result(old_t.entries[i as int].1, d.drop_first(), first@, args_view(args@)).0),
                    ));
                    r
                },
            },
            _ => run_at_path(v, dir, k + 1, first, args),
        }
    }
}

fn path_ok_at(v: &SavableType, dir: &[String], k: usize, first: &str, args: &[String]) -> (r: bool)
    requires
        k <= dir@.len(),
    ensures
        r == path_ok(v@, args_view(dir@).skip(k as int), first@, args_view(args@)),
    decreases dir@.len() - k,
{
    let ghost d = args_view(dir@).skip(k as int);
    if k == dir.len() {
        assert(d.len() == 0);
        match v {
            SavableType::Table(t) => t.command_can_run(first, args),
            _ => true,
        }
    } else {
        assert(d[0] == dir@[k as int]@);
        assert(d.drop_first() =~= args_view(dir@).skip(k + 1));
        match v {
            SavableType::Table(t) => match t.position(dir[k].as_str()) {
                None => true,
                Some(i) => {
                    proof {
                        lemma_key_index_found(t@.entries, dir@[k as int]@);
                    }
                    path_ok_at(&t.data[i].1, dir, k + 1, first, args)
                },
            },
            _ => path_ok_at(v, dir, k + 1, first, args),
        }
    }
}

impl DbHandler {
    /// Whether table command `first args` at path `dir` can run: a `set` that reaches an
    /// integer must be given decimal text.
    pub fn path_command_ok(&self, dir: &[String], first: &str, args: &[String]) -> (r: bool)
        ensures
            r == path_ok(self.data@, args_view(dir@), first@, args_view(args@)),
    {
        assert(args_view(dir@).skip(0) =~= args_view(dir@));
        path_ok_at(&self.data, dir, 0, first, args)
    }

    /// Runs table command `first args` in the table reached by path `dir` from the root.
    pub fn handle_path_command(&mut self, dir: &[String], first: &str, args: &[String]) -> (r: TableOutcome)
        requires
            path_ok(old(self).data@, args_view(dir@), first@, args_view(args@)),
        ensures
            final(self).dump_path == old(self).dump_path,
            (final(self).data@, r@) == path_result(old(self).data@, args_view(dir@), first@, args_view(args@)),
    {
        assert(args_view(dir@).skip(0) =~= args_view(dir@));
        run_at_path(&mut self.data, dir, 0, first, args)
    }
}

} // verus!
