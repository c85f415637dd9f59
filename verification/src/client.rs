use vstd::prelude::*;
use vstd::std_specs::iter::IteratorSpec;
use vstd::utf8::{decode_utf8, encode_utf8, valid_utf8};

use crate::commands::commands::args_view;
use crate::data_types::data_types::Savable;
use crate::server::{all_utf8, decode_frames, parse_frames, read_message, request_of, strvec_ok};
use crate::utils::{append_bytes, be32, be32_prefix_value, lemma_be32_roundtrip, u32_to_bytes};

verus! {

/// Byte strings written one after another, each after its length in four bytes.
pub open spec fn frames_bits(fs: Seq<Seq<u8>>) -> Seq<u8>
    decreases fs.len(),
{
    if fs.len() == 0 {
        Seq::empty()
    } else {
        frames_bits(fs.drop_last()) + be32(fs.last().len() as u32) + fs.last()
    }
}

/// The UTF-8 bytes of each string.
pub open spec fn utf8_all(ws: Seq<Seq<char>>) -> Seq<Seq<u8>> {
    ws.map_values(|w: Seq<char>| encode_utf8(w))
}

/// The message that carries `words`: each word's UTF-8 bytes after their length in four bytes.
pub fn split_bytes(words: &[String]) -> (r: Vec<u8>)
    ensures
        r@ == frames_bits(utf8_all(args_view(words@))),
{
    let ghost fs = utf8_all(args_view(words@));
    let mut bvec: Vec<u8> = Vec::new();
    let n = words.len();
    let mut i: usize = 0;
    while i < n
        invariant
            n == words@.len(),
            0 <= i <= n,
            fs == utf8_all(args_view(words@)),
            bvec@ == frames_bits(fs.take(i as int)),
        decreases n - i,
    {
        let nbytes = words[i].to_bin();
        append_bytes(&mut bvec, u32_to_bytes(nbytes.len() as u32).as_slice());
        append_bytes(&mut bvec, nbytes);
        proof {
            assert(fs.take(i + 1).drop_last() =~= fs.take(i as int));
            assert(fs[i as int] == nbytes@);
        }
        i = i + 1;
    }
    assert(fs.take(n as int) =~= fs);
    bvec
}

/// One message from the client: the command's length in four bytes, the command, the path's
/// length in four bytes, then the path.
pub open spec fn message_bits(cmd: Seq<u8>, path: Seq<u8>) -> Seq<u8> {
    be32(cmd.len() as u32) + cmd + be32(path.len() as u32) + path
}

/// What the client sends for a command and the path of the table it runs in.
pub fn client_message(cmdbytes: &[u8], pathbytes: &[u8]) -> (r: Vec<u8>)
    ensures
        r@ == message_bits(cmdbytes@, pathbytes@),
{
    let mut out: Vec<u8> = Vec::new();
    append_bytes(&mut out, u32_to_bytes(cmdbytes.len() as u32).as_slice());
    append_bytes(&mut out, cmdbytes);
    append_bytes(&mut out, u32_to_bytes(pathbytes.len() as u32).as_slice());
    append_bytes(&mut out, pathbytes);
    out
}

proof fn lemma_frames_bits_front(fs: Seq<Seq<u8>>)
    requires
        fs.len() > 0,
    ensures
        frames_bits(fs) == be32(fs[0].len() as u32) + fs[0] + frames_bits(fs.drop_first()),
    decreases fs.len(),
{
    if fs.len() == 1 {
        assert(fs.drop_first() =~= Seq::<Seq<u8>>::empty());
        assert(fs.drop_last() =~= Seq::<Seq<u8>>::empty());
        assert(frames_bits(fs) =~= be32(fs[0].len() as u32) + fs[0] + frames_bits(fs.drop_first()));
    } else {
        lemma_frames_bits_front(fs.drop_last());
        assert(fs.drop_last().drop_first() =~= fs.drop_first().drop_last());
        assert(fs.drop_first().last() == fs.last());
        assert(fs.drop_last()[0] == fs[0]);
        assert(frames_bits(fs) =~= be32(fs[0].len() as u32) + fs[0] + frames_bits(fs.drop_first()));
    }
}

/// Byte strings shorter than 2^32 bytes, written as frames, are read back as themselves.
pub proof fn lemma_frames_roundtrip(fs: Seq<Seq<u8>>)
    requires
        forall|i: int| 0 <= i < fs.len() ==> #[trigger] fs[i].len() < 0x1_0000_0000,
    ensures
        parse_frames(frames_bits(fs)) == Some(fs),
    decreases fs.len(),
{
    if fs.len() > 0 {
        let rest = fs.drop_first();
        assert forall|i: int| 0 <= i < rest.len() implies #[trigger] rest[i].len() < 0x1_0000_0000 by {
            assert(rest[i] == fs[i + 1]);
        }
        lemma_frames_roundtrip(rest);
        lemma_frames_bits_front(fs);
        let b = frames_bits(fs);
        let f0 = fs[0];
        lemma_be32_roundtrip(f0.len() as u32);
        let h = be32(f0.len() as u32);
        assert(b.subrange(0, 4) =~= h);
        assert(be32_prefix_value(b) == be32_prefix_value(h));
        assert(b.subrange(4, 4 + f0.len() as int) =~= f0);
        assert(b.skip(4 + f0.len() as int) =~= frames_bits(rest));
        assert(seq![f0] + rest =~= fs);
    } else {
        assert(frames_bits(fs).len() == 0);
    }
}

/// What the client sends for a list of words, the server reads back as the same words.
pub proof fn lemma_words_roundtrip(ws: Seq<Seq<char>>)
    requires
        forall|i: int| 0 <= i < ws.len() ==> #[trigger] encode_utf8(ws[i]).len() < 0x1_0000_0000,
    ensures
        strvec_ok(frames_bits(utf8_all(ws))),
        decode_frames(parse_frames(frames_bits(utf8_all(ws)))->0) == ws,
{
    let fs = utf8_all(ws);
    assert forall|i: int| 0 <= i < fs.len() implies #[trigger] fs[i].len() < 0x1_0000_0000 by {
        assert(fs[i] == encode_utf8(ws[i]));
    }
    lemma_frames_roundtrip(fs);
    assert forall|i: int| 0 <= i < fs.len() implies valid_utf8(#[trigger] fs[i]) by {
        vstd::utf8::encode_utf8_valid_utf8(ws[i]);
    }
    assert(decode_frames(fs) =~= ws) by {
        assert forall|i: int| 0 <= i < ws.len() implies decode_frames(fs)[i] == ws[i] by {
            vstd::utf8::encode_utf8_decode_utf8(ws[i]);
        }
    }
}

/// What the client sends for the words of a command and the names of a path, the server reads
/// back as the first word, the other words and the path, leaving whatever follows the message
/// for the next one.
pub proof fn lemma_message_roundtrip(ws: Seq<Seq<char>>, ps: Seq<Seq<char>>, tail: Seq<u8>)
    requires
        ws.len() > 0,
        forall|i: int| 0 <= i < ws.len() ==> #[trigger] encode_utf8(ws[i]).len() < 0x1_0000_0000,
        forall|i: int| 0 <= i < ps.len() ==> #[trigger] encode_utf8(ps[i]).len() < 0x1_0000_0000,
        frames_bits(utf8_all(ws)).len() < 0x1_0000_0000,
        frames_bits(utf8_all(ps)).len() < 0x1_0000_0000,
    ensures
        ({
            let c = frames_bits(utf8_all(ws));
            let p = frames_bits(utf8_all(ps));
            &&& read_message(message_bits(c, p) + tail) == Some((c, p))
            &&& strvec_ok(c)
            &&& strvec_ok(p)
            &&& request_of(c, p) == Some((ws[0], ws.drop_first(), ps))
        }),
{
    let c = frames_bits(utf8_all(ws));
    let p = frames_bits(utf8_all(ps));
    lemma_words_roundtrip(ws);
    lemma_words_roundtrip(ps);
    let m = message_bits(c, p) + tail;
    let hc = be32(c.len() as u32);
    let hp = be32(p.len() as u32);
    lemma_be32_roundtrip(c.len() as u32);
    lemma_be32_roundtrip(p.len() as u32);
    assert(m =~= hc + (c + (hp + (p + tail))));
    assert(m.subrange(0, 4) =~= hc);
    assert(be32_prefix_value(m) == be32_prefix_value(hc));
    let a = m.skip(4);
    assert(a =~= c + (hp + (p + tail)));
    assert(a.take(c.len() as int) =~= c);
    let b = a.skip(c.len() as int);
    assert(b =~= hp + (p + tail));
    assert(b.subrange(0, 4) =~= hp);
    assert(be32_prefix_value(b) == be32_prefix_value(hp));
    assert(b.subrange(4, 4 + p.len() as int) =~= p);
}

/// Whether `c` is white space: the characters with the Unicode White_Space property.
pub open spec fn is_white_space(c: char) -> bool {
    let u = c as u32;
    ||| 0x9 <= u <= 0xD
    ||| u == 0x20
    ||| u == 0x85
    ||| u == 0xA0
    ||| u == 0x1680
    ||| 0x2000 <= u <= 0x200A
    ||| u == 0x2028
    ||| u == 0x2029
    ||| u == 0x202F
    ||| u == 0x205F
    ||| u == 0x3000
}

/// The words of `s`: its longest runs of characters that are not white space, in order.
pub open spec fn words(s: Seq<char>) -> Seq<Seq<char>>
    decreases s.len(),
{
    if s.len() == 0 {
        Seq::empty()
    } else {
        let w = words(s.drop_last());
        let c = s.last();
        if is_white_space(c) {
            w
        } else if s.len() >= 2 && !is_white_space(s[s.len() - 2]) {
            w.update(w.len() - 1, w.last().push(c))
        } else {
            w.push(seq![c])
        }
    }
}

/// Whether no character of `w` is white space.
pub open spec fn no_white(w: Seq<char>) -> bool {
    forall|j: int| 0 <= j < w.len() ==> !is_white_space(#[trigger] w[j])
}

/// Whether every character of `g` is white space.
pub open spec fn all_white(g: Seq<char>) -> bool {
    forall|j: int| 0 <= j < g.len() ==> is_white_space(#[trigger] g[j])
}

/// The text `gaps[0] + ws[0] + gaps[1] + ... + ws[n-1] + gaps[n]`.
pub open spec fn interleave(gaps: Seq<Seq<char>>, ws: Seq<Seq<char>>) -> Seq<char>
    decreases ws.len(),
{
    if ws.len() == 0 {
        if gaps.len() > 0 {
            gaps[0]
        } else {
            Seq::empty()
        }
    } else {
        interleave(gaps.drop_last(), ws.drop_last()) + ws.last() + gaps.last()
    }
}

/// Whether `s` is made of the words `ws` with the runs of white space `gaps` around them: one
/// gap before each word and one after the last, every gap white space only, the gaps between
/// two words not empty, and every word non-empty with no white space in it.
pub open spec fn splits_into(s: Seq<char>, gaps: Seq<Seq<char>>, ws: Seq<Seq<char>>) -> bool {
    &&& gaps.len() == ws.len() + 1
    &&& forall|i: int| 0 <= i < gaps.len() ==> all_white(#[trigger] gaps[i])
    &&& forall|i: int| 0 < i < ws.len() ==> (#[trigger] gaps[i]).len() > 0
    &&& forall|i: int| 0 <= i < ws.len() ==> (#[trigger] ws[i]).len() > 0 && no_white(ws[i])
    &&& interleave(gaps, ws) == s
}

/// The runs of white space around the words of `s`.
spec fn gaps_of(s: Seq<char>) -> Seq<Seq<char>>
    decreases s.len(),
{
    if s.len() == 0 {
        seq![Seq::empty()]
    } else {
        let g = gaps_of(s.drop_last());
        let c = s.last();
        if is_white_space(c) {
            g.update(g.len() - 1, g.last().push(c))
        } else if s.len() >= 2 && !is_white_space(s[s.len() - 2]) {
            g
        } else {
            g.push(Seq::empty())
        }
    }
}

proof fn lemma_gaps_of(s: Seq<char>)
    ensures
        splits_into(s, gaps_of(s), words(s)),
        s.len() > 0 && !is_white_space(s.last()) ==> gaps_of(s).last().len() == 0 && words(s).len() > 0,
        s.len() > 0 && is_white_space(s.last()) ==> gaps_of(s).last().len() > 0,
    decreases s.len(),
{
    let g = gaps_of(s);
    let w = words(s);
    if s.len() == 0 {
        assert(interleave(g, w) =~= s);
        assert forall|i: int| 0 <= i < g.len() implies all_white(#[trigger] g[i]) by {}
    } else {
        let p = s.drop_last();
        let c = s.last();
        lemma_gaps_of(p);
        let g0 = gaps_of(p);
        let w0 = words(p);
        let n = w0.len();
        assert(p.push(c) =~= s);
        if is_white_space(c) {
            assert(w == w0);
            assert(g == g0.update(n as int, g0[n as int].push(c)));
            assert forall|i: int| 0 <= i < g.len() implies all_white(#[trigger] g[i]) by {
                if i == n {
                    assert(all_white(g0[i]));
                    assert forall|j: int| 0 <= j < g[i].len() implies is_white_space(#[trigger] g[i][j]) by {
                        if j < g0[i].len() {
                            assert(g[i][j] == g0[i][j]);
                        }
                    }
                } else {
                    assert(g[i] == g0[i]);
                }
            }
            assert forall|i: int| 0 < i < w.len() implies (#[trigger] g[i]).len() > 0 by {
                assert(g[i] == g0[i]);
            }
            if n == 0 {
                assert(interleave(g, w) =~= g0[0].push(c));
            } else {
                assert(g.drop_last() =~= g0.drop_last());
                assert(interleave(g, w) =~= interleave(g0, w0).push(c));
            }
        } else if s.len() >= 2 && !is_white_space(s[s.len() - 2]) {
            assert(p.last() == s[s.len() - 2]);
            assert(g == g0);
            let m = n - 1;
            assert(w == w0.update(m as int, w0[m as int].push(c)));
            assert forall|i: int| 0 <= i < w.len() implies (#[trigger] w[i]).len() > 0 && no_white(w[i]) by {
                if i == m {
                    assert(no_white(w0[i]));
                    assert forall|j: int| 0 <= j < w[i].len() implies !is_white_space(#[trigger] w[i][j]) by {
                        if j < w0[i].len() {
                            assert(w[i][j] == w0[i][j]);
                        }
                    }
                } else {
                    assert(w[i] == w0[i]);
                }
            }
            assert(w.drop_last() =~= w0.drop_last());
            assert(g0.last() =~= Seq::<char>::empty());
            assert(interleave(g, w) =~= interleave(g0, w0).push(c));
        } else {
            assert(g == g0.push(Seq::empty()));
            assert(w == w0.push(seq![c]));
            if n > 0 {
                assert(p.len() > 0);
                assert(is_white_space(p.last()));
            }
            assert forall|i: int| 0 <= i < g.len() implies all_white(#[trigger] g[i]) by {
                if i < g0.len() {
                    assert(g[i] == g0[i]);
                }
            }
            assert forall|i: int| 0 < i < w.len() implies (#[trigger] g[i]).len() > 0 by {
                assert(g[i] == g0[i]);
            }
            assert forall|i: int| 0 <= i < w.len() implies (#[trigger] w[i]).len() > 0 && no_white(w[i]) by {
                if i < n {
                    assert(w[i] == w0[i]);
                }
            }
            assert(g.drop_last() =~= g0);
            assert(w.drop_last() =~= w0);
            assert(interleave(g, w) =~= interleave(g0, w0) + seq![c]);
            assert(interleave(g0, w0) + seq![c] =~= s);
        }
        assert(interleave(g, w) =~= s);
    }
}

/// The words of a line are exactly its maximal runs of non-white-space characters: the line
/// is made of its words, in order, with runs of white space (and nothing else) around them,
/// every two words parted by some white space, and no word empty or holding white space.
pub proof fn lemma_words_split(s: Seq<char>)
    ensures
        exists|gaps: Seq<Seq<char>>| #[trigger] splits_into(s, gaps, words(s)),
{
    lemma_gaps_of(s);
}

/// Whether `c` is white space.
pub fn char_is_white_space(c: char) -> (r: bool)
    ensures
        r == is_white_space(c),
{
    let u = c as u32;
    (0x9 <= u && u <= 0xD) || u == 0x20 || u == 0x85 || u == 0xA0 || u == 0x1680 || (0x2000 <= u
        && u <= 0x200A) || u == 0x2028 || u == 0x2029 || u == 0x202F || u == 0x205F || u == 0x3000
}

/// The UTF-8 bytes of `c`.
pub fn char_bytes(c: char) -> (r: Vec<u8>)
    ensures
        r@ == vstd::utf8::encode_scalar(c as u32),
{
    let u = c as u32;
    let mut out: Vec<u8> = Vec::new();
    if u <= 0x7F {
        out.push((u & 0x7F) as u8);
    } else if u <= 0x7FF {
        out.push(0xC0 | ((u >> 6) & 0x1F) as u8);
        out.push(0x80 | (u & 0x3F) as u8);
    } else if u <= 0xFFFF {
        out.push(0xE0 | ((u >> 12) & 0x0F) as u8);
        out.push(0x80 | ((u >> 6) & 0x3F) as u8);
        out.push(0x80 | (u & 0x3F) as u8);
    } else {
        out.push(0xF0 | ((u >> 18) & 0x7) as u8);
        out.push(0x80 | ((u >> 12) & 0x3F) as u8);
        out.push(0x80 | ((u >> 6) & 0x3F) as u8);
        out.push(0x80 | (u & 0x3F) as u8);
    }
    proof {
        vstd::utf8::char_is_scalar(c);
    }
    assert(out@ =~= vstd::utf8::encode_scalar(u));
    out
}

proof fn lemma_encode_push(w: Seq<char>, c: char)
    ensures
        encode_utf8(w.push(c)) == encode_utf8(w) + vstd::utf8::encode_scalar(c as u32),
    decreases w.len(),
{
    if w.len() == 0 {
        assert(w.push(c).drop_first() =~= Seq::<char>::empty());
        assert(encode_utf8(w.push(c).drop_first()) =~= Seq::<u8>::empty());
        assert(encode_utf8(w) =~= Seq::<u8>::empty());
        assert(encode_utf8(w.push(c)) =~= encode_utf8(w) + vstd::utf8::encode_scalar(c as u32));
    } else {
        lemma_encode_push(w.drop_first(), c);
        assert(w.push(c).drop_first() =~= w.drop_first().push(c));
        assert(encode_utf8(w.push(c)) =~= encode_utf8(w) + vstd::utf8::encode_scalar(c as u32));
    }
}

/// Whether the state of a word split after reading `seen` is as it should be: `out` holds the
/// frames of the finished words, and `cur` the bytes of the word still being read.
pub open spec fn split_state(seen: Seq<char>, in_word: bool, out: Seq<u8>, cur: Seq<u8>) -> bool {
    let ws = words(seen);
    &&& in_word == (seen.len() > 0 && !is_white_space(seen.last()))
    &&& in_word ==> ws.len() > 0 && out == frames_bits(utf8_all(ws.drop_last())) && cur
        == encode_utf8(ws.last())
    &&& !in_word ==> out == frames_bits(utf8_all(ws)) && cur.len() == 0
}

proof fn lemma_utf8_all_drop_last(ws: Seq<Seq<char>>)
    requires
        ws.len() > 0,
    ensures
        utf8_all(ws).drop_last() == utf8_all(ws.drop_last()),
        utf8_all(ws).last() == encode_utf8(ws.last()),
        frames_bits(utf8_all(ws)) == frames_bits(utf8_all(ws.drop_last())) + be32(
            encode_utf8(ws.last()).len() as u32,
        ) + encode_utf8(ws.last()),
{
    assert(utf8_all(ws).drop_last() =~= utf8_all(ws.drop_last()));
}

/// The message that carries the words of `s`: each word's UTF-8 bytes after their length in
/// four bytes.
pub fn split_words_bytes(s: &str) -> (r: Vec<u8>)
    ensures
        r@ == frames_bits(utf8_all(words(s@))),
{
    broadcast use vstd::string::axiom_spec_iter, vstd::string::next_postcondition;

    let mut out: Vec<u8> = Vec::new();
    let mut cur: Vec<u8> = Vec::new();
    let mut in_word = false;
    let mut it = s.chars();
    let ghost mut seen: Seq<char> = Seq::empty();
    assert(seen + it.remaining() =~= s@);
    loop
        invariant
            seen + it.remaining() == s@,
            split_state(seen, in_word, out@, cur@),
            it.decrease() is Some,
        ensures
            seen == s@,
            split_state(seen, in_word, out@, cur@),
        decreases it.decrease()->0,
    {
        let ghost before = seen;
        let ghost rem = it.remaining();
        match it.next() {
            None => {
                assert(seen =~= s@);
                break;
            },
            Some(c) => {
                proof {
                    assert(c == rem[0]);
                    seen = seen.push(c);
                    assert(seen + it.remaining() =~= s@) by {
                        assert(it.remaining() =~= rem.drop_first());
                    }
                    assert(seen.drop_last() =~= before);
                    assert(seen.last() == c);
                }
                let ghost ws = words(before);
                if char_is_white_space(c) {
                    if in_word {
                        proof {
                            lemma_utf8_all_drop_last(ws);
                        }
                        append_bytes(&mut out, u32_to_bytes(cur.len() as u32).as_slice());
                        append_bytes(&mut out, cur.as_slice());
                        cur = Vec::new();
                        in_word = false;
                    }
                } else {
                    let cb = char_bytes(c);
                    if in_word {
                        proof {
                            lemma_encode_push(ws.last(), c);
                            let ws2 = words(seen);
                            assert(ws2 == ws.update(ws.len() - 1, ws.last().push(c)));
                            assert(ws2.drop_last() =~= ws.drop_last());
                        }
                        append_bytes(&mut cur, cb.as_slice());
                    } else {
                        proof {
                            lemma_encode_push(Seq::<char>::empty(), c);
                            assert(Seq::<char>::empty().push(c) =~= seq![c]);
                            let ws2 = words(seen);
                            assert(ws2 == ws.push(seq![c]));
                            assert(ws2.drop_last() =~= ws);
                            assert(encode_utf8(Seq::<char>::empty()) =~= Seq::<u8>::empty());
                        }
                        append_bytes(&mut cur, cb.as_slice());
                        in_word = true;
                    }
                }
            },
        }
    }
    if in_word {
        proof {
            lemma_utf8_all_drop_last(words(seen));
        }
        append_bytes(&mut out, u32_to_bytes(cur.len() as u32).as_slice());
        append_bytes(&mut out, cur.as_slice());
    }
    out
}

} // verus!
