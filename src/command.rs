//! Commands of the client and their binary form: a four-byte little-endian
//! count of tokens, then each token with its four-byte length before it.
use std::collections::VecDeque;
use vstd::prelude::*;
use vstd::utf8::*;
use crate::wire::{
    DecodeError, le32, le32_at, le64, le64_at, token, decode_raw, text_of, push_u32_le,
    push_u64_le, push_token, read_u32_le, read_u64_le, read_raw, string_from_utf8, same_bytes,
    lemma_le32_round_trip, lemma_le64_round_trip, lemma_raw_round_trip, lemma_raw_canonical,
};

verus! {

broadcast use {encode_utf8_valid_utf8, encode_utf8_decode_utf8, is_ascii_chars_encode_utf8};

/// A request to the cache.
#[derive(Clone, Debug, PartialEq)]
pub enum Command {
    GET(String),
    KEYS,
    /// Key, value, and time to live in milliseconds (0: no expiry).
    SET(String, Vec<u8>, u64),
    DELETE(String),
}

/// The mathematical content of a [`Command`].
pub enum CommandView {
    GET(Seq<char>),
    KEYS,
    SET(Seq<char>, Seq<u8>, u64),
    DELETE(Seq<char>),
}

impl View for Command {
    type V = CommandView;

    open spec fn view(&self) -> CommandView {
        match self {
            Command::GET(k) => CommandView::GET(k@),
            Command::KEYS => CommandView::KEYS,
            Command::SET(k, v, t) => CommandView::SET(k@, v@, *t),
            Command::DELETE(k) => CommandView::DELETE(k@),
        }
    }
}

/// The keyword `keys`.
pub open spec fn keys_word() -> Seq<u8> {
    encode_utf8(seq!['k', 'e', 'y', 's'])
}

/// The keyword `get`.
pub open spec fn get_word() -> Seq<u8> {
    encode_utf8(seq!['g', 'e', 't'])
}

/// The keyword `set`.
pub open spec fn set_word() -> Seq<u8> {
    encode_utf8(seq!['s', 'e', 't'])
}

/// The keyword `del`.
pub open spec fn del_word() -> Seq<u8> {
    encode_utf8(seq!['d', 'e', 'l'])
}

/// The tokens that carry `c`.
pub open spec fn command_tokens(c: CommandView) -> Seq<Seq<u8>> {
    match c {
        CommandView::KEYS => seq![keys_word()],
        CommandView::GET(k) => seq![get_word(), encode_utf8(k)],
        CommandView::SET(k, v, ttl) => seq![set_word(), encode_utf8(k), v, le64(ttl)],
        CommandView::DELETE(k) => seq![del_word(), encode_utf8(k)],
    }
}

/// Every length in `c` fits the four-byte prefix that carries it.
pub open spec fn command_fits(c: CommandView) -> bool {
    match c {
        CommandView::KEYS => true,
        CommandView::GET(k) => encode_utf8(k).len() <= u32::MAX,
        CommandView::SET(k, v, _) => encode_utf8(k).len() <= u32::MAX && v.len() <= u32::MAX,
        CommandView::DELETE(k) => encode_utf8(k).len() <= u32::MAX,
    }
}

/// The tokens `t`, each with its length before it, one after the other.
pub open spec fn tokens_bytes(t: Seq<Seq<u8>>) -> Seq<u8>
    decreases t.len(),
{
    if t.len() == 0 {
        Seq::empty()
    } else {
        token(t[0]) + tokens_bytes(t.drop_first())
    }
}

/// A frame: the count of tokens, then the tokens.
pub open spec fn frame_bytes(t: Seq<Seq<u8>>) -> Seq<u8> {
    le32(t.len() as u32) + tokens_bytes(t)
}

/// The bytes that stand for `c` on the wire.
pub open spec fn command_bytes(c: CommandView) -> Seq<u8> {
    frame_bytes(command_tokens(c))
}

/// `n` tokens read from `pos` on, and the position just past them.
pub open spec fn decode_tokens(b: Seq<u8>, pos: int, n: nat) -> Result<
    (Seq<Seq<u8>>, int),
    DecodeError,
>
    decreases n,
{
    if n == 0 {
        Ok((Seq::empty(), pos))
    } else {
        match decode_raw(b, pos) {
            Ok((x, next)) => match decode_tokens(b, next, (n - 1) as nat) {
                Ok((rest, end)) => Ok((seq![x] + rest, end)),
                Err(e) => Err(e),
            },
            Err(e) => Err(e),
        }
    }
}

/// The tokens of the frame that `b` holds, with nothing after it.
pub open spec fn decode_frame(b: Seq<u8>) -> Result<Seq<Seq<u8>>, DecodeError> {
    if b.len() < 4 {
        Err(DecodeError::Truncated)
    } else {
        match decode_tokens(b, 4, le32_at(b, 0) as nat) {
            Ok((t, end)) => if end == b.len() {
                Ok(t)
            } else {
                Err(DecodeError::TrailingBytes)
            },
            Err(e) => Err(e),
        }
    }
}

/// The command that the tokens `t` spell; tokens after the last one that
/// the keyword needs are ignored.
pub open spec fn parse_tokens(t: Seq<Seq<u8>>) -> Result<CommandView, DecodeError> {
    if t.len() == 0 {
        Err(DecodeError::MissingToken)
    } else if !valid_utf8(t[0]) {
        Err(DecodeError::InvalidUtf8)
    } else if t[0] == keys_word() {
        Ok(CommandView::KEYS)
    } else if t[0] == get_word() || t[0] == del_word() {
        if t.len() < 2 {
            Err(DecodeError::MissingToken)
        } else {
            match text_of(t[1]) {
                Ok(k) => if t[0] == get_word() {
                    Ok(CommandView::GET(k))
                } else {
                    Ok(CommandView::DELETE(k))
                },
                Err(e) => Err(e),
            }
        }
    } else if t[0] == set_word() {
        if t.len() < 4 {
            Err(DecodeError::MissingToken)
        } else if t[3].len() != 8 {
            Err(DecodeError::BadTtl)
        } else {
            match text_of(t[1]) {
                Ok(k) => Ok(CommandView::SET(k, t[2], le64_at(t[3], 0))),
                Err(e) => Err(e),
            }
        }
    } else {
        Err(DecodeError::UnknownCommand)
    }
}

pub open spec fn tokens_view(q: Seq<Vec<u8>>) -> Seq<Seq<u8>> {
    q.map_values(|v: Vec<u8>| v@)
}

proof fn lemma_keywords()
    ensures
        keys_word() == seq![107u8, 101, 121, 115],
        get_word() == seq![103u8, 101, 116],
        set_word() == seq![115u8, 101, 116],
        del_word() == seq![100u8, 101, 108],
{
    assert(is_ascii_chars(seq!['k', 'e', 'y', 's']));
    assert(is_ascii_chars(seq!['g', 'e', 't']));
    assert(is_ascii_chars(seq!['s', 'e', 't']));
    assert(is_ascii_chars(seq!['d', 'e', 'l']));
    assert(keys_word() =~= seq![107u8, 101, 121, 115]);
    assert(get_word() =~= seq![103u8, 101, 116]);
    assert(set_word() =~= seq![115u8, 101, 116]);
    assert(del_word() =~= seq![100u8, 101, 108]);
}

proof fn lemma_tokens_bytes_push(t: Seq<Seq<u8>>, x: Seq<u8>)
    ensures
        tokens_bytes(t.push(x)) == tokens_bytes(t) + token(x),
    decreases t.len(),
{
    assert(t.push(x)[0] == if t.len() == 0 {
        x
    } else {
        t[0]
    });
    if t.len() == 0 {
        let e = t.push(x).drop_first();
        assert(e =~= Seq::<Seq<u8>>::empty());
        assert(tokens_bytes(e) == Seq::<u8>::empty());
        assert(tokens_bytes(t) == Seq::<u8>::empty());
        assert(tokens_bytes(t.push(x)) =~= tokens_bytes(t) + token(x));
    } else {
        assert(t.push(x).drop_first() =~= t.drop_first().push(x));
        lemma_tokens_bytes_push(t.drop_first(), x);
        assert(tokens_bytes(t.push(x)) =~= tokens_bytes(t) + token(x));
    }
}

proof fn lemma_tokens_round_trip(t: Seq<Seq<u8>>, b: Seq<u8>, pos: int)
    requires
        0 <= pos,
        forall|i: int| 0 <= i < t.len() ==> (#[trigger] t[i]).len() <= u32::MAX,
        pos + tokens_bytes(t).len() <= b.len(),
        b.subrange(pos, pos + tokens_bytes(t).len()) == tokens_bytes(t),
    ensures
        decode_tokens(b, pos, t.len()) == Ok::<(Seq<Seq<u8>>, int), DecodeError>(
            (t, pos + tokens_bytes(t).len()),
        ),
    decreases t.len(),
{
    if t.len() > 0 {
        let x = t[0];
        let rest = t.drop_first();
        let n = token(x).len();
        assert(b.subrange(pos, pos + n) =~= tokens_bytes(t).subrange(0, n as int));
        assert(tokens_bytes(t).subrange(0, n as int) =~= token(x));
        lemma_raw_round_trip(x, b, pos);
        assert(b.subrange(pos + n, pos + n + tokens_bytes(rest).len()) =~= tokens_bytes(
            t,
        ).subrange(n as int, tokens_bytes(t).len() as int));
        assert(tokens_bytes(t).subrange(n as int, tokens_bytes(t).len() as int) =~= tokens_bytes(
            rest,
        ));
        assert forall|i: int| 0 <= i < rest.len() implies (#[trigger] rest[i]).len()
            <= u32::MAX by {
            assert(rest[i] == t[i + 1]);
        }
        lemma_tokens_round_trip(rest, b, pos + n);
        assert(seq![x] + rest =~= t);
    } else {
        assert(t =~= Seq::<Seq<u8>>::empty());
    }
}

/// Splitting the bytes of a command into tokens and parsing those tokens
/// gives that command back, for every command whose lengths fit their
/// prefixes: empty keys and values and every time to live included.
pub proof fn lemma_command_round_trip(c: CommandView)
    requires
        command_fits(c),
    ensures
        decode_frame(command_bytes(c)) == Ok::<Seq<Seq<u8>>, DecodeError>(command_tokens(c)),
        parse_tokens(command_tokens(c)) == Ok::<CommandView, DecodeError>(c),
{
    lemma_keywords();
    let t = command_tokens(c);
    let b = command_bytes(c);
    assert(b.subrange(0, 4) =~= le32(t.len() as u32));
    lemma_le32_round_trip(t.len() as u32, b, 0);
    assert(forall|i: int| 0 <= i < t.len() ==> (#[trigger] t[i]).len() <= u32::MAX);
    assert(b.subrange(4, 4 + tokens_bytes(t).len() as int) =~= tokens_bytes(t));
    lemma_tokens_round_trip(t, b, 4);
    match c {
        CommandView::SET(k, v, ttl) => {
            assert(le64(ttl).subrange(0, 8) =~= le64(ttl));
            lemma_le64_round_trip(ttl, le64(ttl), 0);
        },
        _ => {},
    }
}

impl Command {
    /// Whether every length in this command fits its four-byte prefix.
    pub fn fits_wire(&self) -> (r: bool)
        ensures
            r == command_fits(self@),
    {
        match self {
            Command::KEYS => true,
            Command::GET(k) => k.as_str().as_bytes().len() <= 0xffff_ffff,
            Command::SET(k, v, _) => k.as_str().as_bytes().len() <= 0xffff_ffff && v.len()
                <= 0xffff_ffff,
            Command::DELETE(k) => k.as_str().as_bytes().len() <= 0xffff_ffff,
        }
    }

    /// The bytes of this command on the wire.
    pub fn encode(&self) -> (r: Vec<u8>)
        requires
            command_fits(self@),
        ensures
            r@ == command_bytes(self@),
    {
        proof {
            lemma_keywords();
        }
        let mut command: Vec<u8> = Vec::new();
        let ghost t = command_tokens(self@);
        match self {
            Command::KEYS => {
                push_u32_le(&mut command, 1);
                let word: Vec<u8> = vec![107u8, 101, 121, 115];
                push_token(&mut command, word.as_slice());
                proof {
                    lemma_tokens_bytes_push(Seq::empty(), t[0]);
                    assert(Seq::<Seq<u8>>::empty().push(t[0]) =~= t);
                }
            },
            Command::GET(key) => {
                push_u32_le(&mut command, 2);
                let word: Vec<u8> = vec![103u8, 101, 116];
                push_token(&mut command, word.as_slice());
                push_token(&mut command, key.as_str().as_bytes());
                proof {
                    lemma_tokens_bytes_push(Seq::empty(), t[0]);
                    lemma_tokens_bytes_push(seq![t[0]], t[1]);
                    assert(seq![t[0]] =~= Seq::<Seq<u8>>::empty().push(t[0]));
                    assert(seq![t[0]].push(t[1]) =~= t);
                }
            },
            Command::SET(key, value, ttl) => {
                push_u32_le(&mut command, 4);
                let word: Vec<u8> = vec![115u8, 101, 116];
                push_token(&mut command, word.as_slice());
                push_token(&mut command, key.as_str().as_bytes());
                push_token(&mut command, value.as_slice());
                push_u32_le(&mut command, 8);
                push_u64_le(&mut command, *ttl);
                proof {
                    lemma_tokens_bytes_push(Seq::empty(), t[0]);
                    lemma_tokens_bytes_push(seq![t[0]], t[1]);
                    lemma_tokens_bytes_push(seq![t[0], t[1]], t[2]);
                    lemma_tokens_bytes_push(seq![t[0], t[1], t[2]], t[3]);
                    assert(seq![t[0]] =~= Seq::<Seq<u8>>::empty().push(t[0]));
                    assert(seq![t[0], t[1]] =~= seq![t[0]].push(t[1]));
                    assert(seq![t[0], t[1], t[2]] =~= seq![t[0], t[1]].push(t[2]));
                    assert(seq![t[0], t[1], t[2]].push(t[3]) =~= t);
                }
            },
            Command::DELETE(key) => {
                push_u32_le(&mut command, 2);
                let word: Vec<u8> = vec![100u8, 101, 108];
                push_token(&mut command, word.as_slice());
                push_token(&mut command, key.as_str().as_bytes());
                proof {
                    lemma_tokens_bytes_push(Seq::empty(), t[0]);
                    lemma_tokens_bytes_push(seq![t[0]], t[1]);
                    assert(seq![t[0]] =~= Seq::<Seq<u8>>::empty().push(t[0]));
                    assert(seq![t[0]].push(t[1]) =~= t);
                }
            },
        }
        assert(command@ =~= command_bytes(self@));
        command
    }
}

/// Splits a frame into its tokens: reads the count, then that many
/// length-prefixed tokens, and requires the frame to end there.
pub fn decode_command_frame(bytes: &[u8]) -> (r: Result<VecDeque<Vec<u8>>, DecodeError>)
    ensures
        match r {
            Ok(q) => decode_frame(bytes@) == Ok::<Seq<Seq<u8>>, DecodeError>(tokens_view(q@)),
            Err(e) => decode_frame(bytes@) == Err::<Seq<Seq<u8>>, DecodeError>(e),
        },
{
    let n = bytes.len();
    if n < 4 {
        return Err(DecodeError::Truncated);
    }
    let count = read_u32_le(bytes, 0);
    let mut tokens: VecDeque<Vec<u8>> = VecDeque::new();
    let mut cur: usize = 4;
    let mut i: u32 = 0;
    while i < count
        invariant
            4 <= cur <= bytes@.len(),
            n == bytes@.len(),
            count == le32_at(bytes@, 0),
            i <= count,
            decode_tokens(bytes@, 4, count as nat) == match decode_tokens(
                bytes@,
                cur as int,
                (count - i) as nat,
            ) {
                Ok((rest, end)) => Ok((tokens_view(tokens@) + rest, end)),
                Err(e) => Err(e),
            },
        decreases count - i,
    {
        let (x, next) = match read_raw(bytes, cur) {
            Ok(pair) => pair,
            Err(e) => {
                assert(decode_tokens(bytes@, cur as int, (count - i) as nat) == Err::<
                    (Seq<Seq<u8>>, int),
                    DecodeError,
                >(e));
                return Err(e);
            },
        };
        let ghost before = tokens_view(tokens@);
        proof {
            lemma_raw_canonical(bytes@, cur as int);
            match decode_tokens(bytes@, next as int, (count - i - 1) as nat) {
                Ok((rest, end)) => {
                    assert(before + (seq![x@] + rest) =~= before.push(x@) + rest);
                },
                Err(e) => {},
            }
        }
        tokens.push_back(x);
        assert(tokens_view(tokens@) =~= before.push(x@));
        cur = next;
        i += 1;
    }
    assert(tokens_view(tokens@) + Seq::<Seq<u8>>::empty() =~= tokens_view(tokens@));
    if cur != n {
        return Err(DecodeError::TrailingBytes);
    }
    Ok(tokens)
}

impl Command {
    /// The command that the tokens spell. The first token picks the
    /// variant; tokens after the last one that it needs are ignored.
    pub fn parse(cmd_str: VecDeque<Vec<u8>>) -> (r: Result<Command, DecodeError>)
        ensures
            match r {
                Ok(c) => parse_tokens(tokens_view(cmd_str@)) == Ok::<CommandView, DecodeError>(
                    c@,
                ),
                Err(e) => parse_tokens(tokens_view(cmd_str@)) == Err::<CommandView, DecodeError>(
                    e,
                ),
            },
    {
        proof {
            lemma_keywords();
        }
        let ghost t = tokens_view(cmd_str@);
        let mut q = cmd_str;
        let first = match q.pop_front() {
            Some(f) => f,
            None => return Err(DecodeError::MissingToken),
        };
        assert(first@ == t[0]);
        let word = match string_from_utf8(first) {
            Some(w) => w,
            None => return Err(DecodeError::InvalidUtf8),
        };
        let w = word.as_str().as_bytes();
        let keys_kw: Vec<u8> = vec![107u8, 101, 121, 115];
        let get_kw: Vec<u8> = vec![103u8, 101, 116];
        let del_kw: Vec<u8> = vec![100u8, 101, 108];
        let set_kw: Vec<u8> = vec![115u8, 101, 116];
        if same_bytes(w, keys_kw.as_slice()) {
            return Ok(Command::KEYS);
        }
        let is_get = same_bytes(w, get_kw.as_slice());
        let is_del = same_bytes(w, del_kw.as_slice());
        if is_get || is_del {
            let key_bytes = match q.pop_front() {
                Some(k) => k,
                None => return Err(DecodeError::MissingToken),
            };
            assert(key_bytes@ == t[1]);
            let key = match string_from_utf8(key_bytes) {
                Some(k) => k,
                None => return Err(DecodeError::InvalidUtf8),
            };
            if is_get {
                Ok(Command::GET(key))
            } else {
                Ok(Command::DELETE(key))
            }
        } else if same_bytes(w, set_kw.as_slice()) {
            let key_bytes = match q.pop_front() {
                Some(k) => k,
                None => return Err(DecodeError::MissingToken),
            };
            let value = match q.pop_front() {
                Some(v) => v,
                None => return Err(DecodeError::MissingToken),
            };
            let ttl_bytes = match q.pop_front() {
                Some(b) => b,
                None => return Err(DecodeError::MissingToken),
            };
            assert(key_bytes@ == t[1]);
            assert(value@ == t[2]);
            assert(ttl_bytes@ == t[3]);
            if ttl_bytes.len() != 8 {
                return Err(DecodeError::BadTtl);
            }
            let ttl = read_u64_le(ttl_bytes.as_slice(), 0);
            let key = match string_from_utf8(key_bytes) {
                Some(k) => k,
                None => return Err(DecodeError::InvalidUtf8),
            };
            Ok(Command::SET(key, value, ttl))
        } else {
            Err(DecodeError::UnknownCommand)
        }
    }
}

} // verus!
