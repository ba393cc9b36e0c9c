//! Responses of the server and their binary form: a four-byte little-endian
//! code, then the payload of the variant.
use std::sync::Arc;
use vstd::prelude::*;
use vstd::utf8::*;
use crate::wire::{
    DecodeError, le32, le32_at, token, text_token, decode_raw, decode_text, push_u32_le,
    push_token, read_u32_le, read_raw, read_text, lemma_le32_round_trip, lemma_le32_canonical,
    lemma_raw_round_trip, lemma_raw_canonical, lemma_text_round_trip, lemma_text_canonical,
};

verus! {

broadcast use {encode_utf8_valid_utf8, encode_utf8_decode_utf8};

/// What the server sends back for one command.
#[derive(Clone, Debug, PartialEq)]
pub enum Response {
    Empty,
    Error(String),
    String(String),
    Int(i32),
    /// A 32-bit float, carried as its bit pattern.
    Float(u32),
    Array(Arc<Vec<String>>),
    Data(Arc<Vec<u8>>),
}

/// The mathematical content of a [`Response`].
pub enum ResponseView {
    Empty,
    Error(Seq<char>),
    String(Seq<char>),
    Int(i32),
    Float(u32),
    Array(Seq<Seq<char>>),
    Data(Seq<u8>),
}

pub open spec fn texts_view(v: Seq<String>) -> Seq<Seq<char>> {
    v.map_values(|s: String| s@)
}

impl View for Response {
    type V = ResponseView;

    open spec fn view(&self) -> ResponseView {
        match self {
            Response::Empty => ResponseView::Empty,
            Response::Error(s) => ResponseView::Error(s@),
            Response::String(s) => ResponseView::String(s@),
            Response::Int(i) => ResponseView::Int(*i),
            Response::Float(f) => ResponseView::Float(*f),
            Response::Array(a) => ResponseView::Array(texts_view(a@)),
            Response::Data(d) => ResponseView::Data(d@),
        }
    }
}

/// The text tokens of `items`, one after the other.
pub open spec fn texts_bytes(items: Seq<Seq<char>>) -> Seq<u8>
    decreases items.len(),
{
    if items.len() == 0 {
        Seq::empty()
    } else {
        text_token(items[0]) + texts_bytes(items.drop_first())
    }
}

/// Every length in `v` fits the four-byte prefix that carries it.
pub open spec fn fits_wire(v: ResponseView) -> bool {
    match v {
        ResponseView::Error(s) => encode_utf8(s).len() <= u32::MAX,
        ResponseView::String(s) => encode_utf8(s).len() <= u32::MAX,
        ResponseView::Array(items) => items.len() <= u32::MAX && forall|i: int|
            0 <= i < items.len() ==> encode_utf8(#[trigger] items[i]).len() <= u32::MAX,
        ResponseView::Data(d) => d.len() <= u32::MAX,
        _ => true,
    }
}

/// The bytes that stand for `v` on the wire.
pub open spec fn response_bytes(v: ResponseView) -> Seq<u8> {
    match v {
        ResponseView::Empty => le32(0),
        ResponseView::Error(s) => le32(1) + text_token(s),
        ResponseView::String(s) => le32(2) + text_token(s),
        ResponseView::Int(i) => le32(3) + le32(i as u32),
        ResponseView::Float(bits) => le32(4) + le32(bits),
        ResponseView::Array(items) => le32(5) + le32(items.len() as u32) + texts_bytes(items),
        ResponseView::Data(d) => le32(6) + token(d),
    }
}

/// `n` text tokens read from `pos` on, and the position just past them.
pub open spec fn decode_texts(b: Seq<u8>, pos: int, n: nat) -> Result<
    (Seq<Seq<char>>, int),
    DecodeError,
>
    decreases n,
{
    if n == 0 {
        Ok((Seq::empty(), pos))
    } else {
        match decode_text(b, pos) {
            Ok((s, next)) => match decode_texts(b, next, (n - 1) as nat) {
                Ok((rest, end)) => Ok((seq![s] + rest, end)),
                Err(e) => Err(e),
            },
            Err(e) => Err(e),
        }
    }
}

/// `v`, provided that the message ends at `end`, the end of `b`.
pub open spec fn complete(v: ResponseView, end: int, b: Seq<u8>) -> Result<
    ResponseView,
    DecodeError,
> {
    if end == b.len() {
        Ok(v)
    } else {
        Err(DecodeError::TrailingBytes)
    }
}

/// The response that `b` holds, or why it holds none.
pub open spec fn decode_response(b: Seq<u8>) -> Result<ResponseView, DecodeError> {
    if b.len() < 4 {
        Err(DecodeError::Truncated)
    } else {
        let code = le32_at(b, 0);
        if code == 0 {
            complete(ResponseView::Empty, 4, b)
        } else if code == 1 {
            match decode_text(b, 4) {
                Ok((s, end)) => complete(ResponseView::Error(s), end, b),
                Err(e) => Err(e),
            }
        } else if code == 2 {
            match decode_text(b, 4) {
                Ok((s, end)) => complete(ResponseView::String(s), end, b),
                Err(e) => Err(e),
            }
        } else if code == 3 {
            if b.len() < 8 {
                Err(DecodeError::Truncated)
            } else {
                complete(ResponseView::Int(le32_at(b, 4) as i32), 8, b)
            }
        } else if code == 4 {
            if b.len() < 8 {
                Err(DecodeError::Truncated)
            } else {
                complete(ResponseView::Float(le32_at(b, 4)), 8, b)
            }
        } else if code == 5 {
            if b.len() < 8 {
                Err(DecodeError::Truncated)
            } else {
                match decode_texts(b, 8, le32_at(b, 4) as nat) {
                    Ok((items, end)) => complete(ResponseView::Array(items), end, b),
                    Err(e) => Err(e),
                }
            }
        } else if code == 6 {
            match decode_raw(b, 4) {
                Ok((d, end)) => complete(ResponseView::Data(d), end, b),
                Err(e) => Err(e),
            }
        } else {
            Err(DecodeError::UnknownResponse)
        }
    }
}

proof fn lemma_texts_bytes_push(items: Seq<Seq<char>>, s: Seq<char>)
    ensures
        texts_bytes(items.push(s)) == texts_bytes(items) + text_token(s),
    decreases items.len(),
{
    assert(items.push(s)[0] == if items.len() == 0 {
        s
    } else {
        items[0]
    });
    if items.len() == 0 {
        let e = items.push(s).drop_first();
        assert(e =~= Seq::<Seq<char>>::empty());
        assert(texts_bytes(e) == Seq::<u8>::empty());
        assert(texts_bytes(items) == Seq::<u8>::empty());
        assert(texts_bytes(items.push(s)) =~= texts_bytes(items) + text_token(s));
    } else {
        assert(items.push(s).drop_first() =~= items.drop_first().push(s));
        lemma_texts_bytes_push(items.drop_first(), s);
        assert(texts_bytes(items.push(s)) =~= texts_bytes(items) + text_token(s));
    }
}

proof fn lemma_texts_round_trip(items: Seq<Seq<char>>, b: Seq<u8>, pos: int)
    requires
        0 <= pos,
        forall|i: int| 0 <= i < items.len() ==> encode_utf8(#[trigger] items[i]).len() <= u32::MAX,
        pos + texts_bytes(items).len() <= b.len(),
        b.subrange(pos, pos + texts_bytes(items).len()) == texts_bytes(items),
    ensures
        decode_texts(b, pos, items.len()) == Ok::<(Seq<Seq<char>>, int), DecodeError>(
            (items, pos + texts_bytes(items).len()),
        ),
    decreases items.len(),
{
    if items.len() > 0 {
        let s = items[0];
        let rest = items.drop_first();
        let n = text_token(s).len();
        assert(b.subrange(pos, pos + n) =~= texts_bytes(items).subrange(0, n as int));
        assert(texts_bytes(items).subrange(0, n as int) =~= text_token(s));
        lemma_text_round_trip(s, b, pos);
        assert(b.subrange(pos + n, pos + n + texts_bytes(rest).len()) =~= texts_bytes(
            items,
        ).subrange(n as int, texts_bytes(items).len() as int));
        assert(texts_bytes(items).subrange(n as int, texts_bytes(items).len() as int)
            =~= texts_bytes(rest));
        assert forall|i: int| 0 <= i < rest.len() implies encode_utf8(#[trigger] rest[i]).len()
            <= u32::MAX by {
            assert(rest[i] == items[i + 1]);
        }
        lemma_texts_round_trip(rest, b, pos + n);
        assert(seq![s] + rest =~= items);
    } else {
        assert(items =~= Seq::<Seq<char>>::empty());
    }
}

proof fn lemma_texts_canonical(b: Seq<u8>, pos: int, n: nat)
    requires
        0 <= pos <= b.len(),
        decode_texts(b, pos, n) is Ok,
    ensures
        ({
            let (items, end) = decode_texts(b, pos, n)->Ok_0;
            &&& items.len() == n
            &&& forall|i: int|
                0 <= i < items.len() ==> encode_utf8(#[trigger] items[i]).len() <= u32::MAX
            &&& pos <= end <= b.len()
            &&& b.subrange(pos, end) == texts_bytes(items)
        }),
    decreases n,
{
    if n == 0 {
        assert(b.subrange(pos, pos) =~= Seq::<u8>::empty());
    } else {
        lemma_text_canonical(b, pos);
        let (s, next) = decode_text(b, pos)->Ok_0;
        lemma_texts_canonical(b, next, (n - 1) as nat);
        let (rest, end) = decode_texts(b, next, (n - 1) as nat)->Ok_0;
        let items = seq![s] + rest;
        assert(items.drop_first() =~= rest);
        assert forall|i: int| 0 <= i < items.len() implies encode_utf8(#[trigger] items[i]).len()
            <= u32::MAX by {
            if i > 0 {
                assert(items[i] == rest[i - 1]);
            }
        }
        assert(b.subrange(pos, end) =~= b.subrange(pos, next) + b.subrange(next, end));
    }
}

proof fn lemma_i32_bits(i: i32)
    ensures
        (i as u32) as i32 == i,
{
    assert((i as u32) as i32 == i) by (bit_vector);
}

proof fn lemma_u32_bits(x: u32)
    ensures
        (x as i32) as u32 == x,
{
    assert((x as i32) as u32 == x) by (bit_vector);
}

/// Decoding the bytes of a response gives that response back, for every
/// response whose lengths fit their prefixes: empty texts, arrays and byte
/// payloads, and every integer and float bit pattern included.
pub proof fn lemma_response_round_trip(v: ResponseView)
    requires
        fits_wire(v),
    ensures
        decode_response(response_bytes(v)) == Ok::<ResponseView, DecodeError>(v),
{
    let b = response_bytes(v);
    assert(b.subrange(0, 4) =~= b.take(4));
    match v {
        ResponseView::Empty => {
            assert(b.subrange(0, 4) =~= le32(0));
            lemma_le32_round_trip(0, b, 0);
        },
        ResponseView::Error(s) => {
            assert(b.subrange(0, 4) =~= le32(1));
            lemma_le32_round_trip(1, b, 0);
            assert(b.subrange(4, 4 + text_token(s).len() as int) =~= text_token(s));
            lemma_text_round_trip(s, b, 4);
        },
        ResponseView::String(s) => {
            assert(b.subrange(0, 4) =~= le32(2));
            lemma_le32_round_trip(2, b, 0);
            assert(b.subrange(4, 4 + text_token(s).len() as int) =~= text_token(s));
            lemma_text_round_trip(s, b, 4);
        },
        ResponseView::Int(i) => {
            assert(b.subrange(0, 4) =~= le32(3));
            lemma_le32_round_trip(3, b, 0);
            assert(b.subrange(4, 8) =~= le32(i as u32));
            lemma_le32_round_trip(i as u32, b, 4);
            lemma_i32_bits(i);
        },
        ResponseView::Float(bits) => {
            assert(b.subrange(0, 4) =~= le32(4));
            lemma_le32_round_trip(4, b, 0);
            assert(b.subrange(4, 8) =~= le32(bits));
            lemma_le32_round_trip(bits, b, 4);
        },
        ResponseView::Array(items) => {
            assert(b.subrange(0, 4) =~= le32(5));
            lemma_le32_round_trip(5, b, 0);
            assert(b.subrange(4, 8) =~= le32(items.len() as u32));
            lemma_le32_round_trip(items.len() as u32, b, 4);
            assert(b.subrange(8, 8 + texts_bytes(items).len() as int) =~= texts_bytes(items));
            lemma_texts_round_trip(items, b, 8);
        },
        ResponseView::Data(d) => {
            assert(b.subrange(0, 4) =~= le32(6));
            lemma_le32_round_trip(6, b, 0);
            assert(b.subrange(4, 8 + d.len() as int) =~= token(d));
            lemma_raw_round_trip(d, b, 4);
        },
    }
}

/// A byte sequence that decodes to a response is exactly that response's
/// bytes: no other sequence stands for it.
pub proof fn lemma_response_canonical(b: Seq<u8>)
    requires
        decode_response(b) is Ok,
    ensures
        fits_wire(decode_response(b)->Ok_0),
        response_bytes(decode_response(b)->Ok_0) == b,
{
    lemma_le32_canonical(b, 0);
    let code = le32_at(b, 0);
    assert(b.subrange(0, 4) == le32(code));
    let v = decode_response(b)->Ok_0;
    if code == 1 || code == 2 {
        lemma_text_canonical(b, 4);
        assert(b =~= b.subrange(0, 4) + b.subrange(4, b.len() as int));
    } else if code == 3 || code == 4 {
        lemma_le32_canonical(b, 4);
        lemma_u32_bits(le32_at(b, 4));
        assert(b =~= b.subrange(0, 4) + b.subrange(4, 8));
    } else if code == 5 {
        lemma_le32_canonical(b, 4);
        lemma_texts_canonical(b, 8, le32_at(b, 4) as nat);
        assert(b =~= b.subrange(0, 4) + b.subrange(4, 8) + b.subrange(8, b.len() as int));
    } else if code == 6 {
        lemma_raw_canonical(b, 4);
        assert(b =~= b.subrange(0, 4) + b.subrange(4, b.len() as int));
    } else {
        assert(b =~= b.subrange(0, 4));
    }
}

impl Response {
    /// Whether every length in this response fits its four-byte prefix.
    pub fn fits_wire(&self) -> (r: bool)
        ensures
            r == fits_wire(self@),
    {
        match self {
            Response::Error(s) => s.as_str().as_bytes().len() <= 0xffff_ffff,
            Response::String(s) => s.as_str().as_bytes().len() <= 0xffff_ffff,
            Response::Array(items) => {
                if items.len() > 0xffff_ffff {
                    return false;
                }
                assert(texts_view(items@).len() == items@.len());
                let mut i: usize = 0;
                while i < items.len()
                    invariant
                        i <= items@.len(),
                        self@ == ResponseView::Array(texts_view(items@)),
                        forall|j: int|
                            0 <= j < i ==> encode_utf8(#[trigger] texts_view(items@)[j]).len()
                                <= u32::MAX,
                    decreases items@.len() - i,
                {
                    if items[i].as_str().as_bytes().len() > 0xffff_ffff {
                        assert(texts_view(items@)[i as int] == items@[i as int]@);
                        assert(!fits_wire(ResponseView::Array(texts_view(items@))));
                        return false;
                    }
                    i += 1;
                }
                true
            },
            Response::Data(d) => d.len() <= 0xffff_ffff,
            _ => true,
        }
    }

    /// The bytes of this response on the wire.
    pub fn serialize(&self) -> (r: Vec<u8>)
        requires
            fits_wire(self@),
        ensures
            r@ == response_bytes(self@),
    {
        let mut out: Vec<u8> = Vec::new();
        match self {
            Response::Empty => {
                push_u32_le(&mut out, 0);
            },
            Response::Error(msg) => {
                push_u32_le(&mut out, 1);
                push_token(&mut out, msg.as_str().as_bytes());
            },
            Response::String(value) => {
                push_u32_le(&mut out, 2);
                push_token(&mut out, value.as_str().as_bytes());
            },
            Response::Int(value) => {
                push_u32_le(&mut out, 3);
                push_u32_le(&mut out, *value as u32);
            },
            Response::Float(bits) => {
                push_u32_le(&mut out, 4);
                push_u32_le(&mut out, *bits);
            },
            Response::Array(items) => {
                push_u32_le(&mut out, 5);
                push_u32_le(&mut out, items.len() as u32);
                let ghost head = out@;
                let ghost all = texts_view(items@);
                let mut i: usize = 0;
                while i < items.len()
                    invariant
                        i <= items@.len(),
                        all == texts_view(items@),
                        fits_wire(ResponseView::Array(all)),
                        out@ == head + texts_bytes(all.subrange(0, i as int)),
                    decreases items@.len() - i,
                {
                    assert(encode_utf8(all[i as int]).len() <= u32::MAX);
                    push_token(&mut out, items[i].as_str().as_bytes());
                    proof {
                        lemma_texts_bytes_push(all.subrange(0, i as int), all[i as int]);
                        assert(all.subrange(0, i as int).push(all[i as int]) =~= all.subrange(
                            0,
                            i + 1,
                        ));
                    }
                    i += 1;
                }
                assert(all.subrange(0, items@.len() as int) =~= all);
            },
            Response::Data(data) => {
                push_u32_le(&mut out, 6);
                push_token(&mut out, data.as_slice());
            },
        }
        out
    }

    /// The response whose bytes `buffer` holds, with nothing after it.
    pub fn deserialize(buffer: &[u8]) -> (r: Result<Response, DecodeError>)
        ensures
            match r {
                Ok(x) => decode_response(buffer@) == Ok::<ResponseView, DecodeError>(x@),
                Err(e) => decode_response(buffer@) == Err::<ResponseView, DecodeError>(e),
            },
    {
        let n = buffer.len();
        if n < 4 {
            return Err(DecodeError::Truncated);
        }
        let code = read_u32_le(buffer, 0);
        let (response, end) = if code == 0 {
            (Response::Empty, 4)
        } else if code == 1 {
            let (s, end) = read_text(buffer, 4)?;
            (Response::Error(s), end)
        } else if code == 2 {
            let (s, end) = read_text(buffer, 4)?;
            (Response::String(s), end)
        } else if code == 3 {
            if n < 8 {
                return Err(DecodeError::Truncated);
            }
            (Response::Int(read_u32_le(buffer, 4) as i32), 8)
        } else if code == 4 {
            if n < 8 {
                return Err(DecodeError::Truncated);
            }
            (Response::Float(read_u32_le(buffer, 4)), 8)
        } else if code == 5 {
            if n < 8 {
                return Err(DecodeError::Truncated);
            }
            let count = read_u32_le(buffer, 4);
            let mut items: Vec<String> = Vec::new();
            let mut cur: usize = 8;
            let mut i: u32 = 0;
            while i < count
                invariant
                    8 <= cur <= buffer@.len(),
                    n == buffer@.len(),
                    code == le32_at(buffer@, 0),
                    code == 5,
                    i <= count,
                    count == le32_at(buffer@, 4),
                    decode_texts(buffer@, 8, count as nat) == match decode_texts(
                        buffer@,
                        cur as int,
                        (count - i) as nat,
                    ) {
                        Ok((rest, end)) => Ok((texts_view(items@) + rest, end)),
                        Err(e) => Err(e),
                    },
                decreases count - i,
            {
                let (s, next) = match read_text(buffer, cur) {
                    Ok(pair) => pair,
                    Err(e) => {
                        assert(decode_texts(buffer@, cur as int, (count - i) as nat) == Err::<
                            (Seq<Seq<char>>, int),
                            DecodeError,
                        >(e));
                        return Err(e);
                    },
                };
                let ghost old_items = texts_view(items@);
                proof {
                    lemma_text_canonical(buffer@, cur as int);
                    match decode_texts(buffer@, next as int, (count - i - 1) as nat) {
                        Ok((rest, end)) => {
                            assert(old_items + (seq![s@] + rest) =~= old_items.push(s@) + rest);
                        },
                        Err(e) => {},
                    }
                }
                items.push(s);
                proof {
                    assert(texts_view(items@) =~= old_items.push(s@));
                }
                cur = next;
                i += 1;
            }
            assert(texts_view(items@) + Seq::<Seq<char>>::empty() =~= texts_view(items@));
            (Response::Array(Arc::new(items)), cur)
        } else if code == 6 {
            let (d, end) = read_raw(buffer, 4)?;
            (Response::Data(Arc::new(d)), end)
        } else {
            return Err(DecodeError::UnknownResponse);
        };
        if end != n {
            return Err(DecodeError::TrailingBytes);
        }
        Ok(response)
    }
}

} // verus!
