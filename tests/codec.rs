use std::collections::VecDeque;
use std::sync::Arc;

use rusty_redis::command::{decode_command_frame, Command};
use rusty_redis::response::Response;
use rusty_redis::wire::DecodeError;

fn round_trip_command(c: Command) {
    assert!(c.fits_wire());
    let bytes = c.encode();
    let tokens = decode_command_frame(&bytes).expect("frame");
    assert_eq!(Command::parse(tokens), Ok(c));
}

fn round_trip_response(r: Response) {
    assert!(r.fits_wire());
    let bytes = r.serialize();
    assert_eq!(Response::deserialize(&bytes), Ok(r));
}

fn tokens(items: &[&[u8]]) -> VecDeque<Vec<u8>> {
    items.iter().map(|t| t.to_vec()).collect()
}

#[test]
fn connection_test_read_command() {
    let expected = VecDeque::from([
        b"set".to_vec(),
        b"1234".to_vec(),
        b"Hello Stream!".to_vec(),
        5000u64.to_le_bytes().to_vec(),
    ]);
    let encoded = Command::SET("1234".to_string(), b"Hello Stream!".to_vec(), 5000u64).encode();
    let actual = decode_command_frame(encoded.as_slice()).expect("Failed to read commands");

    assert_eq!(expected, actual);
}

#[test]
fn lib_test_read_response() {
    let expected_message = "Hello there!";
    let mut response: Vec<u8> = vec![];
    response.extend_from_slice(&2u32.to_le_bytes());
    response.append(&mut (expected_message.as_bytes().len() as u32).to_le_bytes().to_vec());
    response.append(&mut expected_message.as_bytes().to_vec());

    let n = Response::deserialize(&response).expect("Failed to read mock buffer");

    assert!(matches!(n, Response::String(..)));
    match n {
        Response::String(s) => assert_eq!(expected_message, s),
        _ => assert!(false),
    }
}

#[test]
fn mod_test_read_response() {
    let expected_message = "Hello there!";
    let mut response: Vec<u8> = vec![];
    response.extend_from_slice(&2u32.to_le_bytes());
    response.extend_from_slice(&(expected_message.len() as u32).to_le_bytes());
    response.extend_from_slice(expected_message.as_bytes());

    match Response::deserialize(&response).expect("Failed to read mock buffer") {
        Response::String(s) => assert_eq!(expected_message, s),
        other => panic!("unexpected {:?}", other),
    }
}

#[test]
fn encode_exact_bytes() {
    assert_eq!(Command::KEYS.encode(), [&1u32.to_le_bytes()[..], &4u32.to_le_bytes(), b"keys"].concat());
    assert_eq!(
        Command::GET("ab".to_string()).encode(),
        [&2u32.to_le_bytes()[..], &3u32.to_le_bytes(), b"get", &2u32.to_le_bytes(), b"ab"].concat()
    );
    assert_eq!(
        Command::DELETE("ab".to_string()).encode(),
        [&2u32.to_le_bytes()[..], &3u32.to_le_bytes(), b"del", &2u32.to_le_bytes(), b"ab"].concat()
    );
    assert_eq!(
        Command::SET("k".to_string(), vec![9, 8], 0x0102).encode(),
        [
            &4u32.to_le_bytes()[..],
            &3u32.to_le_bytes(),
            b"set",
            &1u32.to_le_bytes(),
            b"k",
            &2u32.to_le_bytes(),
            &[9, 8],
            &8u32.to_le_bytes(),
            &0x0102u64.to_le_bytes(),
        ]
        .concat()
    );
}

#[test]
fn command_round_trips() {
    round_trip_command(Command::KEYS);
    round_trip_command(Command::GET(String::new()));
    round_trip_command(Command::GET("clé".to_string()));
    round_trip_command(Command::DELETE("1234".to_string()));
    round_trip_command(Command::SET(String::new(), Vec::new(), 0));
    round_trip_command(Command::SET("k".to_string(), vec![0, 255, 7], u64::MAX));
    round_trip_command(Command::SET("k".to_string(), b"v".to_vec(), 1));
}

#[test]
fn parse_errors() {
    assert_eq!(Command::parse(VecDeque::new()), Err(DecodeError::MissingToken));
    assert_eq!(Command::parse(tokens(&[&[0xff]])), Err(DecodeError::InvalidUtf8));
    assert_eq!(Command::parse(tokens(&[b"nope"])), Err(DecodeError::UnknownCommand));
    assert_eq!(Command::parse(tokens(&[b"get"])), Err(DecodeError::MissingToken));
    assert_eq!(Command::parse(tokens(&[b"del"])), Err(DecodeError::MissingToken));
    assert_eq!(Command::parse(tokens(&[b"get", &[0xc3]])), Err(DecodeError::InvalidUtf8));
    assert_eq!(Command::parse(tokens(&[b"set", b"k", b"v"])), Err(DecodeError::MissingToken));
    assert_eq!(Command::parse(tokens(&[b"set", b"k", b"v", &[1, 2, 3]])), Err(DecodeError::BadTtl));
    assert_eq!(
        Command::parse(tokens(&[b"set", &[0xff], b"v", &7u64.to_le_bytes()])),
        Err(DecodeError::InvalidUtf8)
    );
}

#[test]
fn parse_ignores_extra_tokens() {
    assert_eq!(Command::parse(tokens(&[b"keys", b"extra"])), Ok(Command::KEYS));
    assert_eq!(
        Command::parse(tokens(&[b"set", b"k", b"v", &7u64.to_le_bytes(), b"x"])),
        Ok(Command::SET("k".to_string(), b"v".to_vec(), 7))
    );
}

#[test]
fn frame_errors() {
    assert_eq!(decode_command_frame(&[1, 0, 0]), Err(DecodeError::Truncated));
    assert_eq!(decode_command_frame(&[1, 0, 0, 0, 5, 0, 0, 0, b'a']), Err(DecodeError::Truncated));
    assert_eq!(decode_command_frame(&[1, 0, 0, 0, 1, 0]), Err(DecodeError::Truncated));
    assert_eq!(decode_command_frame(&[0, 0, 0, 0, 9]), Err(DecodeError::TrailingBytes));
    assert_eq!(decode_command_frame(&[0, 0, 0, 0]), Ok(VecDeque::new()));
}

#[test]
fn response_exact_bytes() {
    assert_eq!(Response::Empty.serialize(), 0u32.to_le_bytes().to_vec());
    assert_eq!(
        Response::Error("e".to_string()).serialize(),
        [&1u32.to_le_bytes()[..], &1u32.to_le_bytes(), b"e"].concat()
    );
    assert_eq!(Response::Int(-2).serialize(), [&3u32.to_le_bytes()[..], &(-2i32).to_le_bytes()].concat());
    assert_eq!(
        Response::Float(1.5f32.to_bits()).serialize(),
        [&4u32.to_le_bytes()[..], &1.5f32.to_le_bytes()].concat()
    );
    assert_eq!(
        Response::Array(Arc::new(vec!["a".to_string(), String::new()])).serialize(),
        [&5u32.to_le_bytes()[..], &2u32.to_le_bytes(), &1u32.to_le_bytes(), b"a", &0u32.to_le_bytes()].concat()
    );
    assert_eq!(
        Response::Data(Arc::new(vec![1, 2])).serialize(),
        [&6u32.to_le_bytes()[..], &2u32.to_le_bytes(), &[1, 2]].concat()
    );
}

#[test]
fn response_round_trips() {
    round_trip_response(Response::Empty);
    round_trip_response(Response::Error(String::new()));
    round_trip_response(Response::Error("bad".to_string()));
    round_trip_response(Response::String("Grüße".to_string()));
    round_trip_response(Response::Int(i32::MIN));
    round_trip_response(Response::Int(i32::MAX));
    round_trip_response(Response::Float(f32::NAN.to_bits()));
    round_trip_response(Response::Float((-0.0f32).to_bits()));
    round_trip_response(Response::Array(Arc::new(Vec::new())));
    round_trip_response(Response::Array(Arc::new(vec!["x".to_string(), String::new(), "yz".to_string()])));
    round_trip_response(Response::Data(Arc::new(Vec::new())));
    round_trip_response(Response::Data(Arc::new(b"{\"hello\":\"stream\"}".to_vec())));
}

#[test]
fn deserialize_errors() {
    assert_eq!(Response::deserialize(&[]), Err(DecodeError::Truncated));
    assert_eq!(Response::deserialize(&[9, 0, 0, 0]), Err(DecodeError::UnknownResponse));
    assert_eq!(Response::deserialize(&[0, 0, 0, 0, 1]), Err(DecodeError::TrailingBytes));
    assert_eq!(Response::deserialize(&[3, 0, 0, 0, 1]), Err(DecodeError::Truncated));
    assert_eq!(Response::deserialize(&[2, 0, 0, 0, 3, 0, 0, 0, b'a']), Err(DecodeError::Truncated));
    assert_eq!(Response::deserialize(&[2, 0, 0, 0, 1, 0, 0, 0, 0xff]), Err(DecodeError::InvalidUtf8));
    assert_eq!(Response::deserialize(&[5, 0, 0, 0, 2, 0, 0, 0, 0, 0, 0, 0]), Err(DecodeError::Truncated));
    assert_eq!(Response::deserialize(&[6, 0, 0, 0, 2, 0, 0, 0, 1]), Err(DecodeError::Truncated));
}

#[test]
fn response_int_and_float_are_distinct_codes() {
    let int_bytes = Response::Int(7).serialize();
    let float_bytes = Response::Float(7).serialize();
    assert_ne!(int_bytes, float_bytes);
    assert_eq!(Response::deserialize(&int_bytes), Ok(Response::Int(7)));
    assert_eq!(Response::deserialize(&float_bytes), Ok(Response::Float(7)));
}
