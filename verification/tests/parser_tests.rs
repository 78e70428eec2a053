use foobar_db::parser::{ParseError, Parser};
use foobar_db::resp::RespValue;

#[test]
fn test_simple_string() {
    let mut parser = Parser::new(100, 1000);

    parser.read_buf(b"+OK\r\n");
    let result = match parser.try_parse() {
        Ok(Some(val)) => val,
        Ok(None) => panic!("Expected complete value"),
        Err(e) => panic!("Parse error: {:?}", e),
    };
    assert_eq!(result, RespValue::SimpleString(b"OK".to_vec()));

    parser.read_buf(b"+Hello World\r\n");
    let result = match parser.try_parse() {
        Ok(Some(val)) => val,
        Ok(None) => panic!("Expected complete value"),
        Err(e) => panic!("Parse error: {:?}", e),
    };
    assert_eq!(result, RespValue::SimpleString(b"Hello World".to_vec()));

    parser.read_buf(b"+Hello@#$%^&*()\r\n");
    let result = match parser.try_parse() {
        Ok(Some(val)) => val,
        Ok(None) => panic!("Expected complete value"),
        Err(e) => panic!("Parse error: {:?}", e),
    };
    assert_eq!(result, RespValue::SimpleString(b"Hello@#$%^&*()".to_vec()));
}

#[test]
fn test_error() {
    let mut parser = Parser::new(100, 1000);

    parser.read_buf(b"-Error message\r\n");
    let result = match parser.try_parse() {
        Ok(Some(val)) => val,
        Ok(None) => panic!("Expected complete value"),
        Err(e) => panic!("Parse error: {:?}", e),
    };
    assert_eq!(result, RespValue::Error(b"Error message".to_vec()));

    parser.read_buf(b"-\r\n");
    let result = match parser.try_parse() {
        Ok(Some(val)) => val,
        Ok(None) => panic!("Expected complete value"),
        Err(e) => panic!("Parse error: {:?}", e),
    };
    assert_eq!(result, RespValue::Error(Vec::new()));

    parser.read_buf(b"-ERR unknown command 'foobar'\r\n");
    let result = match parser.try_parse() {
        Ok(Some(val)) => val,
        Ok(None) => panic!("Expected complete value"),
        Err(e) => panic!("Parse error: {:?}", e),
    };
    assert_eq!(result, RespValue::Error(b"ERR unknown command 'foobar'".to_vec()));
}

#[test]
fn test_integer() {
    let mut parser = Parser::new(100, 1000);

    parser.read_buf(b":1234\r\n");
    let result = match parser.try_parse() {
        Ok(Some(val)) => val,
        Ok(None) => panic!("Expected complete value"),
        Err(e) => panic!("Parse error: {:?}", e),
    };
    assert_eq!(result, RespValue::Integer(1234));

    parser.read_buf(b":-1234\r\n");
    let result = match parser.try_parse() {
        Ok(Some(val)) => val,
        Ok(None) => panic!("Expected complete value"),
        Err(e) => panic!("Parse error: {:?}", e),
    };
    assert_eq!(result, RespValue::Integer(-1234));

    parser.read_buf(b":0\r\n");
    let result = match parser.try_parse() {
        Ok(Some(val)) => val,
        Ok(None) => panic!("Expected complete value"),
        Err(e) => panic!("Parse error: {:?}", e),
    };
    assert_eq!(result, RespValue::Integer(0));

    parser.read_buf(format!(":{}\r\n", i64::MAX).as_bytes());
    let result = match parser.try_parse() {
        Ok(Some(val)) => val,
        Ok(None) => panic!("Expected complete value"),
        Err(e) => panic!("Parse error: {:?}", e),
    };
    assert_eq!(result, RespValue::Integer(i64::MAX));

    // The magnitude of i64::MIN exceeds 2^63 - 1, so the digits overflow the
    // accumulator before the sign could be applied.
    parser.read_buf(format!(":{}\r\n", i64::MIN).as_bytes());
    match parser.try_parse() {
        Err(ParseError::Overflow) => (),
        other => panic!("Expected Overflow, got {:?}", other),
    }
}

#[test]
fn test_invalid_type_marker() {
    let mut parser = Parser::new(100, 1000);
    parser.read_buf(b"x1234");
    match parser.try_parse() {
        Err(ParseError::InvalidPrefix) => (),
        other => panic!("Expected InvalidPrefix error, got {:?}", other),
    }
}

#[test]
fn test_invalid_length() {
    let mut parser = Parser::new(100, 1000);
    parser.read_buf(b"$-2");
    match parser.try_parse() {
        Err(ParseError::NeedMoreData) => (),
        other => panic!("Expected None for incomplete data, got {:?}", other),
    }

    parser.read_buf(b"\r\n");
    match parser.try_parse() {
        Err(ParseError::InvalidLength) => (),
        other => panic!("Expected InvalidLength error, got {:?}", other),
    }
}

#[test]
fn test_array_length_mismatch() {
    let mut parser = Parser::new(100, 1000);
    parser.read_buf(b"*2\r\n+OK\r\n");
    match parser.try_parse() {
        Err(ParseError::NeedMoreData) => (),
        other => panic!("Expected None for incomplete array, got {:?}", other),
    }
}

#[test]
fn test_invalid_integer_format() {
    let mut parser = Parser::new(100, 1000);
    parser.read_buf(b":12.34");
    match parser.try_parse() {
        Err(ParseError::InvalidIntegerFormat) => (),
        other => panic!("Expected InvalidIntegerFormat error, got {:?}", other),
    }
}

#[test]
fn test_missing_crlf() {
    let mut parser = Parser::new(100, 1000);
    parser.read_buf(b"+OK\n");
    match parser.try_parse() {
        Err(ParseError::NeedMoreData) => (),
        other => panic!("Expected NeedMoreData, got {:?}", other),
    }
}

#[test]
fn test_bulk_missing_crlf() {
    let mut parser = Parser::new(100, 1000);
    parser.read_buf(b"$1\r\naXY");
    match parser.try_parse() {
        Err(ParseError::MissingCRLF) => (),
        other => panic!("Expected MissingCRLF, got {:?}", other),
    }
}

#[test]
fn test_exceeding_maximum_depth() {
    let mut shallow_parser = Parser::new(1, 1000);
    shallow_parser.read_buf(b"*1\r\n");
    match shallow_parser.try_parse() {
        Err(ParseError::NeedMoreData) => (),
        other => panic!("Expected None for incomplete data, got {:?}", other),
    }

    shallow_parser.read_buf(b"*1\r\n");
    match shallow_parser.try_parse() {
        Err(ParseError::DepthExceeded) => (),
        other => panic!("Expected DepthExceeded, got {:?}", other),
    }

    // The error discarded the buffer; a fresh frame parses again.
    shallow_parser.read_buf(b"+OK\r\n");
    match shallow_parser.try_parse() {
        Ok(Some(RespValue::SimpleString(s))) => assert_eq!(s, b"OK".to_vec()),
        other => panic!("Expected a fresh parse after the error, got {:?}", other),
    }
}

#[test]
fn test_incomplete_messages() {
    let mut parser = Parser::new(100, 1000);

    parser.read_buf(b"+OK");
    match parser.try_parse() {
        Err(ParseError::NeedMoreData) => (),
        other => panic!("Expected None for incomplete simple string, got {:?}", other),
    }

    parser = Parser::new(100, 1000);

    parser.read_buf(b"-ERR");
    match parser.try_parse() {
        Err(ParseError::NeedMoreData) => (),
        other => panic!("Expected None for incomplete error message, got {:?}", other),
    }

    parser = Parser::new(100, 1000);

    parser.read_buf(b":123");
    match parser.try_parse() {
        Err(ParseError::NeedMoreData) => (),
        other => panic!("Expected None for incomplete integer, got {:?}", other),
    }

    parser = Parser::new(100, 1000);

    parser.read_buf(b"$5");
    match parser.try_parse() {
        Err(ParseError::NeedMoreData) => (),
        other => panic!("Expected None for incomplete bulk string length, got {:?}", other),
    }

    parser = Parser::new(100, 1000);

    parser.read_buf(b"*3");
    match parser.try_parse() {
        Err(ParseError::NeedMoreData) => (),
        other => panic!("Expected None for incomplete array length, got {:?}", other),
    }
}

#[test]
fn test_large_messages() {
    let mut parser = Parser::new(100, 10000);

    let large_string = "x".repeat(1000);

    parser.read_buf(format!("${}\r\n", large_string.len()).as_bytes());
    match parser.try_parse() {
        Err(ParseError::NeedMoreData) => (),
        other => panic!("Expected None, got {:?}", other),
    }

    let chunks = large_string.as_bytes().chunks(100);
    for chunk in chunks {
        parser.read_buf(chunk);
        match parser.try_parse() {
            Err(ParseError::NeedMoreData) => (),
            other => panic!("Expected None, got {:?}", other),
        }
    }

    parser.read_buf(b"\r\n");
    match parser.try_parse() {
        Ok(Some(RespValue::BulkString(Some(msg)))) => {
            assert_eq!(msg, large_string.as_bytes().to_vec());
        }
        other => panic!("Expected BulkString, got {:?}", other),
    }

    let large_array = String::from("*1000\r\n");
    parser.read_buf(large_array.as_bytes());
    match parser.try_parse() {
        Err(ParseError::NeedMoreData) => (),
        other => panic!("Expected None, got {:?}", other),
    }

    for _ in 0..999 {
        parser.read_buf(b":1\r\n");
        match parser.try_parse() {
            Err(ParseError::NeedMoreData) => (),
            other => panic!("Expected None, got {:?}", other),
        }
    }

    parser.read_buf(b":1\r\n");
    match parser.try_parse() {
        Ok(Some(RespValue::Array(Some(arr)))) => {
            assert_eq!(arr.len(), 1000);
            assert!(arr.iter().all(|x| *x == RespValue::Integer(1)));
        }
        other => panic!("Expected Array, got {:?}", other),
    }
}

#[test]
fn test_error_message_chunks() {
    let mut parser = Parser::new(100, 1000);

    parser.read_buf(b"-ERR unknow");
    match parser.try_parse() {
        Err(ParseError::NeedMoreData) => (),
        other => panic!("Expected None, got {:?}", other),
    }

    parser.read_buf(b"n command");
    match parser.try_parse() {
        Err(ParseError::NeedMoreData) => (),
        other => panic!("Expected None, got {:?}", other),
    }

    parser.read_buf(b"\r\n");
    match parser.try_parse() {
        Ok(Some(RespValue::Error(msg))) => {
            assert_eq!(msg, b"ERR unknown command".to_vec());
        }
        other => panic!("Expected Error message, got {:?}", other),
    }
}

#[test]
fn test_bulk_string_chunks() {
    // A zero-length bulk string is an empty payload, distinct from null bulk.
    {
        let mut parser = Parser::new(100, 1000);
        parser.read_buf(b"$0\r\n\r\n");
        let result = parser.try_parse();
        assert_eq!(result, Ok(Some(RespValue::BulkString(Some(Vec::new())))));
    }

    {
        let mut parser = Parser::new(100, 1000);

        parser.read_buf(b"$0\r\n");
        let result = parser.try_parse();
        assert_eq!(result, Err(ParseError::NeedMoreData));

        parser.read_buf(b"\r\n");
        let result = parser.try_parse();
        assert_eq!(result, Ok(Some(RespValue::BulkString(Some(Vec::new())))));
    }

    {
        let mut parser = Parser::new(100, 1000);

        parser.read_buf(b"$5");
        let result = parser.try_parse();
        assert_eq!(result, Err(ParseError::NeedMoreData));

        parser.read_buf(b"\r\nhello");
        let result = parser.try_parse();
        assert_eq!(result, Err(ParseError::NeedMoreData));

        parser.read_buf(b"\r\n");
        let result = parser.try_parse();
        assert_eq!(result, Ok(Some(RespValue::BulkString(Some(b"hello".to_vec())))));
    }

    {
        let mut parser = Parser::new(100, 1000);

        parser.read_buf(b"$12\r\n");
        let result = parser.try_parse();
        assert_eq!(result, Err(ParseError::NeedMoreData));

        parser.read_buf(b"Hello ");
        let result = parser.try_parse();
        assert_eq!(result, Err(ParseError::NeedMoreData));

        parser.read_buf(b"World!");
        let result = parser.try_parse();
        assert_eq!(result, Err(ParseError::NeedMoreData));

        parser.read_buf(b"\r\n");
        let result = parser.try_parse();
        assert_eq!(result, Ok(Some(RespValue::BulkString(Some(b"Hello World!".to_vec())))));
    }
}

#[test]
fn test_array_chunks() {
    {
        let mut parser = Parser::new(100, 1000);

        parser.read_buf(b"*2");
        let _ = parser.try_parse();

        parser.read_buf(b"\r\n:1");
        let _ = parser.try_parse();

        parser.read_buf(b"\r\n");
        let _ = parser.try_parse();

        parser.read_buf(b":2\r\n");
        let result = parser.try_parse();
        assert_eq!(
            result,
            Ok(Some(RespValue::Array(Some(vec![
                RespValue::Integer(1),
                RespValue::Integer(2)
            ]))))
        );
    }

    // An empty array is an array of zero elements, distinct from a null array.
    {
        let mut parser = Parser::new(100, 1000);
        parser.read_buf(b"*0\r\n");
        let result = parser.try_parse();
        assert_eq!(result, Ok(Some(RespValue::Array(Some(Vec::new())))));
    }

    {
        let mut parser = Parser::new(100, 1000);
        parser.read_buf(b"*-1\r\n");
        let result = parser.try_parse();
        assert_eq!(result, Ok(Some(RespValue::Array(None))));
    }

    {
        let mut parser = Parser::new(100, 1000);

        parser.read_buf(b"*3\r\n:123\r\n");
        let _ = parser.try_parse();

        parser.read_buf(b"+hello\r\n");
        let _ = parser.try_parse();

        parser.read_buf(b"$5\r\nworld\r\n");
        let result = parser.try_parse();
        assert_eq!(
            result,
            Ok(Some(RespValue::Array(Some(vec![
                RespValue::Integer(123),
                RespValue::SimpleString(b"hello".to_vec()),
                RespValue::BulkString(Some(b"world".to_vec()))
            ]))))
        );
    }

    {
        let mut parser = Parser::new(100, 1000);

        parser.read_buf(b"*2\r\n");
        let result = parser.try_parse();
        assert_eq!(result, Err(ParseError::NeedMoreData));

        parser.read_buf(b"*2\r\n+a\r\n+b\r\n");
        let result = parser.try_parse();
        assert_eq!(result, Err(ParseError::NeedMoreData));

        parser.read_buf(b"*2\r\n+c\r\n+d\r\n");
        let result = parser.try_parse();
        assert_eq!(
            result,
            Ok(Some(RespValue::Array(Some(vec![
                RespValue::Array(Some(vec![
                    RespValue::SimpleString(b"a".to_vec()),
                    RespValue::SimpleString(b"b".to_vec())
                ])),
                RespValue::Array(Some(vec![
                    RespValue::SimpleString(b"c".to_vec()),
                    RespValue::SimpleString(b"d".to_vec())
                ]))
            ]))))
        );
    }

    // A declared length under -1 is malformed.
    {
        let mut parser = Parser::new(100, 1000);

        parser.read_buf(b"*-2\r\n");
        let result = parser.try_parse();
        assert_eq!(result, Err(ParseError::InvalidLength));

        parser = Parser::new(100, 1000);

        parser.read_buf(b"*2\r\n:1\r\n");
        let result = parser.try_parse();
        assert_eq!(result, Err(ParseError::NeedMoreData));
    }

    let mut parser = Parser::new(100, 1000);

    parser.read_buf(b"*0\r\n");
    assert_eq!(parser.try_parse(), Ok(Some(RespValue::Array(Some(Vec::new())))));

    parser.read_buf(b"*-1\r\n");
    assert_eq!(parser.try_parse(), Ok(Some(RespValue::Array(None))));

    parser.read_buf(b"*2\r\n$5\r\nhello\r\n$5\r\nworld\r\n");
    assert_eq!(
        parser.try_parse(),
        Ok(Some(RespValue::Array(Some(vec![
            RespValue::BulkString(Some(b"hello".to_vec())),
            RespValue::BulkString(Some(b"world".to_vec()))
        ]))))
    );

    parser.read_buf(b"*5\r\n:1\r\n:2\r\n:3\r\n:4\r\n$5\r\nhello\r\n");
    assert_eq!(
        parser.try_parse(),
        Ok(Some(RespValue::Array(Some(vec![
            RespValue::Integer(1),
            RespValue::Integer(2),
            RespValue::Integer(3),
            RespValue::Integer(4),
            RespValue::BulkString(Some(b"hello".to_vec()))
        ]))))
    );

    parser.read_buf(b"*2\r\n*2\r\n+a\r\n+b\r\n*2\r\n+c\r\n+d\r\n");
    assert_eq!(
        parser.try_parse(),
        Ok(Some(RespValue::Array(Some(vec![
            RespValue::Array(Some(vec![
                RespValue::SimpleString(b"a".to_vec()),
                RespValue::SimpleString(b"b".to_vec())
            ])),
            RespValue::Array(Some(vec![
                RespValue::SimpleString(b"c".to_vec()),
                RespValue::SimpleString(b"d".to_vec())
            ]))
        ]))))
    );
}

#[test]
fn test_integer_chunks() {
    let mut parser = Parser::new(100, 1000);

    parser.read_buf(b":123");
    match parser.try_parse() {
        Err(ParseError::NeedMoreData) => (),
        other => panic!("Expected None, got {:?}", other),
    }

    parser.read_buf(b"45");
    match parser.try_parse() {
        Err(ParseError::NeedMoreData) => (),
        other => panic!("Expected None, got {:?}", other),
    }

    parser.read_buf(b"\r\n");
    match parser.try_parse() {
        Ok(Some(RespValue::Integer(num))) => {
            assert_eq!(num, 12345);
        }
        other => panic!("Expected Integer, got {:?}", other),
    }
}

#[test]
fn test_large_bulk_string_chunks() {
    let mut parser = Parser::new(100, 10000);

    let large_string = "x".repeat(1000);

    parser.read_buf(format!("${}\r\n", large_string.len()).as_bytes());
    match parser.try_parse() {
        Err(ParseError::NeedMoreData) => (),
        other => panic!("Expected None, got {:?}", other),
    }

    let chunk_size = 100;
    for chunk in large_string.as_bytes().chunks(chunk_size) {
        parser.read_buf(chunk);
        match parser.try_parse() {
            Err(ParseError::NeedMoreData) => (),
            other => panic!("Expected None while processing chunks, got {:?}", other),
        }
    }

    parser.read_buf(b"\r\n");
    match parser.try_parse() {
        Ok(Some(RespValue::BulkString(Some(msg)))) => {
            assert_eq!(msg, large_string.as_bytes().to_vec());
        }
        other => panic!("Expected BulkString, got {:?}", other),
    }
}

#[test]
fn test_length_bound() {
    // A bulk string over max_length fails from its header alone.
    let mut parser = Parser::new(100, 1000);
    parser.read_buf(b"$2000\r\n");
    match parser.try_parse() {
        Err(ParseError::LengthExceeded) => (),
        other => panic!("Expected LengthExceeded, got {:?}", other),
    }
}

#[test]
fn test_overflow_length_field() {
    // 2^63 exactly: one past the largest magnitude a length may carry.
    let mut parser = Parser::new(100, 1000);
    parser.read_buf(b"$9223372036854775808\r\n");
    match parser.try_parse() {
        Err(ParseError::Overflow) => (),
        other => panic!("Expected Overflow, got {:?}", other),
    }
}

#[test]
fn test_trailing_bytes_preserved() {
    // Two frames appended at once come out one per call, nothing lost.
    let mut parser = Parser::new(100, 1000);
    parser.read_buf(b"+first\r\n:42\r\n");
    assert_eq!(
        parser.try_parse(),
        Ok(Some(RespValue::SimpleString(b"first".to_vec())))
    );
    assert_eq!(parser.try_parse(), Ok(Some(RespValue::Integer(42))));
    assert_eq!(parser.try_parse(), Err(ParseError::NeedMoreData));
}

#[test]
fn test_idempotent_on_empty_append() {
    // With no new bytes, NeedMoreData repeats and state is kept.
    let mut parser = Parser::new(100, 1000);
    parser.read_buf(b"+par");
    assert_eq!(parser.try_parse(), Err(ParseError::NeedMoreData));
    assert_eq!(parser.try_parse(), Err(ParseError::NeedMoreData));
    parser.read_buf(b"tial\r\n");
    assert_eq!(
        parser.try_parse(),
        Ok(Some(RespValue::SimpleString(b"partial".to_vec())))
    );
}

#[test]
fn test_iteration_limit() {
    // One call may take at most a bounded number of transitions; an array
    // with enough elements delivered all at once exhausts the budget.
    let mut parser = Parser::new(100, 1000);
    let mut bytes = b"*400000\r\n".to_vec();
    for _ in 0..400000 {
        bytes.extend_from_slice(b":1\r\n");
    }
    parser.read_buf(&bytes);
    match parser.try_parse() {
        Err(ParseError::IterationLimit) => (),
        other => panic!("Expected IterationLimit, got {:?}", other),
    }
}
