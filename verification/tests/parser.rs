use yajl::lexer::{LexError, LexerOptions, RLexer, Token};
use yajl::machine::{double_move, Caps, Event, EventView, Move, StackOp};
use yajl::parser::{
    parse_integer, CallbackStatus, Callbacks, NoCallbacks, ParseError, ParseIntegerError,
    ParseState, ParserOption, ParserOptions,
};
use yajl::rparser::RParser;
use yajl::status::{yajl_status_to_string, yajl_version, Status};

#[test]
fn parse_integer_successful_zero() {
    assert_eq!(parse_integer(b"0").unwrap(), 0);
}

#[test]
fn parse_integer_successful_nine_digits() {
    assert_eq!(parse_integer(b"123456789").unwrap(), 123456789);
}

#[test]
fn parse_integer_successful_eighteen_digits() {
    assert_eq!(parse_integer(b"123456789123456789").unwrap(), 123456789123456789);
}

#[test]
fn parse_integer_successful_negative() {
    assert_eq!(parse_integer(b"-123456789").unwrap(), -123456789);
}

#[test]
fn parse_integer_successful_negative_eighteen_digits() {
    assert_eq!(parse_integer(b"-123456789123456789").unwrap(), -123456789123456789);
}

#[test]
fn parse_integer_successful_minus_zero() {
    assert_eq!(parse_integer(b"-0").unwrap(), 0);
}

#[test]
fn parse_integer_failure_non_numerical() {
    assert_eq!(parse_integer(b"0a").unwrap_err(), ParseIntegerError::NonNumerical(b'a'));
}

#[test]
fn parse_integer_failure_overflow() {
    assert_eq!(
        parse_integer(b"123456789123456789123456789").unwrap_err(),
        ParseIntegerError::Overflow
    );
}

#[test]
fn parse_integer_failure_underflow() {
    assert_eq!(
        parse_integer(b"-123456789123456789123456789").unwrap_err(),
        ParseIntegerError::Underflow
    );
}

#[test]
fn parse_integer_bounds() {
    assert_eq!(parse_integer(b"9223372036854775807").unwrap(), i64::MAX);
    assert_eq!(parse_integer(b"9223372036854775808").unwrap_err(), ParseIntegerError::Overflow);
    assert_eq!(parse_integer(b"-9223372036854775807").unwrap(), -i64::MAX);
    // the most negative value cannot be read: its magnitude does not fit
    assert_eq!(parse_integer(b"-9223372036854775808").unwrap_err(), ParseIntegerError::Underflow);
    assert_eq!(parse_integer(b"+12").unwrap(), 12);
    assert_eq!(parse_integer(b"").unwrap(), 0);
}

#[test]
fn version_and_status_text() {
    assert_eq!(yajl_version(), 20102);
    assert_eq!(yajl_status_to_string(Status::Success), "ok, no error");
    assert_eq!(yajl_status_to_string(Status::ClientCanceled), "client canceled parse");
    assert_eq!(yajl_status_to_string(Status::Error), "parse error");
}

#[test]
fn parser_option_repr_roundtrip() {
    for o in [
        ParserOption::AllowComments,
        ParserOption::DontValidateStrings,
        ParserOption::AllowTrailingGarbage,
        ParserOption::AllowMultipleValues,
        ParserOption::AllowPartialValues,
    ] {
        assert_eq!(ParserOption::from_repr(o.bit()), Some(o));
    }
    assert_eq!(ParserOption::from_repr(3), None);
    assert_eq!(ParserOption::from_repr(0), None);
}

#[test]
fn parser_options_flags() {
    let mut o = ParserOptions::default();
    assert_eq!(o.flags(), 0);
    o.allow_comments(true);
    o.allow_partial_values(true);
    assert_eq!(o.flags(), 1 + 16);
    o.allow_comments(false);
    o.dont_validate_strings(true);
    o.allow_multiple_values(true);
    o.allow_trailing_garbage(true);
    assert_eq!(o.flags(), 2 + 4 + 8 + 16);
}

fn lex_all(text: &[u8], allow_comments: bool) -> Vec<(Token, Vec<u8>)> {
    let mut lx = RLexer::with_options(LexerOptions { allow_comments, validate_utf8: true });
    let mut off = 0;
    let mut out = Vec::new();
    loop {
        let (t, b) = lx.lex(text, &mut off);
        out.push((t, b));
        if t == Token::Eof || t == Token::Error {
            break;
        }
    }
    out
}

#[test]
fn lexer_reads_each_kind_of_token() {
    let toks = lex_all(br#"{"a":[1,-2.5e3,true,false,null,"x\ny"]}"#, false);
    let kinds: Vec<Token> = toks.iter().map(|t| t.0).collect();
    assert_eq!(
        kinds,
        vec![
            Token::LeftBracket,
            Token::String,
            Token::Colon,
            Token::LeftBrace,
            Token::Integer,
            Token::Comma,
            Token::Double,
            Token::Comma,
            Token::Bool,
            Token::Comma,
            Token::Bool,
            Token::Comma,
            Token::Null,
            Token::Comma,
            Token::StringWithEscapes,
            Token::RightBrace,
            Token::RightBracket,
            Token::Eof,
        ]
    );
    assert_eq!(toks[1].1, b"a".to_vec());
    assert_eq!(toks[4].1, b"1".to_vec());
    assert_eq!(toks[6].1, b"-2.5e3".to_vec());
    assert_eq!(toks[14].1, br"x\ny".to_vec());
}

#[test]
fn lexer_errors() {
    let mut lx = RLexer::new(false, true);
    let mut off = 0;
    assert_eq!(lx.lex(b"-x", &mut off).0, Token::Error);
    assert_eq!(lx.get_error(), LexError::MissingIntegerAfterMinus);
    assert_eq!(lx.get_error().as_str(), "malformed number, a digit is required after the minus sign.");

    let mut lx = RLexer::new(false, true);
    let mut off = 0;
    assert_eq!(lx.lex(b"1.e", &mut off).0, Token::Error);
    assert_eq!(lx.get_error(), LexError::MissingIntegerAfterDecimal);

    let mut lx = RLexer::new(false, true);
    let mut off = 0;
    assert_eq!(lx.lex(b"/* c */ 1", &mut off).0, Token::Error);
    assert_eq!(lx.get_error(), LexError::UnallowedComment);

    let mut lx = RLexer::new(false, true);
    let mut off = 0;
    assert_eq!(lx.lex(b"\"a\\qb\"", &mut off).0, Token::Error);
    assert_eq!(lx.get_error(), LexError::StringInvalidEscapedChar);

    let mut lx = RLexer::new(false, true);
    let mut off = 0;
    assert_eq!(lx.lex(b"tru ", &mut off).0, Token::Error);
    assert_eq!(lx.get_error(), LexError::InvalidString);

    let mut lx = RLexer::new(false, true);
    let mut off = 0;
    assert_eq!(lx.lex(b"@", &mut off).0, Token::Error);
    assert_eq!(lx.get_error(), LexError::InvalidChar);

    let mut lx = RLexer::new(false, true);
    let mut off = 0;
    assert_eq!(lx.lex(b"\"\xff\"", &mut off).0, Token::Error);
    assert_eq!(lx.get_error(), LexError::StringInvalidUtf8);
}

#[test]
fn lexer_skips_comments_when_allowed() {
    let toks = lex_all(b"/* one */ 1 // two\n 2 ", true);
    let kinds: Vec<Token> = toks.iter().map(|t| t.0).collect();
    assert_eq!(kinds, vec![Token::Integer, Token::Integer, Token::Eof]);
}

#[test]
fn lexer_holds_a_token_cut_by_the_chunk_end() {
    let mut lx = RLexer::new(false, true);
    let mut off = 0;
    let (t, _) = lx.lex(b"[12", &mut off);
    assert_eq!(t, Token::LeftBrace);
    let (t, _) = lx.lex(b"[12", &mut off);
    assert_eq!(t, Token::Eof);
    assert_eq!(off, 3);
    let mut off2 = 0;
    let (t, b) = lx.lex(b"34]", &mut off2);
    assert_eq!(t, Token::Integer);
    assert_eq!(b, b"1234".to_vec());
    assert_eq!(off2, 2);
    assert_eq!(lx.peek(b"34]", off2), Token::RightBrace);
    let (t, _) = lx.lex(b"34]", &mut off2);
    assert_eq!(t, Token::RightBrace);
}

#[test]
fn string_scan_stops_at_quote_backslash_or_control() {
    assert_eq!(yajl::lexer::string_scan(b"abc\"d", true), 3);
    assert_eq!(yajl::lexer::string_scan(b"ab\\", true), 2);
    assert_eq!(yajl::lexer::string_scan(b"ab\x01", false), 2);
    assert_eq!(yajl::lexer::string_scan(b"ab\xc3\xa9", true), 2);
    assert_eq!(yajl::lexer::string_scan(b"ab\xc3\xa9", false), 4);
}

fn validate(text: &[u8]) -> (Status, RParser<NoCallbacks>) {
    let mut p = RParser::new();
    let s = p.parse(text);
    if s != Status::Success {
        return (s, p);
    }
    let s = p.complete_parse();
    (s, p)
}

#[test]
fn parser_accepts_valid_json() {
    for text in [
        &b"{}"[..],
        b"[]",
        b"1",
        b"  \"s\"  ",
        b"{\"a\": [1, 2.5, -3e2, true, false, null, {\"b\": {}}]}",
        b"[[[[]]]]",
    ] {
        let (s, _) = validate(text);
        assert_eq!(s, Status::Success, "{:?}", std::str::from_utf8(text));
    }
}

#[test]
fn parser_reports_parse_errors() {
    let cases: Vec<(&[u8], ParseError)> = vec![
        (b"{1:2}", ParseError::InvalidObjectKey),
        (b"{\"a\" 1}", ParseError::InvalidKeyValueSeparator),
        (b"{\"a\":1 2}", ParseError::InvalidObjectSeparator),
        (b"[1 2]", ParseError::InvalidArraySeparator),
        (b"]", ParseError::UnallowedToken),
        (b"[1,]", ParseError::UnallowedToken),
        (b"1 2", ParseError::TrailingGarbage),
        (b"[1", ParseError::PrematureEof),
        (b"", ParseError::PrematureEof),
    ];
    for (text, e) in cases {
        let (s, p) = validate(text);
        assert_eq!(s, Status::Error, "{:?}", std::str::from_utf8(text));
        let msg = String::from_utf8(p.get_error(false, text)).unwrap();
        assert_eq!(msg, format!("parse error: {}\n", e.as_str()));
    }
}

#[test]
fn parser_reports_lexical_errors() {
    let (s, p) = validate(b"[1, @]");
    assert_eq!(s, Status::Error);
    let msg = String::from_utf8(p.get_error(false, b"[1, @]")).unwrap();
    assert_eq!(msg, "lexical error: invalid char in json text.\n");
}

#[test]
fn error_report_quotes_the_text() {
    let text = b"{\"a\" 1}";
    let mut p = RParser::new();
    assert_eq!(p.parse(text), Status::Error);
    assert_eq!(p.get_bytes_consumed(), 6);
    let msg = String::from_utf8(p.get_error(true, text)).unwrap();
    let expected = format!(
        "parse error: object key and value must be separated by a colon (':')\n{}{}\n{}",
        " ".repeat(34),
        "{\"a\" 1}",
        "                     (right here) ------^\n"
    );
    assert_eq!(msg, expected);
}

#[test]
fn error_report_of_a_good_parse_is_unknown() {
    let mut p = RParser::new();
    assert_eq!(p.parse(b"1 "), Status::Success);
    assert_eq!(String::from_utf8(p.get_error(false, b"1 ")).unwrap(), "unknown error\n");
}

#[test]
fn parser_stays_in_error_state() {
    let mut p = RParser::new();
    assert_eq!(p.parse(b"[1 2]"), Status::Error);
    assert_eq!(p.parse(b"[]"), Status::Error);
    assert_eq!(p.complete_parse(), Status::Error);
    assert_eq!(
        String::from_utf8(p.get_error(false, b"")).unwrap(),
        "parse error: after array element, I expect ',' or ']'\n"
    );
}

#[test]
fn parser_takes_text_in_chunks() {
    let mut p = RParser::new();
    assert_eq!(p.parse(b"{\"ke"), Status::Success);
    assert_eq!(p.parse(b"y\": [tr"), Status::Success);
    assert_eq!(p.parse(b"ue, 12"), Status::Success);
    assert_eq!(p.parse(b"3]}"), Status::Success);
    assert_eq!(p.complete_parse(), Status::Success);
}

#[test]
fn parser_options() {
    // comments
    let mut p = RParser::with_options(ParserOptions::default());
    assert_eq!(p.parse(b"/* c */ 1"), Status::Error);
    let mut o = ParserOptions::default();
    o.allow_comments(true);
    let mut p = RParser::with_options(o);
    assert_eq!(p.parse(b"/* c */ [1 // x\n]"), Status::Success);
    assert_eq!(p.complete_parse(), Status::Success);

    // trailing garbage
    let mut p = RParser::new();
    assert!(p.config(ParserOption::AllowTrailingGarbage, true));
    assert_eq!(p.parse(b"[1] xyz"), Status::Success);

    // multiple values
    let mut p = RParser::new();
    p.config(ParserOption::AllowMultipleValues, true);
    assert_eq!(p.parse(b"1 [2] {\"a\":3}"), Status::Success);
    assert_eq!(p.complete_parse(), Status::Success);

    // partial values
    let mut p = RParser::new();
    p.config(ParserOption::AllowPartialValues, true);
    assert_eq!(p.parse(b"[1, 2"), Status::Success);
    assert_eq!(p.complete_parse(), Status::Success);

    // strings not checked for UTF-8
    let mut p = RParser::new();
    assert_eq!(p.parse(b"\"\xff\""), Status::Error);
    let mut o = ParserOptions::default();
    o.dont_validate_strings(true);
    let mut p = RParser::with_options(o);
    assert_eq!(p.parse(b"\"\xff\""), Status::Success);
}

#[test]
fn options_given_at_construction_stay_apart_from_config() {
    let mut o = ParserOptions::default();
    o.allow_comments(true);
    let mut p = RParser::with_options(o);
    // config cannot take back what the options turned on
    assert!(p.config(ParserOption::AllowComments, false));
    assert_eq!(p.parse(b"/* c */ [1]"), Status::Success);
    assert_eq!(p.complete_parse(), Status::Success);

    // the lexer of a parser made with options follows the options only
    let mut p = RParser::with_options(ParserOptions::default());
    p.config(ParserOption::AllowComments, true);
    assert_eq!(p.parse(b"/* c */ [1]"), Status::Error);

    // options other than the lexer's act with the flags
    let mut o = ParserOptions::default();
    o.allow_multiple_values(true);
    let mut p = RParser::with_options(o);
    p.config(ParserOption::AllowMultipleValues, false);
    assert_eq!(p.parse(b"1 2 "), Status::Success);

    // a parser made with callbacks makes its lexer at the first parse,
    // from the options and the flags set by then
    let caps = Caps { number: false, integer: false, double: false };
    let rec = Recorder { seen: Vec::new(), cancel_at: 0, caps };
    let mut p = RParser::with_callbacks(rec, ParserOptions::default());
    p.config(ParserOption::AllowComments, true);
    assert_eq!(p.parse(b"/* c */ null"), Status::Success);
    assert_eq!(p.complete_parse(), Status::Success);
}

/// Records every event as text, and cancels at a given count.
struct Recorder {
    seen: Vec<String>,
    cancel_at: usize,
    caps: Caps,
}

impl Recorder {
    fn answer(&mut self, e: String) -> CallbackStatus {
        self.seen.push(e);
        if self.seen.len() == self.cancel_at {
            CallbackStatus::Cancel
        } else {
            CallbackStatus::Continue
        }
    }
}

impl Callbacks for Recorder {
    /// How many events it has seen, and at which count it cancels.
    type Model = (usize, usize);

    fn model(&self) -> (usize, usize) {
        (self.seen.len(), self.cancel_at)
    }
    fn after(m: (usize, usize), _ev: EventView) -> ((usize, usize), CallbackStatus) {
        let n = m.0 + 1;
        let answer = if n == m.1 { CallbackStatus::Cancel } else { CallbackStatus::Continue };
        ((n, m.1), answer)
    }
    fn takes_number(&self) -> bool {
        self.caps.number
    }
    fn takes_integer(&self) -> bool {
        self.caps.integer
    }
    fn takes_double(&self) -> bool {
        self.caps.double
    }

    fn null(&mut self) -> CallbackStatus {
        self.answer("null".to_string())
    }
    fn boolean(&mut self, val: bool) -> CallbackStatus {
        self.answer(format!("bool {}", val))
    }
    fn integer(&mut self, val: i64) -> CallbackStatus {
        self.answer(format!("int {}", val))
    }
    fn double(&mut self, text: &[u8]) -> CallbackStatus {
        self.answer(format!("double {}", String::from_utf8_lossy(text)))
    }
    fn number(&mut self, text: &[u8]) -> CallbackStatus {
        self.answer(format!("number {}", String::from_utf8_lossy(text)))
    }
    fn string(&mut self, val: &[u8]) -> CallbackStatus {
        self.answer(format!("string {}", String::from_utf8_lossy(val)))
    }
    fn start_map(&mut self) -> CallbackStatus {
        self.answer("{".to_string())
    }
    fn map_key(&mut self, key: &[u8]) -> CallbackStatus {
        self.answer(format!("key {}", String::from_utf8_lossy(key)))
    }
    fn end_map(&mut self) -> CallbackStatus {
        self.answer("}".to_string())
    }
    fn start_array(&mut self) -> CallbackStatus {
        self.answer("[".to_string())
    }
    fn end_array(&mut self) -> CallbackStatus {
        self.answer("]".to_string())
    }
    fn has_number(&self) -> bool {
        self.caps.number
    }
    fn has_integer(&self) -> bool {
        self.caps.integer
    }
    fn has_double(&self) -> bool {
        self.caps.double
    }
}

fn record(text: &[u8], caps: Caps, cancel_at: usize) -> (Status, Vec<String>) {
    let rec = Recorder { seen: Vec::new(), cancel_at, caps };
    let mut p = RParser::with_callbacks(rec, ParserOptions::default());
    let mut s = p.parse(text);
    if s == Status::Success {
        s = p.complete_parse();
    }
    (s, p.into_callbacks().seen)
}

#[test]
fn parser_hands_events_in_order() {
    let caps = Caps { number: false, integer: true, double: true };
    let (s, seen) = record(br#"{"k\u00e9y": [1, 2.5, "s\"t", true, null], "e": {}}"#, caps, 0);
    assert_eq!(s, Status::Success);
    assert_eq!(
        seen,
        vec![
            "{",
            "key k\u{e9}y",
            "[",
            "int 1",
            "double 2.5",
            "string s\"t",
            "bool true",
            "null",
            "]",
            "key e",
            "{",
            "}",
            "}"
        ]
    );
}

#[test]
fn parser_hands_numbers_as_text_when_asked() {
    let caps = Caps { number: true, integer: true, double: true };
    let (s, seen) = record(b"[1, -2.5e1]", caps, 0);
    assert_eq!(s, Status::Success);
    assert_eq!(seen, vec!["[", "number 1", "number -2.5e1", "]"]);
}

#[test]
fn parser_reports_integer_overflow() {
    let caps = Caps { number: false, integer: true, double: false };
    let text = b"[99999999999999999999]";
    let rec = Recorder { seen: Vec::new(), cancel_at: 0, caps };
    let mut p = RParser::with_callbacks(rec, ParserOptions::default());
    assert_eq!(p.parse(text), Status::Error);
    assert_eq!(
        String::from_utf8(p.get_error(false, text)).unwrap(),
        "parse error: integer overflow\n"
    );
    // the offset is moved back to the start of the number
    assert_eq!(p.get_bytes_consumed(), 1);
}

#[test]
fn callback_cancels_the_parse() {
    let caps = Caps { number: false, integer: false, double: false };
    let rec = Recorder { seen: Vec::new(), cancel_at: 2, caps };
    let mut p = RParser::with_callbacks(rec, ParserOptions::default());
    assert_eq!(p.parse(b"[null, true, false]"), Status::ClientCanceled);
    assert_eq!(
        String::from_utf8(p.get_error(false, b"")).unwrap(),
        "parse error: client cancelled parse via callback return value\n"
    );
    assert_eq!(p.parse(b"1"), Status::Error);
    assert_eq!(p.into_callbacks().seen, vec!["[", "null"]);
}

#[test]
fn parse_state_is_not_changed_by_config() {
    let mut p = RParser::new();
    assert_eq!(p.parse(b"[1,"), Status::Success);
    p.config(ParserOption::AllowPartialValues, true);
    assert_eq!(p.complete_parse(), Status::Success);
    let _ = ParseState::Start;
}

#[test]
fn double_move_needs_a_reading() {
    assert!(matches!(
        double_move(ParseState::Start, b"1.5", None),
        Move::Fail(ParseError::FloatingPointOverflow, true)
    ));
    match double_move(ParseState::MapNeedVal, b"1.5", Some(3)) {
        Move::Go(Some(Event::Double(t)), StackOp::SetTop(ParseState::MapGotVal)) => {
            assert_eq!(t, b"1.5".to_vec())
        },
        _ => panic!("wrong move"),
    }
}

fn tokens_in_chunks(chunks: &[&[u8]]) -> Vec<(Token, Vec<u8>)> {
    let mut lx = RLexer::with_options(LexerOptions { allow_comments: true, validate_utf8: true });
    let mut out = Vec::new();
    for chunk in chunks {
        let mut off = 0;
        loop {
            let (t, b) = lx.lex(chunk, &mut off);
            if t == Token::Eof {
                break;
            }
            out.push((t, b));
            if t == Token::Error {
                return out;
            }
        }
    }
    out
}

#[test]
fn lexing_in_chunks_reads_the_same_tokens() {
    let text: &[u8] = br#"{"k\u00e9y" : [12.5e-3, -7, true, null, /* c */ "s"], "t": false } "#;
    let whole = tokens_in_chunks(&[text]);
    assert!(whole.len() > 10);
    for cut in 0..=text.len() {
        let (a, b) = text.split_at(cut);
        assert_eq!(tokens_in_chunks(&[a, b]), whole, "cut at {}", cut);
    }
}

fn events_in_chunks(chunks: &[&[u8]]) -> (Status, Vec<String>) {
    let caps = Caps { number: false, integer: true, double: true };
    let rec = Recorder { seen: Vec::new(), cancel_at: 0, caps };
    let mut p = RParser::with_callbacks(rec, ParserOptions::default());
    let mut s = Status::Success;
    for chunk in chunks {
        s = p.parse(chunk);
        if s != Status::Success {
            break;
        }
    }
    if s == Status::Success {
        s = p.complete_parse();
    }
    (s, p.into_callbacks().seen)
}

#[test]
fn parsing_in_chunks_hands_the_same_events() {
    for text in [
        &br#"{"a": [1, 2.5, "x\ny", true, false, null, {}], "b": -3}"#[..],
        b"[1, 2",
        b"[1 2]",
        b"12 ",
        b"\"abc\" x",
    ] {
        let whole = events_in_chunks(&[text]);
        for cut in 0..=text.len() {
            let (a, b) = text.split_at(cut);
            assert_eq!(events_in_chunks(&[a, b]), whole, "cut at {}", cut);
        }
    }
}

fn state_after_chunks(chunks: &[&[u8]], options: ParserOptions) -> (Status, Vec<String>, Vec<u8>) {
    let caps = Caps { number: false, integer: true, double: true };
    let rec = Recorder { seen: Vec::new(), cancel_at: 0, caps };
    let mut p = RParser::with_callbacks(rec, options);
    let mut s = Status::Success;
    for chunk in chunks {
        s = p.parse(chunk);
        if s != Status::Success {
            break;
        }
    }
    let err = p.get_error(false, b"");
    (s, p.into_callbacks().seen, err)
}

#[test]
fn parse_calls_on_chunks_end_as_one_call_on_the_whole() {
    let mut comments = ParserOptions::default();
    comments.allow_comments(true);
    let mut multiple = ParserOptions::default();
    multiple.allow_multiple_values(true);
    let mut garbage = ParserOptions::default();
    garbage.allow_trailing_garbage(true);
    let cases: [(&[u8], &ParserOptions); 7] = [
        (br#"{"k": [10, -2.5e3, "a\u0041", null]} "#, &comments),
        (b"/* c */ [1, // x\n 2] ", &comments),
        (b"1 2 [3] ", &multiple),
        (b"[1] xyz", &garbage),
        (b"[1, 2", &comments),
        (b"{\"a\" 1}", &comments),
        (b"[tru", &comments),
    ];
    for (text, options) in cases {
        let whole = state_after_chunks(&[text], options.clone());
        for cut in 0..=text.len() {
            let (a, b) = text.split_at(cut);
            assert_eq!(state_after_chunks(&[a, b], options.clone()), whole, "cut at {}", cut);
        }
    }
}
