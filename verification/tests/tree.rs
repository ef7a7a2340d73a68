use yajl::parser::ParseIntegerError;
use yajl::tree::{
    number_from_reads,
    handle_boolean, handle_end_array, handle_end_map, handle_null, handle_number,
    handle_start_array, handle_start_map, handle_string, yajl_tree_get, yajl_tree_parse, Context,
    Value, ValueError, ValueType,
};

const SAMPLE: &str = r#"
/* a sample configuration */
{
    "Logging": {
        "level": "BP_LOG_LEVEL",
        "fileRolloverKB": 2048,
        "ratio": 0.25,
        "tags": ["a", "b"],
        "enabled": true,
        "extra": null
    }
}
"#;

fn path(keys: &[&str]) -> Vec<Vec<u8>> {
    keys.iter().map(|k| k.as_bytes().to_vec()).collect()
}

#[test]
fn yajl_tree_get_fails_when_passing_null_as_input() {
    let p = path(&["Logging", "fileRolloverKB"]);
    let val = yajl_tree_get(None, Some(p.as_slice()), ValueType::Any);
    assert!(val.is_none());
}

#[test]
fn yajl_tree_get_fails_when_passing_null_as_path() {
    let mut err = Vec::new();
    let node = yajl_tree_parse(SAMPLE.as_bytes(), &mut err).unwrap();
    assert!(yajl_tree_get(Some(&node), None, ValueType::Any).is_none());
}

#[test]
fn tree_parse_and_get_number() {
    for size in [0usize, 128] {
        let mut err = vec![0u8; size];
        let node = yajl_tree_parse(SAMPLE.as_bytes(), &mut err).unwrap();
        assert_eq!(err, vec![0u8; size]);
        let p = path(&["Logging", "fileRolloverKB"]);
        let val = yajl_tree_get(Some(&node), Some(p.as_slice()), ValueType::Number).unwrap();
        assert_eq!(val.as_integer(), Some(2048));
        assert_eq!(val.as_number(), Some(&b"2048"[..]));
        assert!(val.is_integer());
        assert!(val.is_double());
    }
}

#[test]
fn tree_parse_and_get_string() {
    let mut err = vec![0u8; 128];
    let node = yajl_tree_parse(SAMPLE.as_bytes(), &mut err).unwrap();
    let p = path(&["Logging", "level"]);
    let val = yajl_tree_get(Some(&node), Some(p.as_slice()), ValueType::String).unwrap();
    assert_eq!(val.as_string(), Some(&b"BP_LOG_LEVEL"[..]));
    // a value of another kind is not found
    assert!(yajl_tree_get(Some(&node), Some(p.as_slice()), ValueType::Number).is_none());
    // nor a missing key
    let q = path(&["Logging", "nothing"]);
    assert!(yajl_tree_get(Some(&node), Some(q.as_slice()), ValueType::Any).is_none());
    // nor a path through something that is not an object
    let r = path(&["Logging", "level", "x"]);
    assert!(yajl_tree_get(Some(&node), Some(r.as_slice()), ValueType::Any).is_none());
    // the empty path finds the value itself
    let e = path(&[]);
    assert!(yajl_tree_get(Some(&node), Some(e.as_slice()), ValueType::Object).is_some());
}

#[test]
fn tree_values_of_each_kind() {
    let mut err = Vec::new();
    let node = yajl_tree_parse(SAMPLE.as_bytes(), &mut err).unwrap();
    let get = |k: &str| {
        let p = path(&["Logging", k]);
        yajl_tree_get(Some(&node), Some(p.as_slice()), ValueType::Any).unwrap()
    };
    let ratio = get("ratio");
    assert!(ratio.is_number() && ratio.is_double() && !ratio.is_integer());
    assert_eq!(ratio.as_integer(), None);
    let tags = get("tags");
    assert!(tags.is_array());
    let a = tags.as_array().unwrap();
    assert_eq!(a.values.len(), 2);
    assert_eq!(a.values[1].as_string(), Some(&b"b"[..]));
    assert_eq!(get("enabled").as_bool(), Some(true));
    assert!(get("enabled").is_true());
    assert!(get("extra").is_null());
    assert_eq!(get("extra").as_bool(), None);
    let logging = yajl_tree_get(Some(&node), Some(path(&["Logging"]).as_slice()), ValueType::Object)
        .unwrap();
    let o = logging.as_object().unwrap();
    assert_eq!(o.keys.len(), 6);
    assert_eq!(o.keys[0], b"level".to_vec());
    assert_eq!(o.values.len(), 6);
}

#[test]
fn tree_parse_reports_errors() {
    let mut err = vec![0u8; 128];
    assert!(yajl_tree_parse(b"{\"a\" 1}", &mut err).is_none());
    let end = err.iter().position(|&b| b == 0).unwrap();
    let msg = String::from_utf8(err[..end].to_vec()).unwrap();
    assert!(msg.starts_with(
        "parse error: object key and value must be separated by a colon (':')\n"
    ));
    assert_eq!(err.len(), 128);

    // a short buffer takes what fits and a NUL
    let mut small = vec![7u8; 6];
    assert!(yajl_tree_parse(b"[1", &mut small).is_none());
    assert_eq!(small, b"parse\0".to_vec());

    // no buffer, no report
    let mut none = Vec::new();
    assert!(yajl_tree_parse(b"[1,,]", &mut none).is_none());
    assert!(none.is_empty());
}

#[test]
fn tree_parse_stops_at_nul() {
    let mut err = Vec::new();
    let node = yajl_tree_parse(b"[1]\0garbage", &mut err).unwrap();
    assert!(node.is_array());
}

#[test]
fn value_type_repr_roundtrip() {
    for t in [
        ValueType::String,
        ValueType::Number,
        ValueType::Object,
        ValueType::Array,
        ValueType::True,
        ValueType::False,
        ValueType::Null,
        ValueType::Any,
    ] {
        assert_eq!(ValueType::from_repr(t.repr()), Some(t));
    }
    assert_eq!(ValueType::from_repr(0), None);
    assert_eq!(ValueType::from_repr(9), None);
}

#[test]
fn value_error_message() {
    assert_eq!(ValueError::OutOfMemory.as_bytes_w_null(), b"Out of memory\0");
}

#[test]
fn handle_boolean_works() {
    for b in [0, 1] {
        let mut ctx = Context::new(0);
        let status = handle_boolean(&mut ctx, b);
        assert_ne!(status, 0);
        match &ctx.root {
            Some(Value::True) => assert_eq!(b, 1),
            Some(Value::False) => assert_eq!(b, 0),
            _ => panic!("no boolean"),
        }
    }
}

#[test]
fn handle_string_works() {
    let mut ctx = Context::new(0);

    let status = handle_string(&mut ctx, b"key");

    assert_ne!(status, 0);

    assert!(ctx.stack.is_empty());
    assert_eq!(ctx.root.as_ref().unwrap().as_string(), Some(&b"key"[..]));
}

#[test]
fn handle_number_works() {
    let cases: [(&[u8], i64, u32); 5] = [
        (b"123", 123, 3),
        (b"-123", -123, 3),
        (b"-12.3", i64::MAX, 2),
        (b"nan", i64::MAX, 0),
        (b"99999999999999999999", i64::MAX, 2),
    ];
    for (text, i, flags) in cases {
        for size in [0usize, 128] {
            let mut ctx = Context::new(size);
            let status = handle_number(&mut ctx, text);
            assert_ne!(status, 0);
            match &ctx.root {
                Some(Value::Number(n)) => {
                    assert_eq!(n.r, text.to_vec());
                    assert_eq!(n.i, i);
                    assert_eq!(n.flags, flags);
                },
                _ => panic!("no number"),
            }
            assert_eq!(ctx.errbuf, vec![0u8; size]);
        }
    }
    let mut ctx = Context::new(0);
    assert_ne!(handle_number(&mut ctx, b"-99999999999999999999"), 0);
    match &ctx.root {
        Some(Value::Number(n)) => assert_eq!((n.i, n.flags), (i64::MIN, 2)),
        _ => panic!("no number"),
    }
}

#[test]
fn handle_null_works() {
    let mut ctx = Context::new(0);

    let status = handle_null(&mut ctx);

    assert_ne!(status, 0);

    assert!(ctx.stack.is_empty());
    assert!(ctx.root.as_ref().unwrap().is_null());
}

#[test]
fn handle_start_and_end_array_works() {
    let mut ctx = Context::new(0);
    let status = handle_start_array(&mut ctx);
    assert_eq!(status, 1);
    assert_eq!(ctx.stack.len(), 1);
    assert!(ctx.stack[0].value.is_array());
    assert!(ctx.root.is_none());
    let status = handle_null(&mut ctx);
    assert_eq!(status, 1);
    assert_eq!(ctx.stack[0].value.as_array().unwrap().values.len(), 1);
    let status = handle_end_array(&mut ctx);
    assert_eq!(status, 1);
    assert!(ctx.stack.is_empty());
    let root = ctx.root.as_ref().unwrap().as_array().unwrap();
    assert_eq!(root.values.len(), 1);
    assert!(root.values[0].is_null());
}

#[test]
fn handle_start_and_end_map_works() {
    let mut ctx = Context::new(0);
    let status = handle_start_map(&mut ctx);
    assert_eq!(status, 1);
    assert_eq!(ctx.stack.len(), 1);
    assert!(ctx.stack[0].key.is_none());
    let status = handle_string(&mut ctx, b"key");
    assert_eq!(status, 1);
    assert_eq!(ctx.stack[0].key, Some(b"key".to_vec()));
    let status = handle_boolean(&mut ctx, 1);
    assert_eq!(status, 1);
    assert!(ctx.stack[0].key.is_none());
    let status = handle_end_map(&mut ctx);
    assert_eq!(status, 1);
    assert!(ctx.stack.is_empty());
    let root = ctx.root.as_ref().unwrap().as_object().unwrap();
    assert_eq!(root.keys, vec![b"key".to_vec()]);
    assert!(root.values[0].is_true());
}

#[test]
fn handle_end_without_start_fails() {
    let mut ctx = Context::new(64);
    assert_eq!(handle_end_map(&mut ctx), 0);
    let end = ctx.errbuf.iter().position(|&b| b == 0).unwrap();
    assert_eq!(&ctx.errbuf[..end], b"context_pop: Bottom of stack reached prematurely");
}

#[test]
fn context_refuses_a_non_string_key() {
    let mut ctx = Context::new(80);
    handle_start_map(&mut ctx);
    assert!(ctx.refuses(false));
    assert!(!ctx.refuses(true));
    assert_eq!(ctx.add_value(Value::Null), Err(ValueError::ObjectKeyIsNotAString));
    let end = ctx.errbuf.iter().position(|&b| b == 0).unwrap();
    assert_eq!(
        &ctx.errbuf[..end],
        &b"Context::add_value: Object key is not a string (0x07)"[..]
    );
    let mut ctx = Context::new(16);
    ctx.record_error(b"Out of memory\0");
    assert_eq!(&ctx.errbuf[..14], b"Out of memory\0");
}

#[test]
fn values_can_be_changed_in_place() {
    let mut err = Vec::new();
    let mut node = yajl_tree_parse(b"{\"a\": [\"x\"]}", &mut err).unwrap();
    {
        let o = node.as_object_mut().unwrap();
        let arr = o.values[0].as_array_mut().unwrap();
        let s = arr.values[0].as_string_mut().unwrap();
        s.push(b'y');
    }
    let p = path(&["a"]);
    let a = yajl_tree_get(Some(&node), Some(p.as_slice()), ValueType::Array).unwrap();
    assert_eq!(a.as_array().unwrap().values[0].as_string(), Some(&b"xy"[..]));
    assert!(node.as_array_mut().is_none());
    assert!(node.as_string_mut().is_none());
}

#[test]
fn number_from_reads_combines_the_readings() {
    let check = |v: Value, i: i64, flags: u32| match v {
        Value::Number(n) => {
            assert_eq!(n.r, b"12".to_vec());
            assert_eq!((n.i, n.flags), (i, flags));
        },
        _ => panic!("no number"),
    };
    check(number_from_reads(b"12", Ok(12), Some(2)), 12, 3);
    check(number_from_reads(b"12", Ok(12), Some(1)), 12, 1);
    check(number_from_reads(b"12", Err(ParseIntegerError::Overflow), None), i64::MAX, 0);
    check(number_from_reads(b"12", Err(ParseIntegerError::Underflow), Some(2)), i64::MIN, 2);
    check(number_from_reads(b"12", Err(ParseIntegerError::NonNumerical(b'.')), None), i64::MAX, 0);
}
