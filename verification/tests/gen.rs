use yajl::gen::{
    yajl_gen_alloc, yajl_gen_array_close, yajl_gen_array_open, yajl_gen_beautify, yajl_gen_bool,
    yajl_gen_clear, yajl_gen_config, yajl_gen_config_set_indent, yajl_gen_double_text,
    yajl_gen_escape_solidus, yajl_gen_free, yajl_gen_generation_complete, yajl_gen_get_buf,
    yajl_gen_in_error_state, yajl_gen_indent_string, yajl_gen_integer, yajl_gen_invalid_number,
    yajl_gen_invalid_string, yajl_gen_keys_must_be_strings, yajl_gen_map_close, yajl_gen_map_open,
    yajl_gen_null, yajl_gen_number, yajl_gen_print_callback, yajl_gen_reset, yajl_gen_status_ok,
    yajl_gen_string, yajl_gen_t, yajl_gen_validate_utf8, yajl_max_depth_exceeded,
};

fn out(g: &yajl_gen_t) -> String {
    String::from_utf8(yajl_gen_get_buf(g).1.to_vec()).unwrap()
}

#[test]
fn gen_extra_close() {
    let mut yg = yajl_gen_alloc();
    assert_eq!(yajl_gen_map_open(&mut yg), yajl_gen_status_ok);
    assert_eq!(yajl_gen_map_close(&mut yg), yajl_gen_status_ok);

    let s = yajl_gen_map_close(&mut yg);
    assert_eq!(yajl_gen_generation_complete, s);
    yajl_gen_free(yg);
}

#[test]
fn gen_compact_document() {
    let mut g = yajl_gen_alloc();
    assert_eq!(yajl_gen_map_open(&mut g), yajl_gen_status_ok);
    assert_eq!(yajl_gen_string(&mut g, b"a"), yajl_gen_status_ok);
    assert_eq!(yajl_gen_array_open(&mut g), yajl_gen_status_ok);
    assert_eq!(yajl_gen_integer(&mut g, -42), yajl_gen_status_ok);
    assert_eq!(yajl_gen_integer(&mut g, i64::MIN), yajl_gen_status_ok);
    assert_eq!(yajl_gen_bool(&mut g, 1), yajl_gen_status_ok);
    assert_eq!(yajl_gen_bool(&mut g, 0), yajl_gen_status_ok);
    assert_eq!(yajl_gen_null(&mut g), yajl_gen_status_ok);
    assert_eq!(yajl_gen_number(&mut g, b"1.5e3"), yajl_gen_status_ok);
    assert_eq!(yajl_gen_array_close(&mut g), yajl_gen_status_ok);
    assert_eq!(yajl_gen_string(&mut g, b"b"), yajl_gen_status_ok);
    assert_eq!(yajl_gen_string(&mut g, b"q\"\n/"), yajl_gen_status_ok);
    assert_eq!(yajl_gen_map_close(&mut g), yajl_gen_status_ok);
    assert_eq!(
        out(&g),
        "{\"a\":[-42,-9223372036854775808,true,false,null,1.5e3],\"b\":\"q\\\"\\n/\"}"
    );
    assert_eq!(yajl_gen_null(&mut g), yajl_gen_generation_complete);
}

#[test]
fn gen_beautified_document() {
    let mut g = yajl_gen_alloc();
    assert_eq!(yajl_gen_config(&mut g, yajl_gen_beautify, 1), 1);
    yajl_gen_map_open(&mut g);
    yajl_gen_string(&mut g, b"a");
    yajl_gen_array_open(&mut g);
    yajl_gen_integer(&mut g, 1);
    yajl_gen_integer(&mut g, 2);
    yajl_gen_array_close(&mut g);
    yajl_gen_string(&mut g, b"b");
    yajl_gen_null(&mut g);
    yajl_gen_map_close(&mut g);
    assert_eq!(
        out(&g),
        "{\n    \"a\": [\n        1,\n        2\n    ],\n    \"b\": null\n}\n"
    );
}

#[test]
fn gen_custom_indent() {
    let mut g = yajl_gen_alloc();
    yajl_gen_config(&mut g, yajl_gen_beautify, 1);
    assert_eq!(yajl_gen_config_set_indent(&mut g, yajl_gen_indent_string, b"\t"), 1);
    yajl_gen_array_open(&mut g);
    yajl_gen_integer(&mut g, 7);
    yajl_gen_array_close(&mut g);
    assert_eq!(out(&g), "[\n\t7\n]\n");
    assert_eq!(yajl_gen_config_set_indent(&mut g, yajl_gen_indent_string, b" x"), 0);
    assert_eq!(yajl_gen_config_set_indent(&mut g, yajl_gen_beautify, b" "), 0);
}

#[test]
fn gen_config_refuses_other_options() {
    let mut g = yajl_gen_alloc();
    assert_eq!(yajl_gen_config(&mut g, yajl_gen_indent_string, 1), 0);
    assert_eq!(yajl_gen_config(&mut g, yajl_gen_print_callback, 1), 0);
    assert_eq!(yajl_gen_config(&mut g, 3, 1), 0);
}

#[test]
fn gen_keys_must_be_strings() {
    let mut g = yajl_gen_alloc();
    yajl_gen_map_open(&mut g);
    assert_eq!(yajl_gen_integer(&mut g, 1), yajl_gen_keys_must_be_strings);
    assert_eq!(yajl_gen_null(&mut g), yajl_gen_keys_must_be_strings);
    assert_eq!(yajl_gen_map_open(&mut g), yajl_gen_keys_must_be_strings);
    assert_eq!(yajl_gen_string(&mut g, b"k"), yajl_gen_status_ok);
    assert_eq!(yajl_gen_integer(&mut g, 1), yajl_gen_status_ok);
    assert_eq!(yajl_gen_bool(&mut g, 1), yajl_gen_keys_must_be_strings);
    assert_eq!(out(&g), "{\"k\":1");
}

#[test]
fn gen_max_depth() {
    let mut g = yajl_gen_alloc();
    for _ in 0..127 {
        assert_eq!(yajl_gen_array_open(&mut g), yajl_gen_status_ok);
    }
    assert_eq!(yajl_gen_array_open(&mut g), yajl_max_depth_exceeded);
}

#[test]
fn gen_double_text() {
    let mut g = yajl_gen_alloc();
    yajl_gen_array_open(&mut g);
    assert_eq!(yajl_gen_double_text(&mut g, true, b"1"), yajl_gen_status_ok);
    assert_eq!(yajl_gen_double_text(&mut g, true, b"-2"), yajl_gen_status_ok);
    assert_eq!(yajl_gen_double_text(&mut g, true, b"2.5"), yajl_gen_status_ok);
    assert_eq!(yajl_gen_double_text(&mut g, true, b"1e+300"), yajl_gen_status_ok);
    assert_eq!(yajl_gen_double_text(&mut g, false, b"inf"), yajl_gen_invalid_number);
    yajl_gen_array_close(&mut g);
    assert_eq!(out(&g), "[1.0,-2.0,2.5,1e+300]");
}

#[test]
fn gen_string_options() {
    let mut g = yajl_gen_alloc();
    yajl_gen_config(&mut g, yajl_gen_validate_utf8, 1);
    assert_eq!(yajl_gen_string(&mut g, b"\xff"), yajl_gen_invalid_string);
    yajl_gen_config(&mut g, yajl_gen_escape_solidus, 1);
    assert_eq!(yajl_gen_string(&mut g, b"a/\x01\xc3\xa9"), yajl_gen_status_ok);
    assert_eq!(out(&g), "\"a\\/\\u0001\u{e9}\"");
}

#[test]
fn gen_reset_clear_and_complete() {
    let mut g = yajl_gen_alloc();
    assert_eq!(yajl_gen_integer(&mut g, 5), yajl_gen_status_ok);
    assert_eq!(yajl_gen_integer(&mut g, 6), yajl_gen_generation_complete);
    assert_eq!(yajl_gen_map_close(&mut g), yajl_gen_generation_complete);
    yajl_gen_reset(&mut g, Some(b"\n"));
    assert_eq!(yajl_gen_integer(&mut g, 6), yajl_gen_status_ok);
    assert_eq!(out(&g), "5\n6");
    yajl_gen_clear(&mut g);
    assert_eq!(out(&g), "");
    yajl_gen_reset(&mut g, None);
    assert_eq!(yajl_gen_string(&mut g, b"x"), yajl_gen_status_ok);
    assert_eq!(out(&g), "\"x\"");
    let _ = yajl_gen_in_error_state;
}

#[test]
fn gen_open_close_writes_empty_value() {
    let mut g = yajl_gen_alloc();
    yajl_gen_array_open(&mut g);
    yajl_gen_map_open(&mut g);
    yajl_gen_map_close(&mut g);
    yajl_gen_array_open(&mut g);
    yajl_gen_array_close(&mut g);
    yajl_gen_array_close(&mut g);
    assert_eq!(out(&g), "[{},[]]");
}

#[test]
fn gen_integers_read_back() {
    for i in [0i64, 7, -7, 10, 12345, -98765, i64::MAX, i64::MIN + 1] {
        let mut g = yajl_gen_alloc();
        assert_eq!(yajl_gen_integer(&mut g, i), yajl_gen_status_ok);
        assert_eq!(yajl::parser::parse_integer(yajl_gen_get_buf(&g).1), Ok(i));
    }
    // the most negative integer is written but does not read back
    let mut g = yajl_gen_alloc();
    yajl_gen_integer(&mut g, i64::MIN);
    assert_eq!(
        yajl::parser::parse_integer(yajl_gen_get_buf(&g).1),
        Err(yajl::parser::ParseIntegerError::Underflow)
    );
}
