use json5_to_json::cli::{
    check_usage, file_step, is_stdin, select_mode, sort_requested, Action, Mode, UsageError,
};
use json5_to_json::convert::{convert_value, indent_width, write_json};
use json5_to_json::{convert, detect_indent, sort_value, ConvertError, IndentOption};
use serde_json::Value;

fn compact(value: &Value) -> String {
    serde_json::to_string(value).unwrap()
}

// --- IndentOption ---

#[test]
fn option_parse_mixed_case_auto() {
    assert_eq!(IndentOption::parse_str("AuTo"), Ok(IndentOption::Auto));
    assert_eq!(IndentOption::parse_str("aUTO"), Ok(IndentOption::Auto));
}

#[test]
fn option_parse_plus_sign_and_leading_zeros() {
    assert_eq!(IndentOption::parse_str("+7"), Ok(IndentOption::Fixed(7)));
    assert_eq!(IndentOption::parse_str("007"), Ok(IndentOption::Fixed(7)));
}

#[test]
fn option_parse_largest_number() {
    let text = usize::MAX.to_string();
    assert_eq!(IndentOption::parse_str(&text), Ok(IndentOption::Fixed(usize::MAX)));
}

#[test]
fn option_parse_refusals_quote_the_text() {
    for text in ["", "+", "-1", " 4", "4 ", "auto ", "autoo", "1_0", "++1", "18446744073709551616999"] {
        assert_eq!(
            IndentOption::parse_str(text),
            Err(format!("expected a number or \"auto\", got \"{text}\"")),
            "{text:?}"
        );
        assert!(text.parse::<IndentOption>().is_err());
    }
}

#[test]
fn option_parse_overflow_is_refused() {
    let text = format!("{}0", usize::MAX);
    assert!(IndentOption::parse_str(&text).is_err());
}

#[test]
fn option_to_string_numbers() {
    assert_eq!(IndentOption::Fixed(0).to_string(), "0");
    assert_eq!(IndentOption::Fixed(10).to_string(), "10");
    assert_eq!(IndentOption::Fixed(1234).to_string(), "1234");
    assert_eq!(IndentOption::Fixed(usize::MAX).to_string(), usize::MAX.to_string());
}

#[test]
fn option_text_reads_back() {
    for option in [IndentOption::Auto, IndentOption::Fixed(0), IndentOption::Fixed(9), IndentOption::Fixed(4096)] {
        assert_eq!(IndentOption::parse_str(&option.to_string()), Ok(option));
    }
}

// --- detect_indent ---

#[test]
fn detect_ignores_first_line() {
    assert_eq!(detect_indent("   {\n}"), 2);
    assert_eq!(detect_indent("   {\n\"a\": 1\n     \"b\": 2\n}"), 5);
}

#[test]
fn detect_empty_input() {
    assert_eq!(detect_indent(""), 2);
    assert_eq!(detect_indent("\n"), 2);
}

#[test]
fn detect_crlf_lines() {
    assert_eq!(detect_indent("{\r\n   \"a\": 1\r\n}"), 3);
}

#[test]
fn detect_spaces_before_tabs() {
    assert_eq!(detect_indent("{\n \t\"a\": 1\n}"), 1);
    assert_eq!(detect_indent("{\n\t\t \"a\": 1\n}"), 2);
}

#[test]
fn detect_first_indented_line_wins() {
    assert_eq!(detect_indent("{\n\"a\": [\n\t\t1,\n    2\n]\n}"), 2);
}

// --- sort_value ---

#[test]
fn sort_nested_objects_and_arrays() {
    let mut value: Value =
        serde_json::from_str(r#"{"z":[{"y":1,"x":2}],"a":{"c":null,"b":[3,2,1]}}"#).unwrap();
    sort_value(&mut value);
    assert_eq!(compact(&value), r#"{"a":{"b":[3,2,1],"c":null},"z":[{"x":2,"y":1}]}"#);
}

#[test]
fn sort_uses_byte_order() {
    let mut value: Value = serde_json::from_str(r#"{"é":1,"b":2,"B":3,"a":4,"":5,"ab":6}"#).unwrap();
    sort_value(&mut value);
    assert_eq!(compact(&value), r#"{"":5,"B":3,"a":4,"ab":6,"b":2,"é":1}"#);
}

#[test]
fn sort_twice_is_sort_once() {
    let mut value: Value = serde_json::from_str(r#"{"q":{"s":1,"r":2},"p":[{"o":0,"n":1}]}"#).unwrap();
    sort_value(&mut value);
    let once = compact(&value);
    sort_value(&mut value);
    assert_eq!(compact(&value), once);
}

#[test]
fn sort_leaves_sorted_and_scalar_values() {
    for text in [r#"{"a":1,"b":{"c":2,"d":3}}"#, "[3,1,2]", "\"text\"", "12.5", "true", "null"] {
        let mut value: Value = serde_json::from_str(text).unwrap();
        sort_value(&mut value);
        assert_eq!(compact(&value), text);
    }
}

// --- convert ---

#[test]
fn convert_keeps_order_without_sort() {
    assert_eq!(
        convert("{ z: 1, a: 2, m: 3 }", false, &IndentOption::Fixed(0)).unwrap(),
        r#"{"z":1,"a":2,"m":3}"#
    );
}

#[test]
fn convert_sorted_input_same_with_or_without_sort() {
    let input = "{ a: 1, b: { c: 2, d: [3] } }";
    for indent in [IndentOption::Fixed(0), IndentOption::Fixed(3), IndentOption::Auto] {
        assert_eq!(
            convert(input, true, &indent).unwrap(),
            convert(input, false, &indent).unwrap()
        );
    }
}

#[test]
fn convert_fixed_3() {
    assert_eq!(
        convert("{ a: [1, 2] }", false, &IndentOption::Fixed(3)).unwrap(),
        "{\n   \"a\": [\n      1,\n      2\n   ]\n}"
    );
}

#[test]
fn convert_auto_counts_tabs_as_spaces() {
    assert_eq!(
        convert("{\n\ta: 1\n}", false, &IndentOption::Auto).unwrap(),
        "{\n \"a\": 1\n}"
    );
}

#[test]
fn convert_sorts_nested_pretty() {
    assert_eq!(
        convert("{ b: { d: 1, c: 2 }, a: 0 }", true, &IndentOption::Fixed(2)).unwrap(),
        "{\n  \"a\": 0,\n  \"b\": {\n    \"c\": 2,\n    \"d\": 1\n  }\n}"
    );
}

#[test]
fn convert_reports_json5_errors() {
    for input in ["{ invalid", "", "[1,,]", "{a: }"] {
        assert!(matches!(
            convert(input, false, &IndentOption::Auto),
            Err(ConvertError::Json5(_))
        ));
    }
}

#[test]
fn convert_scalars() {
    assert_eq!(convert("'text'", false, &IndentOption::Auto).unwrap(), "\"text\"");
    assert_eq!(convert("0x10", false, &IndentOption::Fixed(0)).unwrap(), "16");
}

// --- command-line decisions ---

#[test]
fn stdin_path() {
    assert!(is_stdin("-"));
    assert!(!is_stdin("--"));
    assert!(!is_stdin(""));
    assert!(!is_stdin("-.json5"));
    assert!(!is_stdin("file.json5"));
}

#[test]
fn usage_rules() {
    assert_eq!(check_usage(true, false, true), Err(UsageError::InplaceWithStdin));
    assert_eq!(check_usage(true, true, true), Err(UsageError::InplaceWithStdin));
    assert_eq!(check_usage(false, true, true), Err(UsageError::CheckWithStdin));
    assert_eq!(check_usage(true, true, false), Ok(()));
    assert_eq!(check_usage(false, false, true), Ok(()));
    assert_eq!(UsageError::InplaceWithStdin.message(), "--inplace cannot be used with stdin");
    assert_eq!(UsageError::CheckWithStdin.message(), "--check cannot be used with stdin");
}

#[test]
fn sort_and_mode_selection() {
    assert!(sort_requested(true, false));
    assert!(!sort_requested(true, true));
    assert!(!sort_requested(false, false));
    assert_eq!(select_mode(true, true), Mode::Check);
    assert_eq!(select_mode(false, true), Mode::InPlace);
    assert_eq!(select_mode(false, false), Mode::Print);
}

#[test]
fn step_check_dirty_and_clean() {
    assert_eq!(file_step(false, Mode::Check, "{ a: 1 }", "{\"a\":1}"), (true, Action::Report));
    assert_eq!(file_step(false, Mode::Check, "{\"a\":1}\n", "{\"a\":1}"), (false, Action::Keep));
    assert_eq!(file_step(true, Mode::Check, "{\"a\":1}\n", "{\"a\":1}"), (true, Action::Keep));
}

#[test]
fn step_write_and_print_add_newline() {
    assert_eq!(
        file_step(false, Mode::InPlace, "{ x: 42 }", "{\"x\":42}"),
        (false, Action::Write("{\"x\":42}\n".to_string()))
    );
    assert_eq!(
        file_step(false, Mode::Print, "{ a: 1 }", "{\"a\":1}"),
        (false, Action::Print("{\"a\":1}\n".to_string()))
    );
}

#[test]
fn sort_many_keys() {
    let mut map = serde_json::Map::new();
    for i in (0..1001).rev() {
        map.insert(format!("k{i:04}"), Value::from(i));
    }
    let mut value = Value::Object(map);
    sort_value(&mut value);
    let keys: Vec<&String> = value.as_object().unwrap().keys().collect();
    assert_eq!(keys.len(), 1001);
    for (i, key) in keys.iter().enumerate() {
        assert_eq!(**key, format!("k{i:04}"));
        assert_eq!(value[key.as_str()], Value::from(i));
    }
}

#[test]
fn width_of_options() {
    assert_eq!(indent_width("{\n    a: 1\n}", &IndentOption::Auto), 4);
    assert_eq!(indent_width("{\n    a: 1\n}", &IndentOption::Fixed(7)), 7);
    assert_eq!(indent_width("{a: 1}", &IndentOption::Auto), 2);
}

#[test]
fn write_compact_and_pretty() {
    let value: Value = serde_json::from_str(r#"{"b":[1,{"c":null}],"a":"x"}"#).unwrap();
    assert_eq!(write_json(&value, 0).unwrap(), r#"{"b":[1,{"c":null}],"a":"x"}"#);
    assert_eq!(
        write_json(&value, 1).unwrap(),
        "{\n \"b\": [\n  1,\n  {\n   \"c\": null\n  }\n ],\n \"a\": \"x\"\n}"
    );
    assert_eq!(write_json(&Value::from(5), 4).unwrap(), "5");
    assert_eq!(write_json(&Value::Array(Vec::new()), 2).unwrap(), "[]");
}

#[test]
fn convert_parsed_value() {
    let value: Value = serde_json::from_str(r#"{"b":{"d":1,"c":2},"a":0}"#).unwrap();
    assert_eq!(
        convert_value(value.clone(), "{\n\tb: 1\n}", true, &IndentOption::Auto).unwrap(),
        "{\n \"a\": 0,\n \"b\": {\n  \"c\": 2,\n  \"d\": 1\n }\n}"
    );
    assert_eq!(
        convert_value(value, "", false, &IndentOption::Fixed(0)).unwrap(),
        r#"{"b":{"d":1,"c":2},"a":0}"#
    );
}

#[test]
fn check_run_over_files() {
    let files = [("{\"ok\":1}\n", "{\"ok\":1}"), ("{ a: 1 }", "{\"a\":1}"), ("{\"b\":2}\n", "{\"b\":2}"), ("x", "{}")];
    let mut changed = false;
    let mut reported = Vec::new();
    for (i, (input, output)) in files.iter().enumerate() {
        let (now, action) = file_step(changed, Mode::Check, input, output);
        changed = now;
        match action {
            Action::Report => reported.push(i),
            Action::Keep => {}
            other => panic!("check mode wrote or printed: {other:?}"),
        }
    }
    assert!(changed);
    assert_eq!(reported, vec![1, 3]);
}

#[test]
fn print_run_over_files() {
    let files = [("{ a: 1 }", "{\"a\":1}"), ("{ b: 2 }", "{\"b\":2}")];
    let mut changed = false;
    let mut printed = String::new();
    for (input, output) in files {
        let (now, action) = file_step(changed, Mode::Print, input, output);
        changed = now;
        match action {
            Action::Print(text) => printed.push_str(&text),
            other => panic!("print mode did {other:?}"),
        }
    }
    assert!(!changed);
    assert_eq!(printed, "{\"a\":1}\n{\"b\":2}\n");
}
