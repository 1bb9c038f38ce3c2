//! The standard-library modules, exercised from outside.

use stdpython::collections::Counter;
use stdpython::glob::escape;
use stdpython::glob::has_magic;
use stdpython::glob::is_hidden;
use stdpython::glob::match_char_class;
use stdpython::glob::match_glob;
use stdpython::itertools::combinations;
use stdpython::itertools::compress;
use stdpython::itertools::count;
use stdpython::itertools::cycle;
use stdpython::itertools::repeat_times;
use stdpython::json;
use stdpython::json::JSONValue;
use stdpython::pathlib::PurePath;
use stdpython::string::Template;
use stdpython::string::capwords;
use stdpython::string::capwords_wrapper;

#[test]
fn test_match_glob() {
    assert!(match_glob("hello.txt", "*.txt"));
    assert!(match_glob("hello.py", "hello.*"));
    assert!(match_glob("test", "t?st"));
    assert!(match_glob("file", "f[aeiou]le"));
    assert!(!match_glob("file.py", "*.txt"));
    assert!(!match_glob("hello", "h[xyz]llo"));
}

#[test]
fn test_char_class() {
    assert!(matches!(match_char_class('a', &['[', 'a', 'b', 'c', ']'], 0), Some((true, 5))));
    assert!(matches!(match_char_class('d', &['[', 'a', 'b', 'c', ']'], 0), Some((false, 5))));
    assert!(matches!(match_char_class('b', &['[', 'a', '-', 'z', ']'], 0), Some((true, 5))));
    assert!(matches!(match_char_class('a', &['[', '!', 'b', 'c', ']'], 0), Some((true, 5))));
}

#[test]
fn test_escape() {
    assert_eq!(escape("file*.txt"), "file\\*.txt");
    assert_eq!(escape("test[123].py"), "test\\[123\\].py");
    assert_eq!(escape("normal_file.txt"), "normal_file.txt");
}

#[test]
fn test_has_magic() {
    assert!(has_magic("*.txt"));
    assert!(has_magic("file?.py"));
    assert!(has_magic("test[123]"));
    assert!(has_magic("{a,b,c}"));
    assert!(!has_magic("normal_file.txt"));
}

#[test]
fn test_is_hidden() {
    assert!(is_hidden(".bashrc"));
    assert!(is_hidden(".hidden"));
    assert!(!is_hidden("visible.txt"));
    assert!(!is_hidden("."));
    assert!(!is_hidden(".."));
}

#[test]
fn test_count() {
    let mut counter = count(0, 2);
    assert_eq!(counter.take(5), vec![0, 2, 4, 6, 8]);
}

#[test]
fn test_cycle() {
    let mut cycler = cycle(vec![1, 2, 3]);
    assert_eq!(cycler.take(7), vec![1, 2, 3, 1, 2, 3, 1]);
}

#[test]
fn test_repeat() {
    let mut repeater = repeat_times(5, 3);
    assert_eq!(repeater.take(5), vec![5, 5, 5]); // Only 3 items available
}

#[test]
fn test_combinations() {
    let result = combinations(&[1, 2, 3, 4], 2);
    assert_eq!(result, vec![
        vec![1, 2], vec![1, 3], vec![1, 4],
        vec![2, 3], vec![2, 4], vec![3, 4]
    ]);
}

#[test]
fn test_compress() {
    let result = compress(
        vec!['A', 'B', 'C', 'D'],
        vec![true, false, true, false]
    );
    assert_eq!(result, vec!['A', 'C']);
}

#[test]
fn test_purepath_suffix() {
    let p = PurePath::new("file.tar.gz");
    assert_eq!(p.suffix(), ".gz");
    assert_eq!(p.suffixes(), vec![".tar", ".gz"]);
    assert_eq!(p.stem(), "file.tar");
}

#[test]
fn test_purepath_joinpath() {
    let p1 = PurePath::new("/home/user");
    let p2 = p1.joinpath("documents");
    assert_eq!(p2.name(), "documents");
}

#[test]
fn test_glob_matching() {
    assert!(match_glob("file.txt", "*.txt"));
    assert!(match_glob("test.py", "test.*"));
    assert!(match_glob("hello", "h?llo"));
    assert!(!match_glob("file.py", "*.txt"));
}

#[test]
fn test_capwords() {
    assert_eq!(capwords("hello world", None), "Hello World");
    assert_eq!(capwords("hello-world", Some("-".to_string())), "Hello-World");
    assert_eq!(capwords("HELLO WORLD", None), "Hello World");
}

#[test]
fn test_capwords_wrapper_delegates() {
    assert_eq!(
        capwords_wrapper("hello world".to_string(), None),
        capwords("hello world", None),
    );
    assert_eq!(capwords_wrapper("one two".to_string(), None), "One Two");
}

#[test]
fn test_template() {
    let tmpl = Template::new("Hello $name! Welcome to $place.");
    let mapping = vec![
        ("name".to_string(), "Alice".to_string()),
        ("place".to_string(), "Wonderland".to_string()),
    ];

    assert_eq!(
        tmpl.substitute(&mapping).unwrap(),
        "Hello Alice! Welcome to Wonderland."
    );

    let tmpl2 = Template::new("Hello ${name}! Welcome to ${place}.");
    assert_eq!(
        tmpl2.substitute(&mapping).unwrap(),
        "Hello Alice! Welcome to Wonderland."
    );
}

#[test]
fn test_template_missing_var() {
    let tmpl = Template::new("Hello $name! Welcome to $place.");
    let mapping = vec![("name".to_string(), "Alice".to_string())]; // missing 'place'

    assert!(tmpl.substitute(&mapping).is_err());
}

#[test]
fn test_safe_substitute() {
    let tmpl = Template::new("Hello $name! Welcome to $place.");
    let mapping = vec![("name".to_string(), "Alice".to_string())]; // missing 'place'

    assert_eq!(
        tmpl.safe_substitute(&mapping),
        "Hello Alice! Welcome to $place."
    );
}

#[test]
fn test_template_missing_var_kind() {
    let tmpl = Template::new("$who");
    let empty: Vec<(String, String)> = Vec::new();
    let err = tmpl.substitute(&empty).unwrap_err();
    assert_eq!(err.exception_type, "KeyError");
    assert_eq!(err.message, "'who' variable not provided");
}

#[test]
fn test_json_round_trip_scenario() {
    let parsed = json::loads("{\"name\":\"test\",\"value\":42}").unwrap();
    let text = json::dumps(&parsed, None);
    assert!(text.contains("test"));
    assert!(text.contains("42"));
    let reparsed = json::loads(&text).unwrap();
    let obj = reparsed.as_object().unwrap();
    assert_eq!(obj.len(), 2);
}

#[test]
fn test_json_values() {
    let v = json::loads(" [1, 2, 3] ").unwrap();
    let arr = v.as_array().unwrap();
    assert_eq!(arr.len(), 3);
    assert_eq!(arr[0].as_number(), Some(1));

    assert!(json::loads("").is_err());
    let err = json::loads("{oops").unwrap_err();
    assert_eq!(err.exception_type, "ValueError");

    let v = json::loads("\"a\\nb\"").unwrap();
    assert_eq!(v.as_string().unwrap(), "a\nb");

    let text = json::dumps(&JSONValue::Bool(true), None);
    assert_eq!(text, "true");
    let pretty = json::dumps(&json::loads("[1,2]").unwrap(), Some(2));
    assert_eq!(pretty, "[\n  1,\n  2\n]");
}

#[test]
fn test_counter_scenario() {
    let c = Counter::from_iter(vec!["a".to_string(), "b".to_string(), "a".to_string()]);
    assert_eq!(c.get(&"a".to_string()), 2);
    assert_eq!(c.get(&"b".to_string()), 1);
    assert_eq!(c.get(&"missing".to_string()), 0);
    assert_eq!(c.total(), 3);
}

#[test]
fn test_registry_scenario() {
    let mut registry = stdpython::PythonFunctionRegistry::new();
    registry.register("math", "sqrt", "(x) -> float");
    assert!(registry.has_function("math", "sqrt"));
    assert!(!registry.has_function("math", "cbrt"));
    assert!(!registry.has_function("os", "sqrt"));
    let before = registry.get_all_functions().len();
    registry.register("math", "sqrt", "(y) -> float");
    assert_eq!(registry.get_all_functions().len(), before);
    assert!(registry.has_function("math", "sqrt"));
}
