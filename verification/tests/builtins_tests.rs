//! Built-in functions and container types, exercised from outside.

use stdpython::Len;
use stdpython::PyList;
use stdpython::PyStr;
use stdpython::abs;
use stdpython::all;
use stdpython::any;
use stdpython::enumerate_slice;
use stdpython::list_contains;
use stdpython::max;
use stdpython::min;
use stdpython::multiply_list;
use stdpython::multiply_string;
use stdpython::range_flexible;
use stdpython::slice;
use stdpython::string_contains;
use stdpython::sum;
use stdpython::zip_slices;

#[test]
fn test_python_functions() {
    // Test generic abs function
    assert_eq!(abs(-5i64), 5);
    assert_eq!(abs(-42i32), 42);

    // Test generic sum function
    let nums_i64 = vec![1i64, 2, 3, 4, 5];
    assert_eq!(sum(&nums_i64[..]), 15);

    let nums_i32 = vec![10i32, 20, 30];
    assert_eq!(sum(&nums_i32[..]), 60);

    // Test with PyList
    let pylist = PyList::from_vec(vec![1i64, 2, 3]);
    assert_eq!(sum(&pylist), 6);

    // Test min/max
    assert_eq!(min(&nums_i64), Some(1));
    assert_eq!(max(&nums_i64), Some(5));

    // Test all/any
    let bools = vec![true, true, false];
    assert_eq!(any(&bools), true);
    assert_eq!(all(&bools), false);
}

#[test]
fn test_pystr() {
    let s = PyStr::new("hello world");
    assert_eq!(s.len(), 11);
    assert_eq!(s.upper().as_str(), "HELLO WORLD");
    assert_eq!(s.split(Some(" ")).len(), 2);
    assert_eq!(s.find("world"), 6);
    assert_eq!(s.count("l"), 3);
}

#[test]
fn test_pylist() {
    let mut list = PyList::new();
    list.append(1);
    list.append(2);
    list.append(3);

    assert_eq!(list.len(), 3);
    assert_eq!(list.get(1), Some(&2));
    assert_eq!(list.pop(None), Some(3));
    assert_eq!(list.len(), 2);
}

#[test]
fn test_compiler_helpers() {
    // Test range function
    assert_eq!(range_flexible(3, None, None), vec![0, 1, 2]);
    assert_eq!(range_flexible(1, Some(4), None), vec![1, 2, 3]);
    assert_eq!(range_flexible(0, Some(10), Some(2)), vec![0, 2, 4, 6, 8]);

    // Test enumerate
    let items = vec!["a", "b", "c"];
    let enumerated = enumerate_slice(&items);
    assert_eq!(enumerated, vec![(0, &"a"), (1, &"b"), (2, &"c")]);

    // Test zip
    let nums = vec![1, 2, 3];
    let chars = vec!['a', 'b', 'c'];
    let zipped = zip_slices(&nums, &chars);
    assert_eq!(zipped, vec![(&1, &'a'), (&2, &'b'), (&3, &'c')]);

    // Test string multiplication
    assert_eq!(multiply_string("abc", 3), "abcabcabc");
    assert_eq!(multiply_string("x", 0), "");

    // Test list multiplication
    let list = vec![1, 2];
    assert_eq!(multiply_list(&list, 3), vec![1, 2, 1, 2, 1, 2]);

    // Test contains operations
    assert!(string_contains("hello world", "world"));
    assert!(!string_contains("hello", "xyz"));

    let list = vec![1, 2, 3, 4, 5];
    assert!(list_contains(&list, &3));
    assert!(!list_contains(&list, &10));

    // Test slicing
    let items = vec![0, 1, 2, 3, 4, 5];
    assert_eq!(slice(&items, Some(1), Some(4), None), vec![1, 2, 3]);
    assert_eq!(slice(&items, None, Some(3), None), vec![0, 1, 2]);
    assert_eq!(slice(&items, Some(0), None, Some(2)), vec![0, 2, 4]);
}

#[test]
fn test_range_boundaries() {
    // start equal to stop yields nothing
    assert_eq!(stdpython::range_start_stop(7, 7), Vec::<i64>::new());
    // a negative step with start below stop yields nothing
    assert_eq!(stdpython::range_start_stop_step(0, 10, -1), Vec::<i64>::new());
    // the documented stepped progression
    assert_eq!(stdpython::range_start_stop_step(0, 10, 2), vec![0, 2, 4, 6, 8]);
    // counting down
    assert_eq!(stdpython::range_start_stop_step(5, 0, -2), vec![5, 3, 1]);
}

#[test]
fn test_conversions() {
    assert_eq!(stdpython::bool(42i64), true);
    assert_eq!(stdpython::bool(0i64), false);
    assert_eq!(stdpython::bool("hello"), true);
    assert_eq!(stdpython::bool(""), false);

    assert_eq!(stdpython::to_int("123").unwrap(), 123);
    assert_eq!(stdpython::to_int("-7").unwrap(), -7);
    assert_eq!(stdpython::to_int(true).unwrap(), 1);
    assert_eq!(stdpython::to_int(false).unwrap(), 0);
    let bad = stdpython::to_int("12x3");
    assert!(bad.is_err());
    assert_eq!(bad.unwrap_err().exception_type, "ValueError");

    assert_eq!(stdpython::str(123i64), "123");
    assert_eq!(stdpython::str(-45i64), "-45");
    assert_eq!(stdpython::str(true), "True");
    assert_eq!(stdpython::str(false), "False");
    assert_eq!(stdpython::str("hello"), "hello");
}

#[test]
fn test_strip_upper_lower_idempotent() {
    let s = PyStr::new("  Mixed Case Text \t");
    let once = s.strip();
    let twice = once.strip();
    assert_eq!(once.as_str(), twice.as_str());

    let up_once = s.upper();
    let up_twice = up_once.upper();
    assert_eq!(up_once.as_str(), up_twice.as_str());

    let low_once = s.lower();
    let low_twice = low_once.lower();
    assert_eq!(low_once.as_str(), low_twice.as_str());
}

#[test]
fn test_pystr_more() {
    let s = PyStr::new("a-b-c");
    let parts = s.split(Some("-"));
    assert_eq!(parts.len(), 3);
    let sep = PyStr::new("+");
    let joined = sep.join(&parts);
    assert_eq!(joined.as_str(), "a+b+c");
    assert!(s.startswith("a-"));
    assert!(s.endswith("-c"));
    assert_eq!(s.replace("-", "::").as_str(), "a::b::c");
    let t = PyStr::new("x={0}, y={1}");
    assert_eq!(t.format(&["1", "2"]).as_str(), "x=1, y=2");
}

#[test]
fn test_slice_negative_step() {
    let items = vec![10, 20, 30, 40, 50, 60];
    // walk down from the clamped start, strictly above the clamped stop
    assert_eq!(slice(&items, Some(4), Some(1), Some(-1)), vec![50, 40, 30]);
    // the direction of the bounds disagrees with the step: nothing
    assert_eq!(slice(&items, Some(1), Some(4), Some(-1)), Vec::<i64>::new());
    // a start past the end walks down, skipping positions past the end
    assert_eq!(slice(&items, Some(9), Some(3), Some(-2)), vec![60]);
}

#[test]
fn test_to_int_error_carries_text() {
    let err = stdpython::to_int("12x3").unwrap_err();
    assert_eq!(err.message, "invalid literal for int(): '12x3'");
}

#[test]
fn test_pydict() {
    let mut dict = stdpython::py_dict();
    dict.set("key1".to_string(), 42);
    dict.set("key2".to_string(), 100);

    assert_eq!(dict.len(), 2);
    assert_eq!(dict.get(&"key1".to_string()), Some(&42));
    assert_eq!(dict.keys().len(), 2);
    assert_eq!(dict.get_or_default(&"key3".to_string(), 7), 7);
    dict.set("key1".to_string(), 43);
    assert_eq!(dict.len(), 2);
    assert_eq!(dict.pop(&"key1".to_string()), Some(43));
    assert!(!dict.contains_key(&"key1".to_string()));
}

#[test]
fn test_pyset() {
    let mut set = stdpython::py_set();
    set.add("1".to_string());
    set.add("2".to_string());
    set.add("1".to_string()); // duplicate

    assert_eq!(set.len(), 2);
    assert!(set.contains(&"1".to_string()));
    assert!(!set.contains(&"3".to_string()));

    let mut other = stdpython::py_set();
    other.add("2".to_string());
    other.add("3".to_string());
    let u = set.union(&other);
    assert_eq!(u.len(), 3);
    let i = set.intersection(&other);
    assert_eq!(i.len(), 1);
    assert!(i.contains(&"2".to_string()));
    let d = set.difference(&other);
    assert_eq!(d.len(), 1);
    assert!(d.contains(&"1".to_string()));
    assert!(set.remove(&"1".to_string()));
    assert!(!set.remove(&"1".to_string()));
}

#[test]
fn test_helper_constructors() {
    // Test py_list
    let list = stdpython::py_list(vec![1, 2, 3]);
    assert_eq!(list.len(), 3);

    // Test py_dict
    let mut dict: stdpython::PyDictionary<i32> = stdpython::py_dict();
    dict.set("key".to_string(), 42);
    assert_eq!(dict.len(), 1);

    // Test py_set
    let mut set: stdpython::PySet = stdpython::py_set();
    set.add("1".to_string());
    set.add("2".to_string());
    assert_eq!(set.len(), 2);

    // Test py_tuple
    let tuple = stdpython::py_tuple(vec![1, 2, 3]);
    assert_eq!(tuple.len(), 3);
}

#[test]
fn test_dict_from_pairs() {
    let d = stdpython::dict_from_pairs(vec![
        ("a".to_string(), 1),
        ("b".to_string(), 2),
        ("a".to_string(), 3),
    ]);
    assert_eq!(d.len(), 2);
    assert_eq!(d.get(&"a".to_string()), Some(&3));
    let handed = stdpython::dict(d);
    assert_eq!(handed.get(&"b".to_string()), Some(&2));

    let mut base = stdpython::py_dict();
    base.set("x".to_string(), 1);
    let mut overlay = stdpython::py_dict();
    overlay.set("x".to_string(), 9);
    overlay.set("y".to_string(), 2);
    base.update(overlay);
    assert_eq!(base.get(&"x".to_string()), Some(&9));
    assert_eq!(base.get(&"y".to_string()), Some(&2));
}
