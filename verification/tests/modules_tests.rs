//! The date, duration, random, path-join, configuration and container
//! modules, exercised from outside.

use stdpython::Len;
use stdpython::collections::OrderedDict;
use stdpython::collections::deque;
use stdpython::datetime::date;
use stdpython::datetime::time;
use stdpython::datetime::timedelta;
use stdpython::os::join_paths;
use stdpython::random::LCGRandom;
use stdpython::random::randint;
use stdpython::random::sample;
use stdpython::random::shuffle;
use stdpython::sysconfig;

#[test]
fn test_date_basics() {
    let d = date::new(2020, 2, 29).unwrap();
    assert_eq!(d.isoformat(), "2020-02-29");
    assert!(date::new(2021, 2, 29).is_err());
    assert!(date::new(2021, 13, 1).is_err());
    let err = date::new(2021, 0, 1).unwrap_err();
    assert_eq!(err.exception_type, "ValueError");

    // day 1 is the first of January of year 1
    let first = date::new(1, 1, 1).unwrap();
    assert_eq!(first.toordinal(), 1);
    let back = date::fromordinal(1).unwrap();
    assert_eq!(back, first);

    // a known round trip
    let d = date::new(2024, 3, 5).unwrap();
    let ord = d.toordinal();
    assert_eq!(date::fromordinal(ord).unwrap(), d);
    assert!(date::fromordinal(0).is_err());
}

#[test]
fn test_time_and_timedelta() {
    let t = time::new(13, 5, Some(7), None).unwrap();
    assert_eq!(t.isoformat(None), "13:05:07");
    let t2 = time::new(13, 5, Some(7), Some(250)).unwrap();
    assert_eq!(t2.isoformat(None), "13:05:07.000250");
    assert_eq!(t2.isoformat(Some("minutes")), "13:05");
    assert!(time::new(24, 0, None, None).is_err());

    let td = timedelta::new(Some(1), Some(-1), None, None, None, None, None);
    assert_eq!(td.days, 0);
    assert_eq!(td.seconds, 86399);
    assert_eq!(td.microseconds, 0);

    let td2 = timedelta::new(None, None, Some(-1), None, None, None, None);
    assert_eq!(td2.days, -1);
    assert_eq!(td2.seconds, 86399);
    assert_eq!(td2.microseconds, 999_999);

    let td3 = timedelta::new(None, Some(3661), None, None, None, None, Some(1));
    assert_eq!(td3.days, 7);
    assert_eq!(td3.seconds, 3661);
}

#[test]
fn test_random_determinism() {
    let mut a = LCGRandom::new(42);
    let mut b = LCGRandom::new(42);
    let x = randint(&mut a, 1, 100).unwrap();
    let y = randint(&mut b, 1, 100).unwrap();
    assert_eq!(x, y);
    assert!((1..=100).contains(&x));
    assert!(randint(&mut a, 5, 4).is_err());

    let mut items = vec![1, 2, 3, 4, 5];
    shuffle(&mut a, &mut items);
    let mut sorted = items.clone();
    sorted.sort();
    assert_eq!(sorted, vec![1, 2, 3, 4, 5]);

    let picked = sample(&mut a, &[10, 20, 30], 2).unwrap();
    assert_eq!(picked.len(), 2);
    assert!(sample(&mut a, &[1], 2).is_err());
}

#[test]
fn test_join_paths() {
    assert_eq!(join_paths("/home", &["user", "docs"]), "/home/user/docs");
    assert_eq!(join_paths("rel", &["/abs"]), "/abs");
    assert_eq!(join_paths("a/", &["b"]), "a/b");
}

#[test]
fn test_sysconfig_tables() {
    assert_eq!(
        sysconfig::get_path("stdlib").unwrap(),
        "/usr/local/lib/python3.11"
    );
    let err = sysconfig::get_path("nowhere").unwrap_err();
    assert_eq!(err.exception_type, "KeyError");
    assert_eq!(sysconfig::get_config_var("CC").unwrap(), "gcc");
    assert!(sysconfig::get_config_var("MISSING").is_none());
    assert_eq!(sysconfig::get_paths().len(), 7);
    assert_eq!(sysconfig::get_scheme_names().len(), 6);
    assert!(!sysconfig::is_python_build());
    assert_eq!(
        sysconfig::is_python_build_wrapper(),
        sysconfig::is_python_build()
    );
}

#[test]
fn test_deque_behaviour() {
    let mut d: deque<i64> = deque::new();
    d.append(1);
    d.append(2);
    d.appendleft(0);
    assert_eq!(d.len(), 3);
    assert_eq!(d.get(0), Some(&0));
    assert_eq!(d.popleft(), Some(0));
    assert_eq!(d.pop(), Some(2));

    let mut bounded: deque<i64> = deque::with_maxlen(2);
    bounded.append(1);
    bounded.append(2);
    bounded.append(3);
    assert_eq!(bounded.len(), 2);
    assert_eq!(bounded.get(0), Some(&2));
    assert_eq!(bounded.get(1), Some(&3));

    let mut r: deque<i64> = deque::from_iter(vec![1, 2, 3, 4], None);
    r.rotate(1);
    assert_eq!(r.get(0), Some(&4));
    r.reverse();
    assert_eq!(r.get(0), Some(&3));

    let mut e: deque<i64> = deque::from_iter(vec![1, 2, 3, 2], None);
    assert_eq!(e.count(&2), 2);
    assert!(e.remove(&9).is_err());
    assert!(e.remove(&2).is_ok());
    assert_eq!(e.count(&2), 1);
}

#[test]
fn test_ordered_dict() {
    let mut od: OrderedDict<i64> = OrderedDict::new();
    od.insert("b".to_string(), 2);
    od.insert("a".to_string(), 1);
    od.insert("b".to_string(), 20);
    let keys = od.keys();
    assert_eq!(keys, vec!["b".to_string(), "a".to_string()]);
    assert_eq!(od.get(&"b".to_string()), Some(&20));
    assert!(od.contains_key(&"a".to_string()));
    let (k, v) = od.popitem(true).unwrap();
    assert_eq!((k.as_str(), v), ("a", 1));
    assert!(od.move_to_end(&"missing".to_string(), true).is_err());
}

#[test]
fn test_defaultdict() {
    let mut dd = stdpython::collections::defaultdict_int();
    assert_eq!(dd.get_or_default(&"x".to_string()).unwrap(), 0);
    dd.insert("y".to_string(), 5);
    assert_eq!(dd.get(&"y".to_string()), Some(&5));
    assert_eq!(dd.len(), 2);

    let mut bare: stdpython::collections::defaultdict<i64> =
        stdpython::collections::defaultdict::without_factory();
    let err = bare.get_or_default(&"z".to_string()).unwrap_err();
    assert_eq!(err.exception_type, "KeyError");
}

#[test]
fn test_chainmap() {
    let mut cm: stdpython::collections::ChainMap<i64> = stdpython::collections::ChainMap::empty();
    cm.insert("a".to_string(), 1);
    cm.new_child(vec![("b".to_string(), 2)]);
    assert_eq!(cm.get(&"a".to_string()), Some(&1));
    assert_eq!(cm.get(&"b".to_string()), Some(&2));
    assert!(cm.contains_key(&"a".to_string()));
    assert!(!cm.contains_key(&"c".to_string()));
    assert_eq!(cm.num_maps(), 2);
    let keys = cm.keys();
    assert_eq!(keys.len(), 2);
}

#[test]
fn test_itertools_more() {
    let joined = stdpython::itertools::chain_from_iterable(vec![vec![1, 2], vec![3]]);
    assert_eq!(joined, vec![1, 2, 3]);

    let sliced = stdpython::itertools::islice(vec![0, 1, 2, 3, 4, 5], 1, Some(5), 2);
    assert_eq!(sliced, vec![1, 3]);

    let taken = stdpython::itertools::takewhile(vec![1, 2, 9, 1], |x: &i64| *x < 5);
    assert_eq!(taken, vec![1, 2]);

    let dropped = stdpython::itertools::dropwhile(vec![1, 2, 9, 1], |x: &i64| *x < 5);
    assert_eq!(dropped, vec![9, 1]);

    let kept = stdpython::itertools::filterfalse(vec![1, 2, 9, 1], |x: &i64| *x < 5);
    assert_eq!(kept, vec![9]);

    let mut chain: stdpython::itertools::Chain<i64> = stdpython::itertools::Chain::new();
    chain.add(vec![1, 2]);
    chain.add(vec![3]);
    assert_eq!(chain.next(), Some(1));
    assert_eq!(chain.collect(), vec![2, 3]);
}

#[test]
fn test_counter_most_common() {
    let c = stdpython::collections::Counter::from_iter(vec![
        "b".to_string(),
        "a".to_string(),
        "b".to_string(),
        "c".to_string(),
        "a".to_string(),
        "b".to_string(),
    ]);
    let top = c.most_common(Some(2));
    assert_eq!(top.len(), 2);
    assert_eq!(top[0].0, "b");
    assert_eq!(top[0].1, 3);
    assert_eq!(top[1].0, "a");
    assert_eq!(top[1].1, 2);
    let elems = c.elements();
    assert_eq!(elems.len(), 6);
}

#[test]
fn test_purepath_more() {
    let p = stdpython::PurePath::new("/home/user/file.txt");
    assert!(p.is_absolute());
    assert!(!p.is_relative());
    assert_eq!(p.root(), "/");
    assert_eq!(p.anchor(), "/");
    assert_eq!(p.drive(), "");
    assert_eq!(p.name(), "file.txt");
    let parts = p.parts();
    assert_eq!(parts, vec!["/", "home", "user", "file.txt"]);
    let rel = p
        .relative_to(&stdpython::PurePath::new("/home"))
        .unwrap();
    assert_eq!(rel.as_posix(), "user/file.txt");
    assert!(p
        .relative_to(&stdpython::PurePath::new("/var"))
        .is_err());
    assert!(p.match_pattern("*.txt"));
}

#[test]
fn test_formatter() {
    let out = stdpython::string::Formatter::format("x={0} y={1}", &vec![
        "1".to_string(),
        "2".to_string(),
    ]);
    assert_eq!(out, "x=1 y=2");
    let out = stdpython::string::Formatter::format_map("hello {name}", &vec![(
        "name".to_string(),
        "you".to_string(),
    )]);
    assert_eq!(out, "hello you");
    let ph = stdpython::string::Formatter::vformat("a{x}b{y}c").unwrap();
    assert_eq!(ph, vec!["x".to_string(), "y".to_string()]);
    let bad = stdpython::string::Formatter::vformat("oops{", ).unwrap_err();
    assert_eq!(bad.exception_type, "ValueError");
}

#[test]
fn test_itertools_combinatorics() {
    let perms = stdpython::itertools::permutations(&[1, 2], None);
    assert_eq!(perms.len(), 2);
    assert!(perms.contains(&vec![1, 2]));
    assert!(perms.contains(&vec![2, 1]));

    let prod = stdpython::itertools::product(&[vec![1, 2], vec![10, 20]]);
    assert_eq!(prod, vec![vec![1, 10], vec![1, 20], vec![2, 10], vec![2, 20]]);

    let acc = stdpython::itertools::accumulate::<fn(&i64, &i64) -> i64>(&[1, 2, 3, 4], None);
    assert_eq!(acc, vec![1, 3, 6, 10]);
    let acc2 = stdpython::itertools::accumulate(&[2, 3, 4], Some(|a: &i64, b: &i64| a * b));
    assert_eq!(acc2, vec![2, 6, 24]);
}

#[test]
fn test_json_sorted_keys() {
    let v = stdpython::json::loads("{\"b\":1,\"a\":2}").unwrap();
    let enc = stdpython::JSONEncoder::with_options(false, true, true, true, true, None, None);
    assert_eq!(enc.encode(&v), "{\"a\":2,\"b\":1}");
    let plain = stdpython::JSONEncoder::new();
    assert_eq!(plain.encode(&v), "{\"b\":1,\"a\":2}");
    let spaced = stdpython::JSONEncoder::with_options(
        false,
        true,
        true,
        true,
        false,
        None,
        Some((", ".to_string(), ": ".to_string())),
    );
    assert_eq!(spaced.encode(&v), "{\"b\": 1, \"a\": 2}");
}

#[test]
fn test_strftime() {
    let d = stdpython::datetime::date::new(2024, 3, 5).unwrap();
    assert_eq!(d.strftime("%Y-%m-%d"), "2024-03-05");
    assert_eq!(d.strftime("%B"), "March");
    assert_eq!(d.strftime("%b"), "Mar");
    let t = stdpython::datetime::time::new(9, 30, Some(5), None).unwrap();
    assert_eq!(t.strftime("%H:%M:%S"), "09:30:05");
}

#[test]
fn test_purepath_parent_family() {
    let p = stdpython::PurePath::new("/home/user/file.txt");
    assert_eq!(p.parent().as_posix(), "/home/user");
    assert_eq!(p.parent().parent().as_posix(), "/home");
    assert_eq!(stdpython::PurePath::new("/home").parent().as_posix(), "/");
    assert_eq!(stdpython::PurePath::new("/").parent().as_posix(), "");
    assert_eq!(stdpython::PurePath::new("file").parent().as_posix(), "");

    let ancestors = p.parents();
    let texts: Vec<String> = ancestors.iter().map(|a| a.as_posix()).collect();
    assert_eq!(texts, vec!["/home/user", "/home", "/"]);
    assert!(stdpython::PurePath::new("").parents().is_empty());

    assert_eq!(p.with_name("notes.md").as_posix(), "/home/user/notes.md");
    assert_eq!(stdpython::PurePath::new("file").with_name("x").as_posix(), "x");
    assert_eq!(stdpython::PurePath::new("/a").with_name("b").as_posix(), "/b");

    let q = stdpython::PurePath::new("dir/archive.tar.gz");
    assert_eq!(q.with_suffix(".zip").as_posix(), "dir/archive.tar.zip");
    assert_eq!(q.with_suffix("zip").as_posix(), "dir/archive.tar.zip");
    assert_eq!(q.with_suffix("").as_posix(), "dir/archive.tar");
}

#[test]
fn test_isocalendar() {
    let d = date::new(2024, 1, 1).unwrap();
    let (y, week, wd) = d.isocalendar();
    assert_eq!(y, 2024);
    assert!(week >= 1);
    assert_eq!(wd, d.isoweekday());
}

#[test]
fn test_chainmap_values() {
    let mut cm: stdpython::collections::ChainMap<i64> = stdpython::collections::ChainMap::empty();
    cm.insert("a".to_string(), 1);
    cm.new_child(vec![("a".to_string(), 10), ("b".to_string(), 2)]);
    let mut vals = cm.values();
    vals.sort();
    // the front layer's binding of "a" wins
    assert_eq!(vals, vec![2, 10]);
}

#[test]
fn test_defaultdict_list_constructors() {
    let dd = stdpython::collections::defaultdict_list();
    assert_eq!(dd.len(), 0);
    let dd2 = stdpython::collections::defaultdict_list_wrapper();
    assert_eq!(dd2.len(), dd.len());
}
