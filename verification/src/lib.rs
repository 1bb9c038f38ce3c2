//! A Python-flavoured runtime library: built-in functions, polymorphic
//! container types and standard-library modules, written against capability
//! traits so that one generic implementation serves many concrete call-site
//! types, with concrete-typed wrapper companions for generated callers.
#![allow(non_camel_case_types)]
#![allow(non_snake_case)]

pub mod assoc;
pub mod builtins;
pub mod caps;
pub mod collections;
pub mod datetime;
pub mod exceptions;
pub mod glob;
pub mod itertools;
pub mod json;
pub mod numstr;
pub mod os;
pub mod pathlib;
pub mod pydict;
pub mod pylist;
pub mod pyset;
pub mod pystr;
pub mod random;
pub mod python_signature;
pub mod pytuple;
pub mod string;
pub mod strutil;
pub mod subprocess;
pub mod sysconfig;
pub mod venv;

pub use builtins::abs;
pub use builtins::all;
pub use builtins::any;
pub use builtins::bool;
pub use builtins::ensure_venv_ready;
pub use builtins::enumerate;
pub use builtins::enumerate_slice;
pub use builtins::format_string;
pub use builtins::to_int;
pub use builtins::len;
pub use builtins::list_contains;
pub use builtins::max;
pub use builtins::min;
pub use builtins::multiply_list;
pub use builtins::multiply_string;
pub use builtins::print_args_to_string;
pub use builtins::print_to_string;
pub use builtins::py_list;
pub use builtins::py_tuple;
pub use builtins::range;
pub use builtins::range_flexible;
pub use builtins::range_start_stop;
pub use builtins::range_start_stop_step;
pub use builtins::slice;
pub use builtins::str;
pub use builtins::string_contains;
pub use builtins::sum;
pub use builtins::zip;
pub use builtins::zip_slices;
pub use caps::AsArgList;
pub use caps::AsPathLike;
pub use caps::AsStrLike;
pub use caps::IntoOwnedString;
pub use caps::Len;
pub use caps::PyAbs;
pub use caps::PyBool;
pub use caps::PyInt;
pub use caps::PySum;
pub use caps::PyToString;
pub use caps::Truthy;
pub use exceptions::PyException;
pub use collections::Counter;
pub use collections::deque;
pub use collections::defaultdict;
pub use collections::OrderedDict;
pub use collections::ChainMap;
pub use itertools::Count;
pub use itertools::Cycle;
pub use itertools::Repeat;
pub use itertools::Chain;
pub use itertools::ISlice;
pub use itertools::Compress;
pub use json::JSONValue;
pub use json::JSONEncoder;
pub use json::JSONDecoder;
pub use string::Template;
pub use string::Formatter;
pub use subprocess::CompletedProcess;
pub use venv::EnvBuilder;
pub use random::LCGRandom;
pub use random::SystemRandom;

pub use exceptions::attribute_error;
pub use exceptions::index_error;
pub use exceptions::key_error;
pub use exceptions::name_error;
pub use exceptions::overflow_error;
pub use exceptions::runtime_error;
pub use exceptions::type_error;
pub use exceptions::value_error;
pub use pathlib::PurePath;
pub use pydict::PyDictionary;
pub use pydict::dict;
pub use pydict::dict_from_pairs;
pub use pydict::py_dict;
pub use pylist::PyList;
pub use pyset::PySet;
pub use pyset::py_set;
pub use pystr::PyStr;
pub use python_signature::PythonFunctionRegistry;
pub use pytuple::PyTuple;
pub use exceptions::zero_division_error;
