//! Build-configuration introspection: a fixed table of configuration
//! variables and installation paths describing the simulated interpreter.

use vstd::prelude::*;
use crate::exceptions::PyException;
use crate::exceptions::key_error;
use crate::strutil::chars_eq;
use crate::strutil::str_to_chars;

verus! {

/// Whether a path name is one the table knows.
pub open spec fn known_path(name: Seq<char>) -> bool {
    name == "stdlib"@ || name == "platstdlib"@ || name == "purelib"@ || name == "platlib"@
        || name == "include"@ || name == "data"@ || name == "scripts"@
}

/// The path bound to a known name.
pub open spec fn path_of(name: Seq<char>) -> Seq<char> {
    if name == "stdlib"@ || name == "platstdlib"@ {
        "/usr/local/lib/python3.11"@
    } else if name == "purelib"@ || name == "platlib"@ {
        "/usr/local/lib/python3.11/site-packages"@
    } else if name == "include"@ {
        "/usr/local/include/python3.11"@
    } else if name == "data"@ {
        "/usr/local"@
    } else {
        "/usr/local/bin"@
    }
}

/// The installation path bound to a name; an unknown name is a key error.
pub fn get_path<N: crate::caps::AsStrLike>(name: N) -> (r: Result<String, PyException>)
    ensures
        match r {
            Ok(p) => known_path(name.str_view()) && p@ == path_of(name.str_view()),
            Err(e) => !known_path(name.str_view()) && e.exception_type@ == "KeyError"@,
        },
{
    let n = str_to_chars(name.as_str_like());
    let stdlib_c = str_to_chars("stdlib");
    let platstdlib_c = str_to_chars("platstdlib");
    let purelib_c = str_to_chars("purelib");
    let platlib_c = str_to_chars("platlib");
    let include_c = str_to_chars("include");
    let data_c = str_to_chars("data");
    let scripts_c = str_to_chars("scripts");
    if chars_eq(&n, &stdlib_c) || chars_eq(&n, &platstdlib_c) {
        Ok("/usr/local/lib/python3.11".to_owned())
    } else if chars_eq(&n, &purelib_c) || chars_eq(&n, &platlib_c) {
        Ok("/usr/local/lib/python3.11/site-packages".to_owned())
    } else if chars_eq(&n, &include_c) {
        Ok("/usr/local/include/python3.11".to_owned())
    } else if chars_eq(&n, &data_c) {
        Ok("/usr/local".to_owned())
    } else if chars_eq(&n, &scripts_c) {
        Ok("/usr/local/bin".to_owned())
    } else {
        Err(key_error("Unknown path name"))
    }
}

/// Every known installation path, name and path pairs.
pub fn get_paths() -> (r: Vec<(String, String)>)
    ensures
        r@.len() == 7,
        forall|i: int| 0 <= i < r@.len()
            ==> known_path((#[trigger] r@[i]).0@) && r@[i].1@ == path_of(r@[i].0@),
{
    let mut out: Vec<(String, String)> = Vec::new();
    out.push(("stdlib".to_owned(), "/usr/local/lib/python3.11".to_owned()));
    out.push(("platstdlib".to_owned(), "/usr/local/lib/python3.11".to_owned()));
    out.push(("purelib".to_owned(), "/usr/local/lib/python3.11/site-packages".to_owned()));
    out.push(("platlib".to_owned(), "/usr/local/lib/python3.11/site-packages".to_owned()));
    out.push(("include".to_owned(), "/usr/local/include/python3.11".to_owned()));
    out.push(("data".to_owned(), "/usr/local".to_owned()));
    out.push(("scripts".to_owned(), "/usr/local/bin".to_owned()));
    proof {
        reveal_strlit("stdlib");
        reveal_strlit("platstdlib");
        reveal_strlit("purelib");
        reveal_strlit("platlib");
        reveal_strlit("include");
        reveal_strlit("data");
        reveal_strlit("scripts");
        assert(out@[0].0@ == "stdlib"@ && out@[0].1@ == "/usr/local/lib/python3.11"@);
        assert(out@[1].0@ == "platstdlib"@ && out@[1].1@ == "/usr/local/lib/python3.11"@);
        assert(out@[2].0@ == "purelib"@
            && out@[2].1@ == "/usr/local/lib/python3.11/site-packages"@);
        assert(out@[3].0@ == "platlib"@
            && out@[3].1@ == "/usr/local/lib/python3.11/site-packages"@);
        assert(out@[4].0@ == "include"@ && out@[4].1@ == "/usr/local/include/python3.11"@);
        assert(out@[5].0@ == "data"@ && out@[5].1@ == "/usr/local"@);
        assert(out@[6].0@ == "scripts"@ && out@[6].1@ == "/usr/local/bin"@);
        assert("purelib"@[0] == 'p' && "platlib"@[0] == 'p' && "include"@[0] == 'i'
            && "scripts"@[0] == 's' && "stdlib"@[0] == 's' && "data"@[0] == 'd'
            && "platstdlib"@[0] == 'p');
        assert("scripts"@[1] == 'c' && "stdlib"@[1] == 't' && "platlib"@[1] == 'l'
            && "purelib"@[1] == 'u' && "platstdlib"@[1] == 'l');
        assert(path_of("stdlib"@) == "/usr/local/lib/python3.11"@);
        assert(path_of("platstdlib"@) == "/usr/local/lib/python3.11"@);
        assert(path_of("purelib"@) == "/usr/local/lib/python3.11/site-packages"@);
        assert(path_of("platlib"@) == "/usr/local/lib/python3.11/site-packages"@);
        assert(path_of("include"@) == "/usr/local/include/python3.11"@);
        assert(path_of("data"@) == "/usr/local"@);
        assert(path_of("scripts"@) == "/usr/local/bin"@);
        assert forall|i: int| 0 <= i < out@.len()
            implies known_path((#[trigger] out@[i]).0@) && out@[i].1@ == path_of(out@[i].0@) by {
            if i == 0 || i == 1 {
                assert(out@[i].0@ == "stdlib"@ || out@[i].0@ == "platstdlib"@);
            } else if i == 2 || i == 3 {
                assert(out@[i].0@ == "purelib"@ || out@[i].0@ == "platlib"@);
            } else if i == 4 {
                assert(out@[i].0@ == "include"@);
            } else if i == 5 {
                assert(out@[i].0@ == "data"@);
            } else {
                assert(out@[i].0@ == "scripts"@);
            }
        }
    }
    out
}

/// The basic configuration variables of the simulated build.
pub fn get_config_vars() -> (r: Vec<(String, String)>)
    ensures
        r@.len() == 14,
        r@[0].0@ == "LIBDIR"@ && r@[0].1@ == "/usr/local/lib"@,
        r@[2].0@ == "SO"@ && r@[2].1@ == ".so"@,
        r@[4].0@ == "CC"@ && r@[4].1@ == "gcc"@,
{
    let mut out: Vec<(String, String)> = Vec::new();
    out.push(("LIBDIR".to_owned(), "/usr/local/lib".to_owned()));
    out.push(("INCLUDEDIR".to_owned(), "/usr/local/include".to_owned()));
    out.push(("SO".to_owned(), ".so".to_owned()));
    out.push(("EXT_SUFFIX".to_owned(), ".so".to_owned()));
    out.push(("CC".to_owned(), "gcc".to_owned()));
    out.push(("CXX".to_owned(), "g++".to_owned()));
    out.push(("OPT".to_owned(), "-DNDEBUG -g -fwrapv -O3 -Wall".to_owned()));
    out.push(("CFLAGS".to_owned(), "-Wno-unused-result -Wsign-compare".to_owned()));
    out.push(("CCSHARED".to_owned(), "-fPIC".to_owned()));
    out.push(("LDSHARED".to_owned(), "gcc -shared".to_owned()));
    out.push(("SHLIB_SUFFIX".to_owned(), ".so".to_owned()));
    out.push(("AR".to_owned(), "ar".to_owned()));
    out.push(("ARFLAGS".to_owned(), "rcs".to_owned()));
    out.push(("LINKFORSHARED".to_owned(), "-Xlinker -export-dynamic".to_owned()));
    out
}

/// Whether a configuration variable is one the table knows.
pub open spec fn known_config(name: Seq<char>) -> bool {
    name == "LIBDIR"@ || name == "INCLUDEDIR"@ || name == "SO"@ || name == "EXT_SUFFIX"@
        || name == "CC"@ || name == "CXX"@ || name == "OPT"@ || name == "CFLAGS"@
        || name == "CCSHARED"@ || name == "LDSHARED"@ || name == "SHLIB_SUFFIX"@
        || name == "AR"@ || name == "ARFLAGS"@ || name == "LINKFORSHARED"@
}

/// The value bound to a known configuration variable.
pub open spec fn config_of(name: Seq<char>) -> Seq<char> {
    if name == "LIBDIR"@ { "/usr/local/lib"@ }
    else if name == "INCLUDEDIR"@ { "/usr/local/include"@ }
    else if name == "SO"@ || name == "EXT_SUFFIX"@ || name == "SHLIB_SUFFIX"@ { ".so"@ }
    else if name == "CC"@ { "gcc"@ }
    else if name == "CXX"@ { "g++"@ }
    else if name == "OPT"@ { "-DNDEBUG -g -fwrapv -O3 -Wall"@ }
    else if name == "CFLAGS"@ { "-Wno-unused-result -Wsign-compare"@ }
    else if name == "CCSHARED"@ { "-fPIC"@ }
    else if name == "LDSHARED"@ { "gcc -shared"@ }
    else if name == "AR"@ { "ar"@ }
    else if name == "ARFLAGS"@ { "rcs"@ }
    else { "-Xlinker -export-dynamic"@ }
}

/// The value of one configuration variable, when the table holds it.
pub fn get_config_var<N: crate::caps::AsStrLike>(name: N) -> (r: Option<String>)
    ensures
        match r {
            Some(v) => known_config(name.str_view()) && v@ == config_of(name.str_view()),
            None => !known_config(name.str_view()),
        },
{
    let n = str_to_chars(name.as_str_like());
    let libdir_c = str_to_chars("LIBDIR");
    let includedir_c = str_to_chars("INCLUDEDIR");
    let so_c = str_to_chars("SO");
    let ext_c = str_to_chars("EXT_SUFFIX");
    let cc_c = str_to_chars("CC");
    let cxx_c = str_to_chars("CXX");
    let opt_c = str_to_chars("OPT");
    let cflags_c = str_to_chars("CFLAGS");
    let ccshared_c = str_to_chars("CCSHARED");
    let ldshared_c = str_to_chars("LDSHARED");
    let shlib_c = str_to_chars("SHLIB_SUFFIX");
    let ar_c = str_to_chars("AR");
    let arflags_c = str_to_chars("ARFLAGS");
    let linkfor_c = str_to_chars("LINKFORSHARED");
    if chars_eq(&n, &libdir_c) {
        Some("/usr/local/lib".to_owned())
    } else if chars_eq(&n, &includedir_c) {
        Some("/usr/local/include".to_owned())
    } else if chars_eq(&n, &so_c) || chars_eq(&n, &ext_c) || chars_eq(&n, &shlib_c) {
        Some(".so".to_owned())
    } else if chars_eq(&n, &cc_c) {
        Some("gcc".to_owned())
    } else if chars_eq(&n, &cxx_c) {
        Some("g++".to_owned())
    } else if chars_eq(&n, &opt_c) {
        Some("-DNDEBUG -g -fwrapv -O3 -Wall".to_owned())
    } else if chars_eq(&n, &cflags_c) {
        Some("-Wno-unused-result -Wsign-compare".to_owned())
    } else if chars_eq(&n, &ccshared_c) {
        Some("-fPIC".to_owned())
    } else if chars_eq(&n, &ldshared_c) {
        Some("gcc -shared".to_owned())
    } else if chars_eq(&n, &ar_c) {
        Some("ar".to_owned())
    } else if chars_eq(&n, &arflags_c) {
        Some("rcs".to_owned())
    } else if chars_eq(&n, &linkfor_c) {
        Some("-Xlinker -export-dynamic".to_owned())
    } else {
        None
    }
}

/// The available installation scheme names.
pub fn get_scheme_names() -> (r: Vec<String>)
    ensures
        r@.len() == 6,
        r@[0]@ == "posix_prefix"@,
        r@[1]@ == "posix_home"@,
        r@[2]@ == "posix_user"@,
        r@[3]@ == "nt"@,
        r@[4]@ == "nt_user"@,
        r@[5]@ == "osx_framework_user"@,
{
    let mut out: Vec<String> = Vec::new();
    out.push("posix_prefix".to_owned());
    out.push("posix_home".to_owned());
    out.push("posix_user".to_owned());
    out.push("nt".to_owned());
    out.push("nt_user".to_owned());
    out.push("osx_framework_user".to_owned());
    out
}

/// Whether this runtime is itself an interpreter build: it never is, being
/// compiled ahead of time.
pub fn is_python_build() -> (r: bool)
    ensures
        r == false,
{
    false
}

/// Concrete-typed companion of `is_python_build` for generated callers: a
/// pure delegating call with the same contract.
pub fn is_python_build_wrapper() -> (r: bool)
    ensures
        r == false,
{
    is_python_build()
}

/// Concrete-typed companion of `is_python_build` for the foreign embedding
/// boundary: a pure delegating call with the same contract.
pub fn is_python_build_py() -> (r: bool)
    ensures
        r == false,
{
    is_python_build()
}

} // verus!
