//! Where the settings files live.

use vstd::prelude::*;
use vstd::string::StrSliceExecFns;

use crate::text::string_from_chars;

verus! {

/// The separator that the platform puts between the parts of a path
/// (`std::path::MAIN_SEPARATOR`): `/`, or `\` on Windows.
#[verifier::external_body]
fn main_separator() -> (c: char)
    ensures
        c == '/' || c == '\\',
{
    std::path::MAIN_SEPARATOR
}

/// `c` ends a path part on a platform whose separator is `sep`: `/` always
/// does, and so does `sep`.
pub open spec fn is_separator(c: char, sep: char) -> bool {
    c == '/' || c == sep
}

/// The path `name` inside the directory `base`: a separator goes between
/// them, unless `base` is empty or already ends with one.
pub open spec fn path_join(base: Seq<char>, name: Seq<char>, sep: char) -> Seq<char> {
    if base.len() == 0 || is_separator(base.last(), sep) {
        base + name
    } else {
        base + seq![sep] + name
    }
}

/// The path `name` inside the directory `base`.
fn join(base: &str, name: &str) -> (p: String)
    ensures
        exists|sep: char| (sep == '/' || sep == '\\') && p@ == path_join(base@, name@, sep),
{
    let sep = main_separator();
    let mut chars: Vec<char> = Vec::new();
    let n = base.unicode_len();
    let mut i: usize = 0;
    while i < n
        invariant
            n == base@.len(),
            i <= n,
            chars@ == base@.take(i as int),
        decreases n - i,
    {
        chars.push(base.get_char(i));
        i = i + 1;
        assert(chars@ =~= base@.take(i as int));
    }
    assert(base@.take(n as int) =~= base@);
    if n > 0 {
        let last = base.get_char(n - 1);
        if !(last == '/' || last == sep) {
            chars.push(sep);
        }
    }
    let ghost head = chars@;
    let m = name.unicode_len();
    let mut j: usize = 0;
    while j < m
        invariant
            m == name@.len(),
            j <= m,
            chars@ == head + name@.take(j as int),
        decreases m - j,
    {
        chars.push(name.get_char(j));
        j = j + 1;
        assert(chars@ =~= head + name@.take(j as int));
    }
    assert(name@.take(m as int) =~= name@);
    assert(chars@ =~= path_join(base@, name@, sep));
    string_from_chars(&chars)
}

/// The directory `base`, or the working directory `.` where there is none.
pub open spec fn base_or_working(base: Option<&str>) -> Seq<char> {
    match base {
        Some(b) => b@,
        None => "."@,
    }
}

/// The settings directory: `DecLimiter` inside the platform's configuration
/// directory `base` (`%APPDATA%` on Windows, `~/.config` elsewhere), or
/// inside the working directory where the platform has none.
pub fn config_dir(base: Option<&str>) -> (p: String)
    ensures
        exists|sep: char|
            (sep == '/' || sep == '\\') && p@ == path_join(base_or_working(base), "DecLimiter"@, sep),
{
    let p = match base {
        Some(b) => join(b, "DecLimiter"),
        None => join(".", "DecLimiter"),
    };
    proof {
        let sep = choose|sep: char|
            (sep == '/' || sep == '\\') && p@ == path_join(base_or_working(base), "DecLimiter"@, sep);
        assert((sep == '/' || sep == '\\') && p@ == path_join(base_or_working(base), "DecLimiter"@, sep));
    }
    p
}

/// The file of the overall settings, in the settings directory `dir`.
pub fn config_path(dir: &str) -> (p: String)
    ensures
        exists|sep: char| (sep == '/' || sep == '\\') && p@ == path_join(dir@, "config.json"@, sep),
{
    join(dir, "config.json")
}

/// The file of the saved limits, in the settings directory `dir`.
pub fn processes_path(dir: &str) -> (p: String)
    ensures
        exists|sep: char| (sep == '/' || sep == '\\') && p@ == path_join(dir@, "processes.json"@, sep),
{
    join(dir, "processes.json")
}

} // verus!
