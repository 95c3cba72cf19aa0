//! What the library tells git, and what it takes from git's answers.

use vstd::prelude::*;
use vstd::string::StringExecFns;
use crate::text::{chars_of, int_decimal, push_int_decimal, string_of_range};

verus! {

/// The arguments of `git log` for the commits of `user` in `year`, with dates
/// in RFC 2822 form.
pub open spec fn git_log_arguments_of(year: int, user: Seq<char>) -> Seq<Seq<char>> {
    seq![
        "log"@,
        "--since"@,
        int_decimal(year) + "-01-01"@,
        "--until"@,
        int_decimal(year) + "-12-31"@,
        "--author"@,
        user,
        "--date"@,
        "rfc"@,
    ]
}

/// The character sequences of a sequence of strings.
pub open spec fn string_views(v: Seq<String>) -> Seq<Seq<char>> {
    v.map_values(|s: String| s@)
}

/// The arguments of `git log` for the commits of `user` in `year`.
pub fn get_git_log_arguments(year: i32, user: &String) -> (r: Vec<String>)
    ensures
        string_views(r@) == git_log_arguments_of(year as int, user@),
{
    let mut since = String::new();
    push_int_decimal(&mut since, year as i64);
    since.append("-01-01");
    let mut until = String::new();
    push_int_decimal(&mut until, year as i64);
    until.append("-12-31");
    let mut r: Vec<String> = Vec::new();
    r.push(String::from_str("log"));
    r.push(String::from_str("--since"));
    r.push(since);
    r.push(String::from_str("--until"));
    r.push(until);
    r.push(String::from_str("--author"));
    r.push(user.clone());
    r.push(String::from_str("--date"));
    r.push(String::from_str("rfc"));
    assert(string_views(r@) =~= git_log_arguments_of(year as int, user@));
    r
}

/// The name of git's directory inside a repository.
pub open spec fn git_dir_name() -> Seq<char> {
    seq!['.', 'g', 'i', 't']
}

/// Whether a directory entry named `file_name` is a repository's git directory.
pub fn is_git_directory(file_name: &str) -> (r: bool)
    ensures
        r == (file_name@ == git_dir_name()),
{
    let v = chars_of(file_name);
    if v.len() != 4 {
        return false;
    }
    let r = v[0] == '.' && v[1] == 'g' && v[2] == 'i' && v[3] == 't';
    assert(r ==> v@ =~= git_dir_name());
    r
}

/// `s` without one line ending (`\n` or `\r\n`) at its end.
pub open spec fn without_line_end(s: Seq<char>) -> Seq<char> {
    if s.len() >= 2 && s[s.len() - 2] == '\r' && s.last() == '\n' {
        s.subrange(0, s.len() - 2)
    } else if s.len() >= 1 && s.last() == '\n' {
        s.drop_last()
    } else {
        s
    }
}

/// `s` without a `.git` suffix.
pub open spec fn without_git_suffix(s: Seq<char>) -> Seq<char> {
    if s.len() >= 4 && s.subrange(s.len() - 4, s.len() as int) == git_dir_name() {
        s.subrange(0, s.len() - 4)
    } else {
        s
    }
}

/// The repository URL that `git remote get-url origin` printed as `output`:
/// without the line ending, then without a `.git` suffix.
pub fn repository_url_from_output(output: &str) -> (r: String)
    ensures
        r@ == without_git_suffix(without_line_end(output@)),
{
    let v = chars_of(output);
    let mut n: usize = v.len();
    if n >= 2 && v[n - 2] == '\r' && v[n - 1] == '\n' {
        n = n - 2;
    } else if n >= 1 && v[n - 1] == '\n' {
        n = n - 1;
    }
    let ghost a = v@.subrange(0, n as int);
    assert(a == without_line_end(output@));
    if n >= 4 && v[n - 4] == '.' && v[n - 3] == 'g' && v[n - 2] == 'i' && v[n - 1] == 't' {
        assert(a.subrange(a.len() - 4, a.len() as int) =~= git_dir_name());
        assert(a.subrange(0, a.len() - 4) =~= v@.subrange(0, n - 4));
        n = n - 4;
    } else {
        assert(!(a.len() >= 4 && a.subrange(a.len() - 4, a.len() as int) == git_dir_name())) by {
            if a.len() >= 4 && a.subrange(a.len() - 4, a.len() as int) == git_dir_name() {
                assert(a.subrange(a.len() - 4, a.len() as int)[0] == v@[n - 4]);
                assert(a.subrange(a.len() - 4, a.len() as int)[1] == v@[n - 3]);
                assert(a.subrange(a.len() - 4, a.len() as int)[2] == v@[n - 2]);
                assert(a.subrange(a.len() - 4, a.len() as int)[3] == v@[n - 1]);
            }
        }
    }
    string_of_range(&v, 0, n)
}

} // verus!
