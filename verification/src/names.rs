//! File names: stems and extensions.

use crate::text::{chars_of, is_text, part, string_of};
use crate::unicode::{lowercase, lowercase_of};
use vstd::prelude::*;

verus! {

/// The place of the last `.` before `n`, where there is one.
pub open spec fn last_dot(s: Seq<char>, n: int) -> Option<int>
    decreases n,
{
    if n <= 0 || n > s.len() {
        None
    } else if s[n - 1] == '.' {
        Some(n - 1)
    } else {
        last_dot(s, n - 1)
    }
}

/// The place of the `.` that sets off the extension of a file name: the last one, unless the name
/// has no other character before it.
pub open spec fn dot_of(name: Seq<char>) -> Option<int> {
    match last_dot(name, name.len() as int) {
        Some(i) => if i == 0 || name == ".."@ {
            None
        } else {
            Some(i)
        },
        None => None,
    }
}

/// A file name up to its extension.
pub open spec fn stem_of(name: Seq<char>) -> Seq<char> {
    match dot_of(name) {
        Some(i) => name.take(i),
        None => name,
    }
}

/// What follows the last `.` of a file name, as it is written.
pub open spec fn raw_extension(name: Seq<char>) -> Option<Seq<char>> {
    match dot_of(name) {
        Some(i) => Some(name.skip(i + 1)),
        None => None,
    }
}

/// The extension of a file name, in lower case.
pub open spec fn extension_of(name: Seq<char>) -> Option<Seq<char>> {
    match raw_extension(name) {
        Some(e) => Some(lowercase_of(e)),
        None => None,
    }
}

/// `last_dot` is the last place below `n` that holds a `.`.
pub proof fn lemma_last_dot(s: Seq<char>, n: int)
    requires
        0 <= n <= s.len(),
    ensures
        match last_dot(s, n) {
            Some(i) => 0 <= i < n && s[i] == '.' && forall|k: int| i < k < n ==> #[trigger] s[k] != '.',
            None => forall|k: int| 0 <= k < n ==> #[trigger] s[k] != '.',
        },
    decreases n,
{
    if n > 0 && s[n - 1] != '.' {
        lemma_last_dot(s, n - 1);
    }
}

/// A file name with an extension is its stem, a `.` and that extension.
pub proof fn law_name_has_two_parts(name: Seq<char>)
    ensures
        match raw_extension(name) {
            Some(e) => name == stem_of(name).push('.') + e,
            None => name == stem_of(name),
        },
{
    lemma_last_dot(name, name.len() as int);
    if let Some(i) = dot_of(name) {
        assert(name =~= name.take(i).push('.') + name.skip(i + 1));
    }
}

fn find_dot(s: &[char]) -> (r: Option<usize>)
    ensures
        match r {
            Some(i) => dot_of(s@) == Some(i as int) && i < s@.len(),
            None => dot_of(s@) is None,
        },
{
    let mut n: usize = s.len();
    while n > 0 && s[n - 1] != '.'
        invariant
            n <= s@.len(),
            last_dot(s@, s@.len() as int) == last_dot(s@, n as int),
        decreases n,
    {
        n = n - 1;
    }
    if n <= 1 || is_text(s, "..") {
        None
    } else {
        Some(n - 1)
    }
}

/// The extension of a file name in lower case, where the name has one.
pub fn extension(name: &str) -> (r: Option<String>)
    ensures
        crate::preset::opt_view(r) == extension_of(name@),
{
    let s = chars_of(name);
    let n: usize = s.len();
    match find_dot(&s) {
        Some(i) => {
            let e = part(&s, i + 1, n);
            assert(e@ == name@.skip(i + 1));
            Some(lowercase(string_of(e).as_str()))
        },
        None => None,
    }
}

/// A file name up to its extension.
pub fn stem(name: &str) -> (r: String)
    ensures
        r@ == stem_of(name@),
{
    let s = chars_of(name);
    match find_dot(&s) {
        Some(i) => {
            let t = part(&s, 0, i);
            assert(t@ == name@.take(i as int));
            string_of(t)
        },
        None => string_of(&s),
    }
}

/// What follows the last `.` of a file name, as it is written, where the name has an extension.
pub fn written_extension(name: &str) -> (r: Option<String>)
    ensures
        crate::preset::opt_view(r) == raw_extension(name@),
{
    let s = chars_of(name);
    let n: usize = s.len();
    match find_dot(&s) {
        Some(i) => {
            let e = part(&s, i + 1, n);
            assert(e@ == name@.skip(i + 1));
            Some(string_of(e))
        },
        None => None,
    }
}

/// A name that is put together is taken apart again: what follows the last dot is the extension, and what comes
/// before it the stem.
pub proof fn law_name_is_taken_apart(stem: Seq<char>, ext: Seq<char>)
    requires
        stem.len() > 0,
        !ext.contains('.'),
        stem.push('.') + ext != ".."@,
    ensures
        raw_extension(stem.push('.') + ext) == Some(ext),
        stem_of(stem.push('.') + ext) == stem,
{
    let name = stem.push('.') + ext;
    let n = stem.len() as int;
    lemma_last_dot(name, name.len() as int);
    assert(name[n] == '.');
    assert forall|k: int| n < k < name.len() implies #[trigger] name[k] != '.' by {
        assert(name[k] == ext[k - n - 1]);
        assert(ext.contains(ext[k - n - 1]));
    }
    assert(last_dot(name, name.len() as int) == Some(n));
    assert(name.take(n) =~= stem);
    assert(name.skip(n + 1) =~= ext);
}

/// A name without a dot has no extension.
pub proof fn law_name_without_dot_is_a_stem(name: Seq<char>)
    requires
        !name.contains('.'),
    ensures
        raw_extension(name) is None,
        stem_of(name) == name,
{
    lemma_last_dot(name, name.len() as int);
    if let Some(i) = last_dot(name, name.len() as int) {
        assert(name.contains(name[i]));
    }
}

} // verus!
