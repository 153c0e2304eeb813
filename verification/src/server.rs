//! What the static file server decides: which file a request path names, and the content type
//! it is sent with.
use vstd::prelude::*;
use vstd::string::{StrSliceExecFns, StringExecFns};
use crate::text::{chars_of, string_of};

verus! {

/// `s` ends with `suffix`.
pub open spec fn has_suffix(s: Seq<char>, suffix: Seq<char>) -> bool {
    s.len() >= suffix.len() && s.subrange(s.len() - suffix.len(), s.len() as int) == suffix
}

/// Whether `s` ends with `suffix`.
pub fn ends_with(s: &str, suffix: &str) -> (r: bool)
    ensures
        r == has_suffix(s@, suffix@),
{
    let n = s.unicode_len();
    let k = suffix.unicode_len();
    if n < k {
        return false;
    }
    let mut i: usize = 0;
    while i < k
        invariant
            n == s@.len(),
            k == suffix@.len(),
            k <= n,
            i <= k,
            forall|j: int| 0 <= j < i ==> s@[n - k + j] == suffix@[j],
        decreases k - i,
    {
        if s.get_char(n - k + i) != suffix.get_char(i) {
            assert(s@.subrange(n - k, n as int)[i as int] != suffix@[i as int]);
            return false;
        }
        i = i + 1;
    }
    assert(s@.subrange(n - k, n as int) =~= suffix@);
    true
}

/// The content type of a file, by its extension.
pub open spec fn mime_of(path: Seq<char>) -> Seq<char> {
    if has_suffix(path, ".html"@) {
        "text/html; charset=utf-8"@
    } else if has_suffix(path, ".css"@) {
        "text/css; charset=utf-8"@
    } else if has_suffix(path, ".js"@) {
        "application/javascript; charset=utf-8"@
    } else if has_suffix(path, ".wasm"@) {
        "application/wasm"@
    } else if has_suffix(path, ".svg"@) {
        "image/svg+xml"@
    } else {
        "application/octet-stream"@
    }
}

/// The content type a file is served with.
pub fn mime_type(path: &str) -> (r: &'static str)
    ensures
        r@ == mime_of(path@),
{
    if ends_with(path, ".html") {
        "text/html; charset=utf-8"
    } else if ends_with(path, ".css") {
        "text/css; charset=utf-8"
    } else if ends_with(path, ".js") {
        "application/javascript; charset=utf-8"
    } else if ends_with(path, ".wasm") {
        "application/wasm"
    } else if ends_with(path, ".svg") {
        "image/svg+xml"
    } else {
        "application/octet-stream"
    }
}

/// The file a request path names: "index.html" for the root, else the path without its
/// leading character.
pub open spec fn requested(path: Seq<char>) -> Seq<char> {
    if path == "/"@ || path.len() == 0 {
        "index.html"@
    } else {
        path.drop_first()
    }
}

/// The file, relative to the served directory, that a request path names.
pub fn requested_file(path: &str) -> (r: String)
    requires
        path@.len() == 0 || (path@[0] as int) < 128,
    ensures
        r@ == requested(path@),
{
    let cs = chars_of(path);
    if cs.len() == 0 || (cs.len() == 1 && cs[0] == '/') {
        proof {
            if cs.len() == 1 {
                reveal_strlit("/");
                assert(path@ =~= "/"@);
            }
        }
        return String::from_str("index.html");
    }
    proof {
        reveal_strlit("/");
        if path@ == "/"@ {
            assert(path@.len() == 1);
        }
    }
    let mut rest: Vec<char> = Vec::new();
    let mut i: usize = 1;
    while i < cs.len()
        invariant
            cs@ == path@,
            1 <= i <= cs@.len(),
            rest@ == cs@.subrange(1, i as int),
        decreases cs@.len() - i,
    {
        rest.push(cs[i]);
        i = i + 1;
        assert(rest@ =~= cs@.subrange(1, i as int));
    }
    assert(cs@.subrange(1, cs@.len() as int) =~= path@.drop_first());
    string_of(&rest)
}

} // verus!
