//! Static-asset helpers of the web front end that are plain logic: mapping a
//! file path to its content type.

use vstd::prelude::*;
use crate::util::str_eq;

verus! {

/// The position right after the last dot of `s` within the first `i`
/// characters, or -1 when there is none.
pub open spec fn ext_start(s: Seq<char>, i: int) -> int
    decreases i,
{
    if i <= 0 {
        -1
    } else if s[i - 1] == '.' {
        i
    } else {
        ext_start(s, i - 1)
    }
}

/// The extension of a path: what follows the last dot, empty without one.
pub open spec fn spec_extension(s: Seq<char>) -> Seq<char> {
    if ext_start(s, s.len() as int) < 0 {
        Seq::empty()
    } else {
        s.skip(ext_start(s, s.len() as int))
    }
}

/// The content type served for an extension.
pub open spec fn spec_content_type(ext: Seq<char>) -> Seq<char> {
    if ext == "js"@ {
        "application/javascript"@
    } else if ext == "css"@ {
        "text/css"@
    } else if ext == "html"@ {
        "text/html"@
    } else if ext == "json"@ {
        "application/json"@
    } else if ext == "png"@ {
        "image/png"@
    } else if ext == "jpg"@ || ext == "jpeg"@ {
        "image/jpeg"@
    } else if ext == "svg"@ {
        "image/svg+xml"@
    } else if ext == "ico"@ {
        "image/x-icon"@
    } else if ext == "woff"@ {
        "font/woff"@
    } else if ext == "woff2"@ {
        "font/woff2"@
    } else if ext == "ttf"@ {
        "font/ttf"@
    } else {
        "text/plain"@
    }
}

/// The extension of a path, as a slice of it.
pub fn extension_of(path: &str) -> (r: &str)
    ensures
        r@ == spec_extension(path@),
{
    let n = path.unicode_len();
    let mut i: usize = n;
    while i > 0
        invariant
            i <= n,
            n == path@.len(),
            ext_start(path@, n as int) == ext_start(path@, i as int),
        decreases i,
    {
        if path.get_char(i - 1) == '.' {
            let r = path.substring_char(i, n);
            proof {
                assert(ext_start(path@, i as int) == i as int);
                assert(r@ =~= spec_extension(path@));
            }
            return r;
        }
        i = i - 1;
    }
    proof {
        assert(ext_start(path@, 0int) == -1);
        assert(spec_extension(path@) =~= Seq::<char>::empty());
    }
    let r = path.substring_char(0, 0);
    proof {
        assert(r@ =~= spec_extension(path@));
    }
    r
}

/// The content type a static file is served with, decided by its extension.
pub fn get_content_type(path: &str) -> (r: &'static str)
    ensures
        r@ == spec_content_type(spec_extension(path@)),
{
    let ext = extension_of(path);
    if str_eq(ext, "js") {
        "application/javascript"
    } else if str_eq(ext, "css") {
        "text/css"
    } else if str_eq(ext, "html") {
        "text/html"
    } else if str_eq(ext, "json") {
        "application/json"
    } else if str_eq(ext, "png") {
        "image/png"
    } else if str_eq(ext, "jpg") || str_eq(ext, "jpeg") {
        "image/jpeg"
    } else if str_eq(ext, "svg") {
        "image/svg+xml"
    } else if str_eq(ext, "ico") {
        "image/x-icon"
    } else if str_eq(ext, "woff") {
        "font/woff"
    } else if str_eq(ext, "woff2") {
        "font/woff2"
    } else if str_eq(ext, "ttf") {
        "font/ttf"
    } else {
        "text/plain"
    }
}

} // verus!
