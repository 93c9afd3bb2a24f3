//! Slash-separated file paths: directory part, base name, extension, and the
//! two places where a declared module may live.

use vstd::prelude::*;
use crate::text::Order;
use crate::text::compare;

verus! {

/// Position just after the last `sep` in `s`, or 0 where `s` holds none.
pub open spec fn after_last(s: Seq<char>, sep: char) -> int
    decreases s.len(),
{
    if s.len() == 0 {
        0
    } else if s.last() == sep {
        s.len() as int
    } else {
        after_last(s.drop_last(), sep)
    }
}

/// The directory part of `p`: everything up to and including the last `/`.
/// Empty where `p` holds no `/`.
pub open spec fn dir_part(p: Seq<char>) -> Seq<char> {
    p.subrange(0, after_last(p, '/'))
}

/// The base name of `p`: what follows the last `/`.
pub open spec fn base_name(p: Seq<char>) -> Seq<char> {
    p.subrange(after_last(p, '/'), p.len() as int)
}

/// The extension of `p`: what follows the last `.` of its base name. A base
/// name without a `.`, one whose only `.` is its first character, and the
/// name `..` have none.
pub open spec fn extension(p: Seq<char>) -> Option<Seq<char>> {
    let b = base_name(p);
    let e = after_last(b, '.');
    if e < 2 || b == ".."@ {
        None
    } else {
        Some(b.subrange(e, b.len() as int))
    }
}

/// Extensions of artifacts that are never packed: images, executables,
/// lockfiles and rendered reports.
pub open spec fn is_denied(ext: Seq<char>) -> bool {
    ext == "png"@ || ext == "exe"@ || ext == "lock"@ || ext == "html"@
}

/// Whether `p` is left out of a packet because of its extension.
pub open spec fn is_excluded(p: Seq<char>) -> bool {
    match extension(p) {
        Some(ext) => is_denied(ext),
        None => false,
    }
}

/// Where module `name`, declared in the file `p`, lives as a sibling file.
pub open spec fn sibling_path(p: Seq<char>, name: Seq<char>) -> Seq<char> {
    dir_part(p) + name + ".rs"@
}

/// Where module `name`, declared in the file `p`, lives as a directory module.
pub open spec fn nested_path(p: Seq<char>, name: Seq<char>) -> Seq<char> {
    dir_part(p) + name + "/mod.rs"@
}

/// A path is its directory part followed by its base name, and the base
/// name holds no `/`.
pub proof fn lemma_path_parts(p: Seq<char>)
    ensures
        dir_part(p) + base_name(p) == p,
        !base_name(p).contains('/'),
{
    lemma_after_last(p, '/');
    let k = after_last(p, '/');
    assert(p.subrange(0, k) + p.subrange(k, p.len() as int) =~= p);
    if base_name(p).contains('/') {
        let i = choose|i: int| 0 <= i < base_name(p).len() && base_name(p)[i] == '/';
        assert(p[k + i] == '/');
    }
}

/// The position after the last `sep` lies within `s`, `sep` stands just
/// before it unless it is 0, and no `sep` follows it.
pub proof fn lemma_after_last(s: Seq<char>, sep: char)
    ensures
        0 <= after_last(s, sep) <= s.len(),
        after_last(s, sep) > 0 ==> s[after_last(s, sep) - 1] == sep,
        forall|i: int| after_last(s, sep) <= i < s.len() ==> s[i] != sep,
    decreases s.len(),
{
    if s.len() > 0 && s.last() != sep {
        let front = s.drop_last();
        lemma_after_last(front, sep);
        assert forall|i: int| after_last(s, sep) <= i < s.len() implies s[i] != sep by {
            if i < front.len() {
                assert(front[i] != sep);
            }
        }
    }
}

/// Counts the characters of `s` and finds the position after its last `sep`.
fn locate(s: &str, sep: char) -> (r: (usize, usize))
    ensures
        r.0 == after_last(s@, sep),
        r.1 == s@.len(),
        r.0 <= r.1,
{
    let total = s.unicode_len();
    let mut start: usize = 0;
    let mut n: usize = 0;
    for c in it: s.chars()
        invariant
            total == s@.len(),
            n == it.index(),
            it.seq() == s@,
            start == after_last(s@.take(n as int), sep),
            start <= n,
    {
        proof {
            assert(s@.take(n + 1).drop_last() == s@.take(n as int));
        }
        n += 1;
        if c == sep {
            start = n;
        }
    }
    proof {
        assert(s@.take(n as int) == s@);
    }
    (start, n)
}

/// The base name of a path.
pub fn file_name(p: &str) -> (r: String)
    ensures
        r@ == base_name(p@),
{
    let (start, n) = locate(p, '/');
    String::from_str(p.substring_char(start, n))
}

/// The directory part of a path, with its trailing `/`.
pub fn directory(p: &str) -> (r: String)
    ensures
        r@ == dir_part(p@),
{
    let (start, _n) = locate(p, '/');
    String::from_str(p.substring_char(0, start))
}

/// The path of module `name` as a sibling of the file `p`.
pub fn sibling_of(p: &str, name: &str) -> (r: String)
    ensures
        r@ == sibling_path(p@, name@),
{
    directory(p).concat(name).concat(".rs")
}

/// The path of module `name` as a directory module beside the file `p`.
pub fn nested_of(p: &str, name: &str) -> (r: String)
    ensures
        r@ == nested_path(p@, name@),
{
    directory(p).concat(name).concat("/mod.rs")
}

/// Whether the extension of `p` marks it as an artifact that is never packed.
pub fn excluded(p: &str) -> (r: bool)
    ensures
        r == is_excluded(p@),
{
    let (start, n) = locate(p, '/');
    let base = p.substring_char(start, n);
    let (e, len) = locate(base, '.');
    if e < 2 || compare(base, "..") == Order::Same {
        return false;
    }
    let ext = base.substring_char(e, len);
    compare(ext, "png") == Order::Same || compare(ext, "exe") == Order::Same || compare(
        ext,
        "lock",
    ) == Order::Same || compare(ext, "html") == Order::Same
}

} // verus!
