//! The notes that tell, step by step, how a closure came about.

use vstd::prelude::*;
use crate::paths::base_name;
use crate::paths::file_name;
use crate::text::chars_of;

verus! {

/// Whether `.rs` stands in `s` at position `i`.
pub open spec fn rs_at(s: Seq<char>, i: int) -> bool {
    0 <= i && i + 3 <= s.len() && s[i] == '.' && s[i + 1] == 'r' && s[i + 2] == 's'
}

/// What is left of `s` from position `i` on when every `.rs`, found from
/// left to right, is taken out.
pub open spec fn stripped_from(s: Seq<char>, i: int) -> Seq<char>
    decreases s.len() - i,
{
    if i < 0 || i >= s.len() {
        Seq::empty()
    } else if rs_at(s, i) {
        stripped_from(s, i + 3)
    } else {
        seq![s[i]] + stripped_from(s, i + 1)
    }
}

/// `s` without any `.rs`.
pub open spec fn without_rs(s: Seq<char>) -> Seq<char> {
    stripped_from(s, 0)
}

/// The note for a seed that the user changed.
pub open spec fn modified_text(path: Seq<char>) -> Seq<char> {
    "User actively modified <b>"@ + path + "</b>."@
}

/// The note for a seed that the user created.
pub open spec fn created_text(path: Seq<char>) -> Seq<char> {
    "User created new file <b>"@ + path + "</b>."@
}

/// The note for a file found as a dependency: it names the module by the
/// base name of `child` without `.rs`, and the file that declares it by the
/// base name of `parent`.
pub open spec fn found_text(child: Seq<char>, parent: Seq<char>) -> Seq<char> {
    "Compiler found dependency <code>mod "@ + without_rs(base_name(child)) + "</code> inside <b>"@
        + base_name(parent) + "</b>."@
}

/// Takes every `.rs` out of `s`.
pub fn strip_rs(s: &str) -> (r: String)
    ensures
        r@ == without_rs(s@),
{
    let chars = chars_of(s);
    let n = chars.len();
    let mut out = String::new();
    let mut i: usize = 0;
    while i < n
        invariant
            i <= n,
            n == s@.len(),
            chars@ == s@,
            out@ + stripped_from(s@, i as int) == without_rs(s@),
        decreases n - i,
    {
        let ghost before = out@;
        if n - i >= 3 && chars[i] == '.' && chars[i + 1] == 'r' && chars[i + 2] == 's' {
            i += 3;
        } else {
            out.append(s.substring_char(i, i + 1));
            proof {
                assert(s@.subrange(i as int, i + 1) == seq![s@[i as int]]);
                assert(out@ + stripped_from(s@, i + 1) == before + (seq![s@[i as int]]
                    + stripped_from(s@, i + 1)));
            }
            i += 1;
        }
    }
    proof {
        assert(out@ + Seq::<char>::empty() == out@);
    }
    out
}

/// Writes the note for a seed that the user changed.
pub fn modified_note(path: &str) -> (r: String)
    ensures
        r@ == modified_text(path@),
{
    String::from_str("User actively modified <b>").concat(path).concat("</b>.")
}

/// Writes the note for a seed that the user created.
pub fn created_note(path: &str) -> (r: String)
    ensures
        r@ == created_text(path@),
{
    String::from_str("User created new file <b>").concat(path).concat("</b>.")
}

/// Writes the note for the file `child`, found as a dependency of `parent`.
pub fn found_note(child: &str, parent: &str) -> (r: String)
    ensures
        r@ == found_text(child@, parent@),
{
    let module = strip_rs(file_name(child).as_str());
    let holder = file_name(parent);
    String::from_str("Compiler found dependency <code>mod ").concat(module.as_str()).concat(
        "</code> inside <b>",
    ).concat(holder.as_str()).concat("</b>.")
}

} // verus!
