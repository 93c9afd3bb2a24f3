//! Picks the seed files out of the listings that version control prints.

use vstd::prelude::*;
use crate::text::chars_of;
use crate::text::texts;

verus! {

/// Whether `c` is white space.
pub open spec fn is_space(c: char) -> bool {
    let n = c as u32;
    (0x09 <= n <= 0x0d) || n == 0x20 || n == 0x85 || n == 0xa0 || n == 0x1680 || (0x2000 <= n
        <= 0x200a) || n == 0x2028 || n == 0x2029 || n == 0x202f || n == 0x205f || n == 0x3000
}

/// Whether `s` holds nothing but white space.
pub open spec fn is_blank(s: Seq<char>) -> bool {
    forall|i: int| 0 <= i < s.len() ==> is_space(#[trigger] s[i])
}

/// Position of the first line feed in `s`, or its length where it has none.
pub open spec fn first_break(s: Seq<char>) -> int
    decreases s.len(),
{
    if s.len() == 0 || s[0] == '\n' {
        0
    } else {
        1 + first_break(s.drop_first())
    }
}

/// `s` without the carriage return at its end, if it has one.
pub open spec fn chomp(s: Seq<char>) -> Seq<char> {
    if s.len() > 0 && s.last() == '\r' {
        s.drop_last()
    } else {
        s
    }
}

/// The lines of a text. A line ends at a line feed, or at a carriage return
/// followed by one; the last line may end with the text instead, and then
/// keeps a carriage return at its end.
pub open spec fn lines(s: Seq<char>) -> Seq<Seq<char>>
    decreases s.len(),
{
    if s.len() == 0 {
        Seq::empty()
    } else {
        let k = first_break(s);
        if 0 <= k < s.len() {
            seq![chomp(s.take(k))] + lines(s.skip(k + 1))
        } else {
            seq![s]
        }
    }
}

/// Those of `items` that are not blank, in the same order.
pub open spec fn without_blank(items: Seq<Seq<char>>) -> Seq<Seq<char>>
    decreases items.len(),
{
    if items.len() == 0 {
        Seq::empty()
    } else {
        let before = without_blank(items.drop_last());
        if is_blank(items.last()) {
            before
        } else {
            before.push(items.last())
        }
    }
}

/// The seeds that a listing of changed files names: each of its lines, or
/// none at all where the listing is blank.
pub open spec fn changed(listing: Seq<char>) -> Option<Seq<Seq<char>>> {
    if is_blank(listing) {
        None
    } else {
        Some(lines(listing))
    }
}

/// The seeds that a listing of untracked files names: its lines that are
/// not blank.
pub open spec fn untracked(listing: Seq<char>) -> Seq<Seq<char>> {
    without_blank(lines(listing))
}

/// The first line feed is where no line feed comes before.
proof fn lemma_first_break(s: Seq<char>, k: int)
    requires
        0 <= k <= s.len(),
        forall|j: int| 0 <= j < k ==> s[j] != '\n',
        k == s.len() || s[k] == '\n',
    ensures
        first_break(s) == k,
    decreases s.len(),
{
    if k > 0 {
        lemma_first_break(s.drop_first(), k - 1);
    }
}

/// Whether `c` is white space.
fn space(c: char) -> (r: bool)
    ensures
        r == is_space(c),
{
    let n = c as u32;
    (0x09 <= n && n <= 0x0d) || n == 0x20 || n == 0x85 || n == 0xa0 || n == 0x1680 || (0x2000 <= n
        && n <= 0x200a) || n == 0x2028 || n == 0x2029 || n == 0x202f || n == 0x205f || n == 0x3000
}

/// Whether `s` holds nothing but white space.
pub fn blank(s: &str) -> (r: bool)
    ensures
        r == is_blank(s@),
{
    let chars = chars_of(s);
    let mut i: usize = 0;
    while i < chars.len()
        invariant
            i <= chars@.len(),
            chars@ == s@,
            forall|j: int| 0 <= j < i ==> is_space(#[trigger] s@[j]),
        decreases chars@.len() - i,
    {
        if !space(chars[i]) {
            return false;
        }
        i += 1;
    }
    true
}

/// Splits a text into its lines.
pub fn lines_of(s: &str) -> (r: Vec<String>)
    ensures
        texts(r@) == lines(s@),
{
    let chars = chars_of(s);
    let n = chars.len();
    let mut out: Vec<String> = Vec::new();
    let mut start: usize = 0;
    let mut i: usize = 0;
    proof {
        assert(s@.skip(0) == s@);
        assert(texts(out@) + lines(s@) == lines(s@));
    }
    while i < n
        invariant
            start <= i <= n,
            n == s@.len(),
            chars@ == s@,
            forall|j: int| start <= j < i ==> s@[j] != '\n',
            texts(out@) + lines(s@.skip(start as int)) == lines(s@),
        decreases n - i,
    {
        if chars[i] == '\n' {
            let end = if i > start && chars[i - 1] == '\r' {
                i - 1
            } else {
                i
            };
            let ghost before = texts(out@);
            let ghost rest = s@.skip(start as int);
            out.push(String::from_str(s.substring_char(start, end)));
            proof {
                let k = i - start;
                lemma_first_break(rest, k);
                assert(rest.take(k) == s@.subrange(start as int, i as int));
                assert(chomp(rest.take(k)) == s@.subrange(start as int, end as int));
                assert(rest.skip(k + 1) == s@.skip(i + 1));
                assert(texts(out@) == before.push(chomp(rest.take(k))));
                assert(texts(out@) + lines(s@.skip(i + 1)) == before + (seq![chomp(rest.take(k))]
                    + lines(s@.skip(i + 1))));
            }
            start = i + 1;
        }
        i += 1;
    }
    if start < n {
        let ghost before = texts(out@);
        let ghost rest = s@.skip(start as int);
        out.push(String::from_str(s.substring_char(start, n)));
        proof {
            lemma_first_break(rest, n - start);
            assert(rest == s@.subrange(start as int, n as int));
            assert(texts(out@) == before.push(rest));
            assert(before + seq![rest] == before.push(rest));
        }
    } else {
        proof {
            assert(texts(out@) + Seq::<Seq<char>>::empty() == texts(out@));
        }
    }
    out
}

/// The seeds named by a listing of changed files: every line of it. `None`
/// where the listing is blank, which is when the untracked files are asked
/// for instead.
pub fn changed_seeds(listing: &str) -> (r: Option<Vec<String>>)
    ensures
        match r {
            Some(seeds) => changed(listing@) == Some(texts(seeds@)),
            None => changed(listing@) is None,
        },
{
    if blank(listing) {
        None
    } else {
        Some(lines_of(listing))
    }
}

/// The seeds named by a listing of untracked files: its lines that are not
/// blank.
pub fn untracked_seeds(listing: &str) -> (r: Vec<String>)
    ensures
        texts(r@) == untracked(listing@),
{
    let all = lines_of(listing);
    let mut out: Vec<String> = Vec::new();
    let mut i: usize = 0;
    while i < all.len()
        invariant
            i <= all@.len(),
            texts(out@) == without_blank(texts(all@).take(i as int)),
        decreases all@.len() - i,
    {
        proof {
            let lines = texts(all@);
            assert(lines.take(i + 1).drop_last() == lines.take(i as int));
        }
        if !blank(all[i].as_str()) {
            let ghost before = texts(out@);
            out.push(all[i].clone());
            proof {
                assert(texts(out@) == before.push(all@[i as int]@));
            }
        }
        i += 1;
    }
    proof {
        assert(texts(all@).take(i as int) == texts(all@));
    }
    out
}

} // verus!
