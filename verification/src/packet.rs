//! Assembles the files of a closure into one packet of text, and estimates
//! what it costs to send.

use vstd::prelude::*;
use vstd::utf8::encode_utf8;
use crate::paths::excluded;
use crate::paths::is_excluded;
use crate::text::lemma_listing;
use crate::text::lemma_listing_ignores_order;
use crate::text::listing;
use crate::text::precedes;
use crate::text::strictly_increasing;
use crate::text::sorted_unique;
use crate::text::texts;
use crate::tree::readable;
use crate::tree::SourceTree;

verus! {

/// A file that goes into a packet: its path and its text.
#[derive(Clone, Debug, PartialEq, Eq)]
pub struct Entry {
    pub path: String,
    pub text: String,
}

impl View for Entry {
    type V = (Seq<char>, Seq<char>);

    open spec fn view(&self) -> (Seq<char>, Seq<char>) {
        (self.path@, self.text@)
    }
}

/// The contents of a list of entries.
pub open spec fn entry_views(entries: Seq<Entry>) -> Seq<(Seq<char>, Seq<char>)> {
    Seq::new(entries.len(), |i: int| entries[i]@)
}

/// An assembled packet: its text and the number of files packed into it.
#[derive(Clone, Debug, PartialEq, Eq)]
pub struct Packet {
    pub text: String,
    pub packed_count: usize,
}

/// The fixed opening of every packet: the outer tag and the instructions to
/// the reader.
pub open spec fn preamble() -> Seq<char> {
    "<context_rs_packet>\n"@ + "  <system_instructions>\n"@
        + "    You are a Senior Rust Expert. The user has modified specific 'Seed' files.\n"@
        + "    We have also auto-packed the complete dependency graph for your reference.\n"@
        + "    \n"@ + "    PROTOCOL:\n"@
        + "    1. Analyze the changes in the user-modified files first.\n"@
        + "    2. Review the auto-resolved dependencies (scanner.rs, etc.) for context.\n"@
        + "    3. IF definitions in dependencies must change to support the Seed, provide the updated code.\n"@
        + "    4. IF no changes are needed in dependencies, explicitly state: 'No changes required in dependency graph'.\n"@
        + "  </system_instructions>\n\n"@
}

/// The fixed close of every packet.
pub open spec fn closing() -> Seq<char> {
    "</context_rs_packet>"@
}

/// One file as it stands in a packet: path and text are embedded as they are.
pub open spec fn entry_text(e: (Seq<char>, Seq<char>)) -> Seq<char> {
    "  <file path=\""@ + e.0 + "\">\n    <![CDATA[\n"@ + e.1 + "\n    ]]>\n  </file>\n\n"@
}

/// The entries of a packet, one after the other.
pub open spec fn entries_text(entries: Seq<(Seq<char>, Seq<char>)>) -> Seq<char>
    decreases entries.len(),
{
    if entries.len() == 0 {
        Seq::empty()
    } else {
        entries_text(entries.drop_last()) + entry_text(entries.last())
    }
}

/// The text of the packet that holds `entries`.
pub open spec fn packet_text(entries: Seq<(Seq<char>, Seq<char>)>) -> Seq<char> {
    preamble() + entries_text(entries) + closing()
}

/// Those of `paths` whose extension does not exclude them, in the same order.
pub open spec fn without_excluded(paths: Seq<Seq<char>>) -> Seq<Seq<char>>
    decreases paths.len(),
{
    if paths.len() == 0 {
        Seq::empty()
    } else {
        let before = without_excluded(paths.drop_last());
        if is_excluded(paths.last()) {
            before
        } else {
            before.push(paths.last())
        }
    }
}

/// The entries for those of `paths` that can be read as text, in the same
/// order.
pub open spec fn readable_entries(
    files: Map<Seq<char>, Option<Seq<char>>>,
    paths: Seq<Seq<char>>,
) -> Seq<(Seq<char>, Seq<char>)>
    decreases paths.len(),
{
    if paths.len() == 0 {
        Seq::empty()
    } else {
        let before = readable_entries(files, paths.drop_last());
        match readable(files, paths.last()) {
            Some(text) => before.push((paths.last(), text)),
            None => before,
        }
    }
}

/// The paths whose files are to be read for a packet: those of `files`,
/// each once, in increasing order, without those that their extension
/// excludes.
pub fn packable(files: &Vec<String>) -> (r: Vec<String>)
    ensures
        texts(r@) == without_excluded(listing(texts(files@))),
{
    let order = sorted_unique(files);
    let mut out: Vec<String> = Vec::new();
    let mut i: usize = 0;
    while i < order.len()
        invariant
            i <= order@.len(),
            texts(out@) == without_excluded(texts(order@).take(i as int)),
        decreases order@.len() - i,
    {
        proof {
            let all = texts(order@);
            assert(all.take(i + 1).drop_last() == all.take(i as int));
        }
        if !excluded(order[i].as_str()) {
            let ghost before = texts(out@);
            out.push(order[i].clone());
            proof {
                assert(texts(out@) == before.push(order@[i as int]@));
            }
        }
        i += 1;
    }
    proof {
        assert(texts(order@).take(i as int) == texts(order@));
    }
    out
}

/// Reads from `tree` those of `paths` that it holds as text.
pub fn collect(paths: &Vec<String>, tree: &SourceTree) -> (r: Vec<Entry>)
    ensures
        entry_views(r@) == readable_entries(tree@, texts(paths@)),
{
    let mut out: Vec<Entry> = Vec::new();
    let mut i: usize = 0;
    while i < paths.len()
        invariant
            i <= paths@.len(),
            entry_views(out@) == readable_entries(tree@, texts(paths@).take(i as int)),
        decreases paths@.len() - i,
    {
        proof {
            let all = texts(paths@);
            assert(all.take(i + 1).drop_last() == all.take(i as int));
        }
        match tree.text_of(paths[i].as_str()) {
            Some(text) => {
                let ghost before = entry_views(out@);
                out.push(Entry { path: paths[i].clone(), text: text.clone() });
                proof {
                    assert(entry_views(out@) == before.push((paths@[i as int]@, text@)));
                }
            },
            None => {},
        }
        i += 1;
    }
    proof {
        assert(texts(paths@).take(i as int) == texts(paths@));
    }
    out
}

/// Writes the packet that holds `entries`, in the order given.
pub fn render(entries: &Vec<Entry>) -> (r: Packet)
    ensures
        r.text@ == packet_text(entry_views(entries@)),
        r.packed_count == entries@.len(),
{
    let mut out = String::new();
    out.append("<context_rs_packet>\n");
    out.append("  <system_instructions>\n");
    out.append("    You are a Senior Rust Expert. The user has modified specific 'Seed' files.\n");
    out.append("    We have also auto-packed the complete dependency graph for your reference.\n");
    out.append("    \n");
    out.append("    PROTOCOL:\n");
    out.append("    1. Analyze the changes in the user-modified files first.\n");
    out.append("    2. Review the auto-resolved dependencies (scanner.rs, etc.) for context.\n");
    out.append(
        "    3. IF definitions in dependencies must change to support the Seed, provide the updated code.\n",
    );
    out.append(
        "    4. IF no changes are needed in dependencies, explicitly state: 'No changes required in dependency graph'.\n",
    );
    out.append("  </system_instructions>\n\n");
    assert(out@ == preamble());
    let mut i: usize = 0;
    while i < entries.len()
        invariant
            i <= entries@.len(),
            out@ == preamble() + entries_text(entry_views(entries@).take(i as int)),
        decreases entries@.len() - i,
    {
        proof {
            let all = entry_views(entries@);
            assert(all.take(i + 1).drop_last() == all.take(i as int));
        }
        out.append("  <file path=\"");
        out.append(entries[i].path.as_str());
        out.append("\">\n    <![CDATA[\n");
        out.append(entries[i].text.as_str());
        out.append("\n    ]]>\n  </file>\n\n");
        i += 1;
        assert(out@ == preamble() + entries_text(entry_views(entries@).take(i as int)));
    }
    proof {
        assert(entry_views(entries@).take(i as int) == entry_views(entries@));
    }
    out.append("</context_rs_packet>");
    Packet { text: out, packed_count: entries.len() }
}

/// Assembles the packet for the closure `files` from the files of `tree`:
/// the paths are put in increasing order, each once; those that their
/// extension excludes and those that cannot be read as text are left out;
/// the rest are embedded in that order.
pub fn assemble(files: &Vec<String>, tree: &SourceTree) -> (r: Packet)
    ensures
        r.text@ == packet_text(packed_entries(tree@, texts(files@))),
        r.packed_count == packed_entries(tree@, texts(files@)).len(),
{
    let paths = packable(files);
    let entries = collect(&paths, tree);
    render(&entries)
}

/// Cost figures derived from the size of a packet. They are estimates, not
/// billed usage.
#[derive(Clone, Copy, Debug, PartialEq, Eq)]
pub struct Metrics {
    /// The number of files packed.
    pub packed_files: usize,
    /// The estimated number of tokens: a quarter of the packet's bytes.
    pub tokens: usize,
    /// The estimated price in millionths of a dollar, at five dollars for a
    /// million tokens.
    pub cost_micros: u128,
}

/// The estimated number of tokens of a text of `bytes` bytes.
pub open spec fn tokens_of(bytes: nat) -> nat {
    bytes / 4
}

/// The estimated price, in millionths of a dollar, of `tokens` tokens.
pub open spec fn price_of(tokens: nat) -> nat {
    tokens * 5
}

/// Estimates the number of tokens in `text` from its length in bytes.
pub fn estimate_tokens(text: &str) -> (r: usize)
    ensures
        r == tokens_of(encode_utf8(text@).len()),
{
    text.as_bytes().len() / 4
}

/// Estimates the price of `tokens` tokens, in millionths of a dollar.
pub fn estimate_cost(tokens: usize) -> (r: u128)
    ensures
        r == price_of(tokens as nat),
{
    (tokens as u128) * 5
}

/// The cost figures of a packet.
pub fn measure(packet: &Packet) -> (r: Metrics)
    ensures
        r.packed_files == packet.packed_count,
        r.tokens == tokens_of(encode_utf8(packet.text@).len()),
        r.cost_micros == price_of(r.tokens as nat),
{
    let tokens = estimate_tokens(packet.text.as_str());
    Metrics { packed_files: packet.packed_count, tokens, cost_micros: estimate_cost(tokens) }
}

/// The paths of a list of entries.
pub open spec fn entry_paths(entries: Seq<(Seq<char>, Seq<char>)>) -> Seq<Seq<char>> {
    Seq::new(entries.len(), |i: int| entries[i].0)
}

/// The entries of the packet for the closure `members` over `files`.
pub open spec fn packed_entries(
    files: Map<Seq<char>, Option<Seq<char>>>,
    members: Seq<Seq<char>>,
) -> Seq<(Seq<char>, Seq<char>)> {
    readable_entries(files, without_excluded(listing(members)))
}

/// Whether every entry of `s` precedes `y`.
pub open spec fn all_precede(s: Seq<Seq<char>>, y: Seq<char>) -> bool {
    forall|i: int| 0 <= i < s.len() ==> precedes(#[trigger] s[i], y)
}

/// Leaving out excluded paths keeps an increasing list increasing.
proof fn lemma_without_excluded_increasing(paths: Seq<Seq<char>>)
    requires
        strictly_increasing(paths),
    ensures
        strictly_increasing(without_excluded(paths)),
        forall|y: Seq<char>| all_precede(paths, y) ==> #[trigger] all_precede(
            without_excluded(paths),
            y,
        ),
        forall|x: Seq<char>| #[trigger]
            without_excluded(paths).contains(x) <==> paths.contains(x) && !is_excluded(x),
    decreases paths.len(),
{
    if paths.len() > 0 {
        let front = paths.drop_last();
        let last = paths.last();
        let kept = without_excluded(front);
        assert forall|i: int, j: int| 0 <= i < j < front.len() implies precedes(
            #[trigger] front[i],
            #[trigger] front[j],
        ) by {
            assert(precedes(paths[i], paths[j]));
        }
        lemma_without_excluded_increasing(front);
        assert(all_precede(front, last)) by {
            assert forall|i: int| 0 <= i < front.len() implies precedes(
                #[trigger] front[i],
                last,
            ) by {
                assert(precedes(paths[i], paths[paths.len() - 1]));
            }
        }
        assert(all_precede(kept, last));
        assert forall|y: Seq<char>| all_precede(paths, y) implies #[trigger] all_precede(
            without_excluded(paths),
            y,
        ) by {
            assert(all_precede(front, y)) by {
                assert forall|i: int| 0 <= i < front.len() implies precedes(
                    #[trigger] front[i],
                    y,
                ) by {
                    assert(precedes(paths[i], y));
                }
            }
            assert(all_precede(kept, y));
            assert(precedes(paths[paths.len() - 1], y));
        }
        assert forall|x: Seq<char>| #[trigger]
            without_excluded(paths).contains(x) <==> paths.contains(x) && !is_excluded(x) by {
            let out = without_excluded(paths);
            assert(paths[paths.len() - 1] == last);
            if front.contains(x) {
                let k = choose|k: int| 0 <= k < front.len() && front[k] == x;
                assert(paths[k] == x);
            }
            if paths.contains(x) && x != last {
                let k = choose|k: int| 0 <= k < paths.len() && paths[k] == x;
                assert(front[k] == x);
            }
            if !is_excluded(last) {
                assert(out[kept.len() as int] == last);
                if kept.contains(x) {
                    let k = choose|k: int| 0 <= k < kept.len() && kept[k] == x;
                    assert(out[k] == x);
                }
                if out.contains(x) && x != last {
                    let k = choose|k: int| 0 <= k < out.len() && out[k] == x;
                    assert(kept[k] == x);
                }
            }
        }
    }
}

/// Leaving out unreadable files keeps an increasing list increasing.
proof fn lemma_readable_entries_increasing(
    files: Map<Seq<char>, Option<Seq<char>>>,
    paths: Seq<Seq<char>>,
)
    requires
        strictly_increasing(paths),
    ensures
        strictly_increasing(entry_paths(readable_entries(files, paths))),
        forall|y: Seq<char>| all_precede(paths, y) ==> #[trigger] all_precede(
            entry_paths(readable_entries(files, paths)),
            y,
        ),
        forall|e: (Seq<char>, Seq<char>)| #[trigger]
            readable_entries(files, paths).contains(e) <==> paths.contains(e.0) && readable(
                files,
                e.0,
            ) == Some(e.1),
    decreases paths.len(),
{
    if paths.len() > 0 {
        let front = paths.drop_last();
        let last = paths.last();
        let kept = readable_entries(files, front);
        assert forall|i: int, j: int| 0 <= i < j < front.len() implies precedes(
            #[trigger] front[i],
            #[trigger] front[j],
        ) by {
            assert(precedes(paths[i], paths[j]));
        }
        lemma_readable_entries_increasing(files, front);
        assert(all_precede(front, last)) by {
            assert forall|i: int| 0 <= i < front.len() implies precedes(
                #[trigger] front[i],
                last,
            ) by {
                assert(precedes(paths[i], paths[paths.len() - 1]));
            }
        }
        assert(all_precede(entry_paths(kept), last));
        let out = readable_entries(files, paths);
        assert forall|i: int, j: int| 0 <= i < j < entry_paths(out).len() implies precedes(
            #[trigger] entry_paths(out)[i],
            #[trigger] entry_paths(out)[j],
        ) by {
            if j < kept.len() {
                assert(precedes(entry_paths(kept)[i], entry_paths(kept)[j]));
            } else {
                assert(precedes(entry_paths(kept)[i], last));
            }
        }
        assert forall|y: Seq<char>| all_precede(paths, y) implies #[trigger] all_precede(
            entry_paths(out),
            y,
        ) by {
            assert(all_precede(front, y)) by {
                assert forall|i: int| 0 <= i < front.len() implies precedes(
                    #[trigger] front[i],
                    y,
                ) by {
                    assert(precedes(paths[i], y));
                }
            }
            assert(all_precede(entry_paths(kept), y));
            assert(precedes(paths[paths.len() - 1], y));
            assert forall|i: int| 0 <= i < entry_paths(out).len() implies precedes(
                #[trigger] entry_paths(out)[i],
                y,
            ) by {
                if i < kept.len() {
                    assert(precedes(entry_paths(kept)[i], y));
                }
            }
        }
        assert forall|e: (Seq<char>, Seq<char>)| #[trigger]
            out.contains(e) <==> paths.contains(e.0) && readable(files, e.0) == Some(e.1) by {
            assert(paths[paths.len() - 1] == last);
            if front.contains(e.0) {
                let k = choose|k: int| 0 <= k < front.len() && front[k] == e.0;
                assert(paths[k] == e.0);
            }
            if paths.contains(e.0) && e.0 != last {
                let k = choose|k: int| 0 <= k < paths.len() && paths[k] == e.0;
                assert(front[k] == e.0);
            }
            if readable(files, last) is Some {
                assert(out[kept.len() as int] == (last, readable(files, last)->0));
                if kept.contains(e) {
                    let k = choose|k: int| 0 <= k < kept.len() && kept[k] == e;
                    assert(out[k] == e);
                }
                if out.contains(e) && e != (last, readable(files, last)->0) {
                    let k = choose|k: int| 0 <= k < out.len() && out[k] == e;
                    assert(kept[k] == e);
                }
            }
        }
    }
}

/// The entries of a packet stand in increasing order of their paths, and
/// they are the files of the closure that are not excluded and can be read,
/// each with its text.
pub proof fn lemma_packed_in_order(
    files: Map<Seq<char>, Option<Seq<char>>>,
    members: Seq<Seq<char>>,
)
    ensures
        strictly_increasing(entry_paths(packed_entries(files, members))),
        forall|e: (Seq<char>, Seq<char>)| #[trigger]
            packed_entries(files, members).contains(e) <==> members.contains(e.0) && !is_excluded(
                e.0,
            ) && readable(files, e.0) == Some(e.1),
{
    lemma_listing(members);
    lemma_without_excluded_increasing(listing(members));
    lemma_readable_entries_increasing(files, without_excluded(listing(members)));
    assert forall|e: (Seq<char>, Seq<char>)| #[trigger]
        packed_entries(files, members).contains(e) <==> members.contains(e.0) && !is_excluded(e.0)
            && readable(files, e.0) == Some(e.1) by {
        assert(without_excluded(listing(members)).contains(e.0) <==> listing(members).contains(
            e.0,
        ) && !is_excluded(e.0));
        assert(listing(members).contains(e.0) <==> members.contains(e.0));
    }
}

/// The packet is the same in whatever order, and however often, the closure
/// lists its files.
pub proof fn lemma_packet_ignores_order(
    files: Map<Seq<char>, Option<Seq<char>>>,
    a: Seq<Seq<char>>,
    b: Seq<Seq<char>>,
)
    requires
        forall|x: Seq<char>|
            #![trigger a.contains(x)]
            #![trigger b.contains(x)]
            a.contains(x) <==> b.contains(x),
    ensures
        packed_entries(files, a) == packed_entries(files, b),
        packet_text(packed_entries(files, a)) == packet_text(packed_entries(files, b)),
{
    lemma_listing_ignores_order(a, b);
}

} // verus!
