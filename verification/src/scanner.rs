//! Finds the files that a Rust source file names through its module
//! declarations.

use vstd::prelude::*;
use crate::paths::nested_of;
use crate::paths::nested_path;
use crate::paths::sibling_of;
use crate::paths::sibling_path;
use crate::text::texts;
use crate::tree::readable;
use crate::tree::SourceTree;

verus! {

/// A top-level item of a source file, reduced to what resolution reads: the
/// name of the module it declares, if it declares one.
#[derive(Clone, Debug, PartialEq, Eq)]
pub enum SourceItem {
    Module(String),
    Other,
}

impl SourceItem {
    /// The name of the declared module, if the item declares one.
    pub open spec fn module(self) -> Option<Seq<char>> {
        match self {
            SourceItem::Module(name) => Some(name@),
            SourceItem::Other => None,
        }
    }
}

/// The module names of a list of items, item by item.
pub open spec fn item_modules(items: Seq<SourceItem>) -> Seq<Option<Seq<char>>> {
    Seq::new(items.len(), |i: int| items[i].module())
}

/// What `syn::parse_file` makes of a text: `None` where the text does not
/// parse, else one entry for each top-level item, in source order, holding
/// the identifier of a `mod` item and `None` for any other item.
pub uninterp spec fn syn_items(text: Seq<char>) -> Option<Seq<Option<Seq<char>>>>;

/// Parses `text` with `syn::parse_file` and reduces each top-level item of
/// the parsed file to a `SourceItem`.
///
/// Not proved, but taken from `syn`: the outcome depends on the text alone;
/// it is `None` exactly where `syn::parse_file` returns an error; otherwise
/// the items stand in source order, a `mod` item (`syn::Item::Mod`, with a
/// body or without) as `Module` with its identifier as `syn` prints it, and
/// any other item as `Other`. `syn` parses by recursive descent without a
/// limit of depth: on a text nested deeply enough to exhaust the stack the
/// call does not return, and nothing here speaks of such a text.
#[verifier::external_body]
fn parse_items(text: &str) -> (r: Option<Vec<SourceItem>>)
    ensures
        match r {
            Some(items) => syn_items(text@) == Some(item_modules(items@)),
            None => syn_items(text@) is None,
        },
{
    match syn::parse_file(text) {
        Ok(file) => Some(
            file.items.into_iter().map(
                |item| match item {
                    syn::Item::Mod(m) => SourceItem::Module(m.ident.to_string()),
                    _ => SourceItem::Other,
                },
            ).collect(),
        ),
        Err(_) => None,
    }
}

/// The places where the modules declared by `items`, found in the file
/// `path`, may live: for each module in source order, the sibling file and
/// then the directory module.
pub open spec fn candidates(path: Seq<char>, items: Seq<Option<Seq<char>>>) -> Seq<Seq<char>>
    decreases items.len(),
{
    if items.len() == 0 {
        Seq::empty()
    } else {
        let before = candidates(path, items.drop_last());
        match items.last() {
            Some(name) => before.push(sibling_path(path, name)).push(nested_path(path, name)),
            None => before,
        }
    }
}

/// The candidates of a file with the given text; none where it does not parse.
pub open spec fn candidates_in(path: Seq<char>, text: Seq<char>) -> Seq<Seq<char>> {
    match syn_items(text) {
        Some(items) => candidates(path, items),
        None => Seq::empty(),
    }
}

/// Those of `paths` at which a file exists, in the same order.
pub open spec fn present(files: Map<Seq<char>, Option<Seq<char>>>, paths: Seq<Seq<char>>) -> Seq<
    Seq<char>,
>
    decreases paths.len(),
{
    if paths.len() == 0 {
        Seq::empty()
    } else {
        let before = present(files, paths.drop_last());
        if files.dom().contains(paths.last()) {
            before.push(paths.last())
        } else {
            before
        }
    }
}

/// The files that the file at `path` depends on: the candidates of its
/// module declarations at which a file exists. A file that is missing,
/// cannot be read, or does not parse depends on nothing.
pub open spec fn dependencies(files: Map<Seq<char>, Option<Seq<char>>>, path: Seq<char>) -> Seq<
    Seq<char>,
> {
    match readable(files, path) {
        Some(text) => present(files, candidates_in(path, text)),
        None => Seq::empty(),
    }
}

/// The candidate paths for the modules that `items` declare in the file `path`.
pub fn candidates_of(path: &str, items: &Vec<SourceItem>) -> (r: Vec<String>)
    ensures
        texts(r@) == candidates(path@, item_modules(items@)),
{
    let mut out: Vec<String> = Vec::new();
    let mut i: usize = 0;
    while i < items.len()
        invariant
            i <= items@.len(),
            texts(out@) == candidates(path@, item_modules(items@).take(i as int)),
        decreases items@.len() - i,
    {
        proof {
            let all = item_modules(items@);
            assert(all.take(i + 1).drop_last() == all.take(i as int));
        }
        match &items[i] {
            SourceItem::Module(name) => {
                let ghost before = texts(out@);
                out.push(sibling_of(path, name.as_str()));
                out.push(nested_of(path, name.as_str()));
                proof {
                    assert(texts(out@) == before.push(sibling_path(path@, name@)).push(
                        nested_path(path@, name@),
                    ));
                }
            },
            SourceItem::Other => {},
        }
        i += 1;
    }
    proof {
        assert(item_modules(items@).take(i as int) == item_modules(items@));
    }
    out
}

/// Parses `text`, the contents of the file `path`, and lists the candidate
/// paths of the modules it declares at top level. A text that does not parse
/// has none.
pub fn dependency_candidates(path: &str, text: &str) -> (r: Vec<String>)
    ensures
        texts(r@) == candidates_in(path@, text@),
{
    match parse_items(text) {
        Some(items) => candidates_of(path, &items),
        None => Vec::new(),
    }
}

/// Keeps the paths at which `tree` holds a file.
pub fn existing(tree: &SourceTree, paths: &Vec<String>) -> (r: Vec<String>)
    ensures
        texts(r@) == present(tree@, texts(paths@)),
{
    let mut out: Vec<String> = Vec::new();
    let mut i: usize = 0;
    while i < paths.len()
        invariant
            i <= paths@.len(),
            texts(out@) == present(tree@, texts(paths@).take(i as int)),
        decreases paths@.len() - i,
    {
        proof {
            let all = texts(paths@);
            assert(all.take(i + 1).drop_last() == all.take(i as int));
        }
        if tree.contains(paths[i].as_str()) {
            let ghost before = texts(out@);
            out.push(paths[i].clone());
            proof {
                assert(texts(out@) == before.push(paths@[i as int]@));
            }
        }
        i += 1;
    }
    proof {
        assert(texts(paths@).take(i as int) == texts(paths@));
    }
    out
}

/// The files of `tree` that the file at `path` names through its module
/// declarations.
pub fn find_dependencies(path: &str, tree: &SourceTree) -> (r: Vec<String>)
    ensures
        texts(r@) == dependencies(tree@, path@),
{
    match tree.text_of(path) {
        Some(text) => {
            let found = dependency_candidates(path, text.as_str());
            existing(tree, &found)
        },
        None => Vec::new(),
    }
}

/// Every path kept by `present` is one at which a file exists, and one of
/// the paths given.
pub proof fn lemma_present(
    files: Map<Seq<char>, Option<Seq<char>>>,
    paths: Seq<Seq<char>>,
    x: Seq<char>,
)
    ensures
        present(files, paths).contains(x) <==> paths.contains(x) && files.dom().contains(x),
    decreases paths.len(),
{
    if paths.len() > 0 {
        let front = paths.drop_last();
        let last = paths.last();
        let kept = present(files, front);
        lemma_present(files, front, x);
        assert(paths[paths.len() - 1] == last);
        if front.contains(x) {
            let i = choose|i: int| 0 <= i < front.len() && front[i] == x;
            assert(paths[i] == x);
        }
        if paths.contains(x) && x != last {
            let i = choose|i: int| 0 <= i < paths.len() && paths[i] == x;
            assert(front[i] == x);
        }
        if files.dom().contains(last) {
            let all = kept.push(last);
            assert(all[kept.len() as int] == last);
            if kept.contains(x) {
                let i = choose|i: int| 0 <= i < kept.len() && kept[i] == x;
                assert(all[i] == x);
            }
            if all.contains(x) && x != last {
                let i = choose|i: int| 0 <= i < all.len() && all[i] == x;
                assert(kept[i] == x);
            }
        }
    }
}

/// Every dependency of a file is a file that exists.
pub proof fn lemma_dependency_exists(
    files: Map<Seq<char>, Option<Seq<char>>>,
    a: Seq<char>,
    b: Seq<char>,
)
    requires
        dependencies(files, a).contains(b),
    ensures
        files.dom().contains(b),
{
    match readable(files, a) {
        Some(text) => {
            lemma_present(files, candidates_in(a, text), b);
        },
        None => {},
    }
}

} // verus!
