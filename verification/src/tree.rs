//! An in-memory picture of the files that a resolution may look at.

use vstd::prelude::*;
use crate::text::Order;
use crate::text::compare;

verus! {

/// One file: its path and, where it can be read as text, its contents.
#[derive(Clone, Debug, PartialEq, Eq)]
pub struct SourceFile {
    pub path: String,
    pub text: Option<String>,
}

impl SourceFile {
    /// The contents of the file as a sequence of characters, if it has any.
    pub open spec fn text_view(self) -> Option<Seq<char>> {
        match self.text {
            Some(t) => Some(t@),
            None => None,
        }
    }
}

/// The map that a list of files stands for: each path is bound to the
/// contents of the last file listed under it.
pub open spec fn files_map(files: Seq<SourceFile>) -> Map<Seq<char>, Option<Seq<char>>>
    decreases files.len(),
{
    if files.len() == 0 {
        Map::empty()
    } else {
        files_map(files.drop_last()).insert(files.last().path@, files.last().text_view())
    }
}

/// The text of the file at `path`: `None` where no such file exists or where
/// it cannot be read as text.
pub open spec fn readable(files: Map<Seq<char>, Option<Seq<char>>>, path: Seq<char>) -> Option<
    Seq<char>,
> {
    if files.dom().contains(path) {
        files[path]
    } else {
        None
    }
}

/// Whether entry `i` is the last one listed under `path`.
pub open spec fn is_last_entry(files: Seq<SourceFile>, path: Seq<char>, i: int) -> bool {
    &&& 0 <= i < files.len()
    &&& files[i].path@ == path
    &&& forall|j: int| i < j < files.len() ==> (#[trigger] files[j]).path@ != path
}

/// Whether some entry is listed under `path`.
pub open spec fn is_listed(files: Seq<SourceFile>, path: Seq<char>) -> bool {
    exists|i: int| 0 <= i < files.len() && (#[trigger] files[i]).path@ == path
}

/// A path is bound exactly when some entry is listed under it, and then to
/// the contents of the last such entry.
pub proof fn lemma_files_map(files: Seq<SourceFile>, path: Seq<char>)
    ensures
        files_map(files).dom().finite(),
        files_map(files).dom().len() <= files.len(),
        files_map(files).dom().contains(path) <==> is_listed(files, path),
        forall|i: int| #[trigger]
            is_last_entry(files, path, i) ==> files_map(files)[path] == files[i].text_view(),
    decreases files.len(),
{
    if files.len() > 0 {
        let front = files.drop_last();
        let last = files.len() - 1;
        lemma_files_map(front, path);
        if is_listed(front, path) {
            let i = choose|i: int| 0 <= i < front.len() && (#[trigger] front[i]).path@ == path;
            assert(files[i].path@ == path);
        }
        if files.last().path@ == path {
            assert(files[last].path@ == path);
        }
        if is_listed(files, path) && files.last().path@ != path {
            let i = choose|i: int| 0 <= i < files.len() && (#[trigger] files[i]).path@ == path;
            assert(front[i].path@ == path);
        }
        assert forall|i: int| #[trigger] is_last_entry(files, path, i) implies files_map(
            files,
        )[path] == files[i].text_view() by {
            if i < last {
                assert(is_last_entry(front, path, i));
            }
        }
    }
}

/// A set of files held in memory, looked up by path.
pub struct SourceTree {
    files: Vec<SourceFile>,
}

impl View for SourceTree {
    type V = Map<Seq<char>, Option<Seq<char>>>;

    closed spec fn view(&self) -> Map<Seq<char>, Option<Seq<char>>> {
        files_map(self.files@)
    }
}

impl SourceTree {
    /// A tree without files.
    pub fn new() -> (r: SourceTree)
        ensures
            r@ == Map::<Seq<char>, Option<Seq<char>>>::empty(),
    {
        SourceTree { files: Vec::new() }
    }

    /// Adds a text file, in place of any file already held under that path.
    pub fn insert(&mut self, path: String, text: String)
        ensures
            final(self)@ == old(self)@.insert(path@, Some(text@)),
    {
        self.files.push(SourceFile { path, text: Some(text) });
        proof {
            assert(self.files@.drop_last() == old(self).files@);
        }
    }

    /// Adds a file that exists but cannot be read as text, in place of any
    /// file already held under that path.
    pub fn insert_unreadable(&mut self, path: String)
        ensures
            final(self)@ == old(self)@.insert(path@, None),
    {
        self.files.push(SourceFile { path, text: None });
        proof {
            assert(self.files@.drop_last() == old(self).files@);
        }
    }

    /// The number of paths held is finite.
    pub proof fn lemma_finite(self)
        ensures
            self@.dom().finite(),
    {
        lemma_files_map(self.files@, Seq::empty());
    }

    /// Position of the last entry listed under `path`.
    fn position(&self, path: &str) -> (r: Option<usize>)
        ensures
            match r {
                Some(i) => is_last_entry(self.files@, path@, i as int),
                None => !is_listed(self.files@, path@),
            },
    {
        let mut i = self.files.len();
        while i > 0
            invariant
                i <= self.files@.len(),
                forall|j: int| i <= j < self.files@.len() ==> (#[trigger] self.files@[j]).path@ != path@,
            decreases i,
        {
            i -= 1;
            if compare(self.files[i].path.as_str(), path) == Order::Same {
                return Some(i);
            }
        }
        None
    }

    /// Whether a file exists at `path`.
    pub fn contains(&self, path: &str) -> (r: bool)
        ensures
            r == self@.dom().contains(path@),
    {
        proof {
            lemma_files_map(self.files@, path@);
        }
        self.position(path).is_some()
    }

    /// The text of the file at `path`, where it exists and can be read.
    pub fn text_of(&self, path: &str) -> (r: Option<&String>)
        ensures
            match r {
                Some(t) => readable(self@, path@) == Some(t@),
                None => readable(self@, path@) is None,
            },
    {
        proof {
            lemma_files_map(self.files@, path@);
        }
        match self.position(path) {
            Some(i) => self.files[i].text.as_ref(),
            None => None,
        }
    }
}

} // verus!
