//! The worklist that grows a set of seed files into its dependency closure.

use vstd::prelude::*;
use crate::paths::base_name;
use crate::paths::file_name;
use crate::text::Order;
use crate::text::compare;
use crate::text::texts;
use crate::trace::found_note;
use crate::trace::found_text;
use crate::worklist::lemma_visit_keeps_sound;

verus! {

/// A dependency between two files, shown by their base names.
#[derive(Clone, Debug, PartialEq, Eq)]
pub struct Edge {
    pub parent: String,
    pub child: String,
}

impl View for Edge {
    type V = (Seq<char>, Seq<char>);

    open spec fn view(&self) -> (Seq<char>, Seq<char>) {
        (self.parent@, self.child@)
    }
}

/// The contents of a list of edges.
pub open spec fn edge_views(edges: Seq<Edge>) -> Seq<(Seq<char>, Seq<char>)> {
    Seq::new(edges.len(), |i: int| edges[i]@)
}

/// The edge that stands for "`parent` depends on `child`".
pub open spec fn edge_between(parent: Seq<char>, child: Seq<char>) -> (Seq<char>, Seq<char>) {
    (base_name(parent), base_name(child))
}

/// The state of a resolution: the files known so far, in the order in which
/// they became known; those still to be scanned; the edges recorded; and a
/// note for each file found.
pub struct Progress {
    pub files: Seq<Seq<char>>,
    pub pending: Seq<Seq<char>>,
    pub edges: Seq<(Seq<char>, Seq<char>)>,
    pub notes: Seq<Seq<char>>,
}

/// The state before anything has been scanned: the seeds are known and pending.
pub open spec fn start(seeds: Seq<Seq<char>>) -> Progress {
    Progress { files: seeds, pending: seeds, edges: Seq::empty(), notes: Seq::empty() }
}

/// The state after taking the most recently added pending file off the list.
pub open spec fn without_last_pending(g: Progress) -> Progress {
    Progress { files: g.files, pending: g.pending.drop_last(), edges: g.edges, notes: g.notes }
}

/// Takes note of one dependency `dep` of `parent`: its edge is recorded
/// unless it joins a name to itself or is recorded already, and `dep` becomes
/// known and pending, with a note that tells where it was found, unless it
/// is known already.
pub open spec fn visit(g: Progress, parent: Seq<char>, dep: Seq<char>) -> Progress {
    let e = edge_between(parent, dep);
    let edges = if e.0 != e.1 && !g.edges.contains(e) {
        g.edges.push(e)
    } else {
        g.edges
    };
    if g.files.contains(dep) {
        Progress { files: g.files, pending: g.pending, edges, notes: g.notes }
    } else {
        Progress {
            files: g.files.push(dep),
            pending: g.pending.push(dep),
            edges,
            notes: g.notes.push(found_text(dep, parent)),
        }
    }
}

/// Takes note of the dependencies `deps` of `parent`, one after the other.
pub open spec fn visit_all(g: Progress, parent: Seq<char>, deps: Seq<Seq<char>>) -> Progress
    decreases deps.len(),
{
    if deps.len() == 0 {
        g
    } else {
        visit(visit_all(g, parent, deps.drop_last()), parent, deps.last())
    }
}

/// Whether `list` holds a string with the contents of `s`.
fn holds(list: &Vec<String>, s: &str) -> (r: bool)
    ensures
        r == texts(list@).contains(s@),
{
    let mut i: usize = 0;
    while i < list.len()
        invariant
            i <= list@.len(),
            forall|j: int| 0 <= j < i ==> texts(list@)[j] != s@,
        decreases list@.len() - i,
    {
        if compare(list[i].as_str(), s) == Order::Same {
            assert(texts(list@)[i as int] == s@);
            return true;
        }
        i += 1;
    }
    false
}

/// Whether `edges` holds the edge from `parent` to `child`.
fn holds_edge(edges: &Vec<Edge>, parent: &str, child: &str) -> (r: bool)
    ensures
        r == edge_views(edges@).contains((parent@, child@)),
{
    let mut i: usize = 0;
    while i < edges.len()
        invariant
            i <= edges@.len(),
            forall|j: int| 0 <= j < i ==> edge_views(edges@)[j] != (parent@, child@),
        decreases edges@.len() - i,
    {
        if compare(edges[i].parent.as_str(), parent) == Order::Same && compare(
            edges[i].child.as_str(),
            child,
        ) == Order::Same {
            assert(edge_views(edges@)[i as int] == (parent@, child@));
            return true;
        }
        i += 1;
    }
    false
}

/// A copy of a list of strings.
fn copy_all(list: &Vec<String>) -> (r: Vec<String>)
    ensures
        texts(r@) == texts(list@),
{
    let mut out: Vec<String> = Vec::new();
    let mut i: usize = 0;
    while i < list.len()
        invariant
            i <= list@.len(),
            texts(out@) == texts(list@).take(i as int),
        decreases list@.len() - i,
    {
        let ghost before = texts(out@);
        out.push(list[i].clone());
        proof {
            assert(texts(out@) == before.push(list@[i as int]@));
            assert(texts(list@).take(i + 1) == before.push(list@[i as int]@));
        }
        i += 1;
    }
    proof {
        assert(texts(list@).take(i as int) == texts(list@));
    }
    out
}

/// The outcome of a resolution: the closure and the edges between its files.
#[derive(Clone, Debug, PartialEq, Eq)]
pub struct Resolution {
    /// The seeds as given, then each file found, in the order found.
    pub files: Vec<String>,
    /// The edges, in the order recorded.
    pub edges: Vec<Edge>,
    /// For each file found, in the order found, the note that tells in which
    /// file it was found.
    pub notes: Vec<String>,
}

impl View for Resolution {
    type V = Progress;

    open spec fn view(&self) -> Progress {
        Progress {
            files: texts(self.files@),
            pending: Seq::empty(),
            edges: edge_views(self.edges@),
            notes: texts(self.notes@),
        }
    }
}

/// The state that four lists stand for.
pub open spec fn progress_of(
    files: Seq<String>,
    pending: Seq<String>,
    edges: Seq<Edge>,
    notes: Seq<String>,
) -> Progress {
    Progress {
        files: texts(files),
        pending: texts(pending),
        edges: edge_views(edges),
        notes: texts(notes),
    }
}

/// Visits the dependencies `deps` of `current`, one after the other, and
/// returns those that were not known before.
fn absorb(
    files: &mut Vec<String>,
    pending: &mut Vec<String>,
    edges: &mut Vec<Edge>,
    notes: &mut Vec<String>,
    current: &str,
    deps: &Vec<String>,
) -> (found: Vec<String>)
    ensures
        progress_of(final(files)@, final(pending)@, final(edges)@, final(notes)@) == visit_all(
            progress_of(old(files)@, old(pending)@, old(edges)@, old(notes)@),
            current@,
            texts(deps@),
        ),
        old(files)@.len() <= final(files)@.len(),
        texts(found@) == texts(final(files)@).skip(old(files)@.len() as int),
{
    let ghost origin = progress_of(files@, pending@, edges@, notes@);
    let parent_name = file_name(current);
    let mut found: Vec<String> = Vec::new();
    let mut i: usize = 0;
    while i < deps.len()
        invariant
            i <= deps@.len(),
            parent_name@ == base_name(current@),
            progress_of(files@, pending@, edges@, notes@) == visit_all(
                origin,
                current@,
                texts(deps@).take(i as int),
            ),
            origin.files.len() <= files@.len(),
            texts(found@) == texts(files@).skip(origin.files.len() as int),
        decreases deps@.len() - i,
    {
        proof {
            let all = texts(deps@);
            assert(all.take(i + 1).drop_last() == all.take(i as int));
        }
        let ghost before = progress_of(files@, pending@, edges@, notes@);
        let ghost found_before = texts(found@);
        let dep = &deps[i];
        let child_name = file_name(dep.as_str());
        if compare(parent_name.as_str(), child_name.as_str()) != Order::Same && !holds_edge(
            edges,
            parent_name.as_str(),
            child_name.as_str(),
        ) {
            edges.push(Edge { parent: parent_name.clone(), child: child_name });
            assert(edge_views(edges@) == before.edges.push(edge_between(current@, dep@)));
        }
        if !holds(files, dep.as_str()) {
            files.push(dep.clone());
            pending.push(dep.clone());
            notes.push(found_note(dep.as_str(), current));
            found.push(dep.clone());
            assert(texts(files@) == before.files.push(dep@));
            assert(texts(pending@) == before.pending.push(dep@));
            assert(texts(notes@) == before.notes.push(found_text(dep@, current@)));
            assert(texts(found@) == found_before.push(dep@));
            assert(texts(found@) == texts(files@).skip(origin.files.len() as int));
        }
        assert(progress_of(files@, pending@, edges@, notes@) == visit(before, current@, dep@));
        i += 1;
    }
    proof {
        assert(texts(deps@).take(i as int) == texts(deps@));
    }
    found
}

/// A resolution under way. The caller takes a pending file with `next_file`,
/// finds its dependencies, and hands them back with `record`, until no file
/// is pending.
pub struct Resolver {
    files: Vec<String>,
    pending: Vec<String>,
    edges: Vec<Edge>,
    notes: Vec<String>,
}

impl View for Resolver {
    type V = Progress;

    closed spec fn view(&self) -> Progress {
        progress_of(self.files@, self.pending@, self.edges@, self.notes@)
    }
}

/// Whether no edge of `edges` stands twice and none joins a name to itself.
pub open spec fn distinct_edges(edges: Seq<(Seq<char>, Seq<char>)>) -> bool {
    &&& edges.no_duplicates()
    &&& forall|e: (Seq<char>, Seq<char>)| #[trigger] edges.contains(e) ==> e.0 != e.1
}

/// Whether the edges of `g` are distinct and every pending file of `g` is
/// a known file.
pub open spec fn is_sound(g: Progress) -> bool {
    &&& distinct_edges(g.edges)
    &&& forall|p: Seq<char>| #[trigger] g.pending.contains(p) ==> g.files.contains(p)
}

impl Resolver {
    /// What every resolver keeps: its edges are distinct, and every pending
    /// file is a known file.
    #[verifier::type_invariant]
    spec fn sound(self) -> bool {
        is_sound(self@)
    }

    /// Starts a resolution from `seeds`.
    pub fn new(seeds: Vec<String>) -> (r: Resolver)
        ensures
            r@ == start(texts(seeds@)),
    {
        let pending = copy_all(&seeds);
        let r = Resolver { files: seeds, pending, edges: Vec::new(), notes: Vec::new() };
        assert(r@.edges == Seq::<(Seq<char>, Seq<char>)>::empty());
        assert(r@.notes == Seq::<Seq<char>>::empty());
        r
    }

    /// Whether no file is left to scan.
    pub fn is_done(&self) -> (r: bool)
        ensures
            r == (self@.pending.len() == 0),
    {
        self.pending.len() == 0
    }

    /// Takes the most recently added pending file off the list.
    pub fn next_file(&mut self) -> (r: Option<String>)
        ensures
            match r {
                Some(f) => old(self)@.pending.len() > 0 && f@ == old(self)@.pending.last()
                    && final(self)@ == without_last_pending(old(self)@),
                None => old(self)@.pending.len() == 0 && final(self)@ == old(self)@,
            },
    {
        proof {
            use_type_invariant(&*self);
        }
        let ghost before = self@;
        let mut pending: Vec<String> = Vec::new();
        std::mem::swap(&mut self.pending, &mut pending);
        let r = pending.pop();
        proof {
            if r is Some {
                assert(texts(pending@) == before.pending.drop_last());
            }
            assert forall|p: Seq<char>| #[trigger]
                texts(pending@).contains(p) implies before.files.contains(p) by {
                let k = choose|k: int| 0 <= k < pending@.len() && texts(pending@)[k] == p;
                assert(before.pending[k] == p);
                assert(before.pending.contains(p));
            }
        }
        std::mem::swap(&mut self.pending, &mut pending);
        r
    }

    /// Takes note of `deps`, the dependencies found in the file `current`, and
    /// returns those that were not known before, in the order found.
    pub fn record(&mut self, current: &str, deps: &Vec<String>) -> (found: Vec<String>)
        ensures
            final(self)@ == visit_all(old(self)@, current@, texts(deps@)),
            old(self)@.files.len() <= final(self)@.files.len(),
            texts(found@) == final(self)@.files.skip(old(self)@.files.len() as int),
    {
        proof {
            use_type_invariant(&*self);
            lemma_visit_keeps_sound(self@, current@, texts(deps@));
        }
        // The lists are taken out and put back one at a time, in an order
        // that keeps every pending file among the known ones throughout.
        let mut files: Vec<String> = Vec::new();
        let mut pending: Vec<String> = Vec::new();
        let mut edges: Vec<Edge> = Vec::new();
        let mut notes: Vec<String> = Vec::new();
        std::mem::swap(&mut self.pending, &mut pending);
        std::mem::swap(&mut self.files, &mut files);
        std::mem::swap(&mut self.edges, &mut edges);
        std::mem::swap(&mut self.notes, &mut notes);
        let found = absorb(&mut files, &mut pending, &mut edges, &mut notes, current, deps);
        std::mem::swap(&mut self.notes, &mut notes);
        std::mem::swap(&mut self.edges, &mut edges);
        std::mem::swap(&mut self.files, &mut files);
        std::mem::swap(&mut self.pending, &mut pending);
        found
    }

    /// Ends the resolution and hands out what is known.
    pub fn finish(self) -> (r: Resolution)
        ensures
            r@.files == self@.files,
            r@.edges == self@.edges,
            r@.notes == self@.notes,
            distinct_edges(r@.edges),
    {
        proof {
            use_type_invariant(&self);
        }
        Resolution { files: self.files, edges: self.edges, notes: self.notes }
    }

    /// The files known so far: the seeds, then each file found, in the order
    /// found.
    pub fn files(&self) -> (r: &Vec<String>)
        ensures
            texts(r@) == self@.files,
    {
        &self.files
    }

    /// The notes on the files found so far, in the order found.
    pub fn notes(&self) -> (r: &Vec<String>)
        ensures
            texts(r@) == self@.notes,
    {
        &self.notes
    }

    /// The edges recorded so far, in the order recorded.
    pub fn edges(&self) -> (r: &Vec<Edge>)
        ensures
            edge_views(r@) == self@.edges,
            distinct_edges(edge_views(r@)),
    {
        proof {
            use_type_invariant(self);
        }
        &self.edges
    }
}

} // verus!
