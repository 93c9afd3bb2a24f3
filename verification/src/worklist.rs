//! Why the worklist yields the closure: what holds of its state from round
//! to round.

use vstd::prelude::*;
use crate::closure::depends_on;
use crate::closure::first_at;
use crate::closure::is_closure;
use crate::closure::is_edge_of;
use crate::closure::is_note_on;
use crate::closure::notes_tell;
use crate::closure::closed_under_dependencies;
use crate::closure::reachable;
use crate::closure::reached_in;
use crate::closure::step;
use crate::paths::base_name;
use crate::resolver::edge_between;
use crate::resolver::is_sound;
use crate::resolver::start;
use crate::resolver::visit;
use crate::resolver::visit_all;
use crate::resolver::without_last_pending;
use crate::resolver::Progress;
use crate::scanner::dependencies;
use crate::scanner::lemma_dependency_exists;
use crate::trace::found_text;

verus! {

/// Whether every dependency of `f` is known in `g`, with its edge where the
/// base names differ.
pub open spec fn scanned(files: Map<Seq<char>, Option<Seq<char>>>, g: Progress, f: Seq<char>) -> bool {
    forall|d: Seq<char>| #[trigger]
        depends_on(files, f, d) ==> g.files.contains(d) && (base_name(f) != base_name(d)
            ==> g.edges.contains(edge_between(f, d)))
}

/// What holds of the state throughout a resolution.
pub open spec fn consistent(
    files: Map<Seq<char>, Option<Seq<char>>>,
    seeds: Seq<Seq<char>>,
    g: Progress,
) -> bool {
    &&& seeds.len() <= g.files.len()
    &&& g.files.take(seeds.len() as int) == seeds
    &&& forall|f: Seq<char>| #[trigger] g.files.contains(f) ==> reachable(files, seeds, f)
    &&& forall|f: Seq<char>| #[trigger]
        g.files.contains(f) ==> g.pending.contains(f) || scanned(files, g, f)
    &&& forall|e: (Seq<char>, Seq<char>)| #[trigger]
        g.edges.contains(e) ==> is_edge_of(files, g.files, e)
    &&& g.edges.no_duplicates()
    &&& forall|p: Seq<char>| #[trigger] g.pending.contains(p) ==> g.files.contains(p)
    &&& forall|i: int| seeds.len() <= i < g.files.len() ==> first_at(g.files, i)
    &&& forall|i: int|
        seeds.len() <= i < g.files.len() ==> files.dom().contains(#[trigger] g.files[i])
    &&& notes_tell(files, seeds, g.files, g.notes)
}

/// What is left to do: it shrinks with every round.
pub open spec fn work_left(
    files: Map<Seq<char>, Option<Seq<char>>>,
    seeds: Seq<Seq<char>>,
    g: Progress,
) -> int {
    g.pending.len() + 2 * (files.dom().len() - (g.files.len() - seeds.len()))
}

/// Whether `h` is what `visit_all` may make of `g` on the dependencies `deps`
/// of `parent`: files and edges are only added at the end, each added file
/// is a dependency not known before and becomes pending, each added edge is
/// a new edge from `parent` to a dependency of another name, and in the end
/// every dependency is known and has its edge.
pub open spec fn grown(g: Progress, h: Progress, parent: Seq<char>, deps: Seq<Seq<char>>) -> bool {
    &&& g.files.len() <= h.files.len()
    &&& h.files.take(g.files.len() as int) == g.files
    &&& h.pending == g.pending + h.files.skip(g.files.len() as int)
    &&& forall|d: Seq<char>| #[trigger] deps.contains(d) ==> h.files.contains(d)
    &&& forall|i: int|
        g.files.len() <= i < h.files.len() ==> deps.contains(#[trigger] h.files[i]) && first_at(
            h.files,
            i,
        )
    &&& g.edges.len() <= h.edges.len()
    &&& h.edges.take(g.edges.len() as int) == g.edges
    &&& forall|i: int|
        g.edges.len() <= i < h.edges.len() ==> first_at(h.edges, i) && is_edge_from(
            parent,
            deps,
            #[trigger] h.edges[i],
        )
    &&& forall|d: Seq<char>| #[trigger]
        deps.contains(d) && base_name(parent) != base_name(d) ==> h.edges.contains(
            edge_between(parent, d),
        )
    &&& h.notes.len() - g.notes.len() == h.files.len() - g.files.len()
    &&& h.notes.take(g.notes.len() as int) == g.notes
    &&& forall|i: int|
        g.notes.len() <= i < h.notes.len() ==> #[trigger] h.notes[i] == found_text(
            h.files[g.files.len() + (i - g.notes.len())],
            parent,
        )
}

/// Whether `e` joins `parent` to one of `deps` that has another base name.
pub open spec fn is_edge_from(
    parent: Seq<char>,
    deps: Seq<Seq<char>>,
    e: (Seq<char>, Seq<char>),
) -> bool {
    e.0 != e.1 && exists|d: Seq<char>| #[trigger] deps.contains(d) && e == edge_between(parent, d)
}

/// Whatever dependencies are recorded, and whatever files they came from:
/// where no edge stood twice, none joined a name to itself, and every
/// pending file was known, the same holds afterwards.
pub proof fn lemma_visit_keeps_sound(g: Progress, parent: Seq<char>, deps: Seq<Seq<char>>)
    requires
        is_sound(g),
    ensures
        is_sound(visit_all(g, parent, deps)),
{
    let h = visit_all(g, parent, deps);
    let n = g.edges.len() as int;
    lemma_visit_all(g, parent, deps);
    assert forall|i: int, j: int| 0 <= i < h.edges.len() && 0 <= j < h.edges.len() && i
        != j implies h.edges[i] != h.edges[j] by {
        let a = if i < j { i } else { j };
        let b = if i < j { j } else { i };
        if b < n {
            assert(h.edges.take(n)[a] == h.edges[a]);
            assert(h.edges.take(n)[b] == h.edges[b]);
        } else {
            assert(first_at(h.edges, b));
        }
    }
    assert forall|e: (Seq<char>, Seq<char>)| #[trigger] h.edges.contains(e) implies e.0
        != e.1 by {
        let i = choose|i: int| 0 <= i < h.edges.len() && h.edges[i] == e;
        if i < n {
            assert(h.edges.take(n)[i] == e);
            assert(g.edges.contains(e));
        } else {
            assert(is_edge_from(parent, deps, h.edges[i]));
        }
    }
    assert forall|p: Seq<char>| #[trigger] h.pending.contains(p) implies h.files.contains(p) by {
        let k = choose|k: int| 0 <= k < h.pending.len() && h.pending[k] == p;
        if k < g.pending.len() {
            assert(g.pending[k] == p);
            assert(g.pending.contains(p));
            lemma_prefix_contains(g.files, h.files, p);
        } else {
            assert(h.files[g.files.len() + (k - g.pending.len())] == p);
        }
    }
}

/// `visit_all` adds what `grown` describes.
pub(crate) proof fn lemma_visit_all(g: Progress, parent: Seq<char>, deps: Seq<Seq<char>>)
    ensures
        grown(g, visit_all(g, parent, deps), parent, deps),
    decreases deps.len(),
{
    if deps.len() == 0 {
        assert(g.files.take(g.files.len() as int) == g.files);
        assert(g.edges.take(g.edges.len() as int) == g.edges);
        assert(g.pending == g.pending + g.files.skip(g.files.len() as int));
        assert(g.notes.take(g.notes.len() as int) == g.notes);
    } else {
        let front = deps.drop_last();
        let d = deps.last();
        let m = visit_all(g, parent, front);
        let h = visit(m, parent, d);
        lemma_visit_all(g, parent, front);
        assert(deps[deps.len() - 1] == d);
        assert forall|x: Seq<char>| front.contains(x) implies deps.contains(x) by {
            let i = choose|i: int| 0 <= i < front.len() && front[i] == x;
            assert(deps[i] == x);
        }
        assert forall|x: Seq<char>| deps.contains(x) implies front.contains(x) || x == d by {
            let i = choose|i: int| 0 <= i < deps.len() && deps[i] == x;
            if i < front.len() {
                assert(front[i] == x);
            }
        }
        lemma_visit_files(g, m, h, parent, front, deps);
        lemma_visit_edges(g, m, h, parent, front, deps);
        lemma_visit_notes(g, m, h, parent, front, deps);
    }
}

/// The part of `lemma_visit_all` that speaks of files, for one more dependency.
proof fn lemma_visit_files(
    g: Progress,
    m: Progress,
    h: Progress,
    parent: Seq<char>,
    front: Seq<Seq<char>>,
    deps: Seq<Seq<char>>,
)
    requires
        deps.len() > 0,
        front == deps.drop_last(),
        grown(g, m, parent, front),
        h == visit(m, parent, deps.last()),
        forall|x: Seq<char>| front.contains(x) ==> deps.contains(x),
        deps.contains(deps.last()),
        forall|x: Seq<char>| deps.contains(x) ==> front.contains(x) || x == deps.last(),
    ensures
        g.files.len() <= h.files.len(),
        h.files.take(g.files.len() as int) == g.files,
        h.pending == g.pending + h.files.skip(g.files.len() as int),
        forall|d: Seq<char>| #[trigger] deps.contains(d) ==> h.files.contains(d),
        forall|i: int|
            g.files.len() <= i < h.files.len() ==> deps.contains(#[trigger] h.files[i])
                && first_at(h.files, i),
{
    let d = deps.last();
    let n = g.files.len() as int;
    if m.files.contains(d) {
        assert(h.files == m.files);
        assert(h.pending == m.pending);
    } else {
        assert(h.files == m.files.push(d));
        assert(h.files.take(n) == m.files.take(n));
        assert(h.files.skip(n) == m.files.skip(n).push(d));
        assert(h.pending == g.pending + h.files.skip(n));
        assert(h.files[m.files.len() as int] == d);
        assert forall|x: Seq<char>| #[trigger] deps.contains(x) implies h.files.contains(x) by {
            if x != d {
                assert(front.contains(x));
                let i = choose|i: int| 0 <= i < m.files.len() && m.files[i] == x;
                assert(h.files[i] == x);
            }
        }
        assert forall|i: int| n <= i < h.files.len() implies deps.contains(#[trigger] h.files[i])
            && first_at(h.files, i) by {
            if i < m.files.len() {
                assert(h.files[i] == m.files[i]);
                assert(first_at(m.files, i));
                assert forall|j: int| 0 <= j < i implies h.files[j] != h.files[i] by {
                    assert(m.files[j] != m.files[i]);
                }
            } else {
                assert forall|j: int| 0 <= j < i implies h.files[j] != h.files[i] by {
                    if h.files[j] == d {
                        assert(m.files[j] == d);
                    }
                }
            }
        }
    }
}

/// The part of `lemma_visit_all` that speaks of notes, for one more dependency.
proof fn lemma_visit_notes(
    g: Progress,
    m: Progress,
    h: Progress,
    parent: Seq<char>,
    front: Seq<Seq<char>>,
    deps: Seq<Seq<char>>,
)
    requires
        deps.len() > 0,
        front == deps.drop_last(),
        grown(g, m, parent, front),
        h == visit(m, parent, deps.last()),
    ensures
        h.notes.len() - g.notes.len() == h.files.len() - g.files.len(),
        h.notes.take(g.notes.len() as int) == g.notes,
        forall|i: int|
            g.notes.len() <= i < h.notes.len() ==> #[trigger] h.notes[i] == found_text(
                h.files[g.files.len() + (i - g.notes.len())],
                parent,
            ),
{
    let d = deps.last();
    let n = g.notes.len() as int;
    if m.files.contains(d) {
        assert(h.notes == m.notes);
        assert(h.files == m.files);
    } else {
        assert(h.notes == m.notes.push(found_text(d, parent)));
        assert(h.files == m.files.push(d));
        assert(h.notes.take(n) == m.notes.take(n));
        assert forall|i: int| n <= i < h.notes.len() implies #[trigger] h.notes[i] == found_text(
            h.files[g.files.len() + (i - n)],
            parent,
        ) by {
            if i < m.notes.len() {
                assert(h.notes[i] == m.notes[i]);
                assert(h.files[g.files.len() + (i - n)] == m.files[g.files.len() + (i - n)]);
            }
        }
    }
}

/// The part of `lemma_visit_all` that speaks of edges, for one more dependency.
proof fn lemma_visit_edges(
    g: Progress,
    m: Progress,
    h: Progress,
    parent: Seq<char>,
    front: Seq<Seq<char>>,
    deps: Seq<Seq<char>>,
)
    requires
        deps.len() > 0,
        front == deps.drop_last(),
        grown(g, m, parent, front),
        h == visit(m, parent, deps.last()),
        forall|x: Seq<char>| front.contains(x) ==> deps.contains(x),
        deps.contains(deps.last()),
        forall|x: Seq<char>| deps.contains(x) ==> front.contains(x) || x == deps.last(),
    ensures
        g.edges.len() <= h.edges.len(),
        h.edges.take(g.edges.len() as int) == g.edges,
        forall|i: int|
            g.edges.len() <= i < h.edges.len() ==> first_at(h.edges, i) && is_edge_from(
                parent,
                deps,
                #[trigger] h.edges[i],
            ),
        forall|d: Seq<char>| #[trigger]
            deps.contains(d) && base_name(parent) != base_name(d) ==> h.edges.contains(
                edge_between(parent, d),
            ),
{
    let d = deps.last();
    let e = edge_between(parent, d);
    let n = g.edges.len() as int;
    let added = e.0 != e.1 && !m.edges.contains(e);
    if added {
        assert(h.edges == m.edges.push(e));
        assert(h.edges.take(n) == m.edges.take(n));
        assert(h.edges[m.edges.len() as int] == e);
    } else {
        assert(h.edges == m.edges);
    }
    assert forall|i: int| n <= i < h.edges.len() implies first_at(h.edges, i) && is_edge_from(
        parent,
        deps,
        #[trigger] h.edges[i],
    ) by {
        if i < m.edges.len() {
            assert(h.edges[i] == m.edges[i]);
            assert(first_at(m.edges, i));
            assert(is_edge_from(parent, front, m.edges[i]));
            let x = choose|x: Seq<char>| #[trigger]
                front.contains(x) && m.edges[i] == edge_between(parent, x);
            assert(deps.contains(x));
            assert forall|j: int| 0 <= j < i implies h.edges[j] != h.edges[i] by {
                assert(m.edges[j] != m.edges[i]);
            }
        } else {
            assert(h.edges[i] == e);
            assert(deps.contains(d));
            assert forall|j: int| 0 <= j < i implies h.edges[j] != h.edges[i] by {
                if h.edges[j] == e {
                    assert(m.edges[j] == e);
                }
            }
        }
    }
    assert forall|x: Seq<char>| #[trigger]
        deps.contains(x) && base_name(parent) != base_name(x) implies h.edges.contains(
        edge_between(parent, x),
    ) by {
        if x == d {
            if added {
                assert(h.edges[m.edges.len() as int] == e);
            } else {
                let i = choose|i: int| 0 <= i < m.edges.len() && m.edges[i] == e;
                assert(h.edges[i] == e);
            }
        } else {
            assert(front.contains(x));
            let ex = edge_between(parent, x);
            assert(m.edges.contains(ex));
            let i = choose|i: int| 0 <= i < m.edges.len() && m.edges[i] == ex;
            assert(h.edges[i] == ex);
        }
    }
}

/// What a list holds, a list that starts with it holds too.
pub(crate) proof fn lemma_prefix_contains<A>(a: Seq<A>, b: Seq<A>, x: A)
    requires
        a.len() <= b.len(),
        b.take(a.len() as int) == a,
        a.contains(x),
    ensures
        b.contains(x),
{
    let i = choose|i: int| 0 <= i < a.len() && a[i] == x;
    assert(b.take(a.len() as int)[i] == b[i]);
}

/// The state at the start is consistent.
pub(crate) proof fn lemma_start_consistent(
    files: Map<Seq<char>, Option<Seq<char>>>,
    seeds: Seq<Seq<char>>,
)
    ensures
        consistent(files, seeds, start(seeds)),
{
    let g = start(seeds);
    assert(g.files.take(seeds.len() as int) == seeds);
    assert forall|f: Seq<char>| #[trigger] g.files.contains(f) implies reachable(
        files,
        seeds,
        f,
    ) by {
        assert(reached_in(files, seeds, f, 0));
    }
}

/// The files found since the start are no more than the files that exist.
pub(crate) proof fn lemma_found_bounded(
    files: Map<Seq<char>, Option<Seq<char>>>,
    seeds: Seq<Seq<char>>,
    g: Progress,
)
    requires
        consistent(files, seeds, g),
        files.dom().finite(),
    ensures
        g.files.len() - seeds.len() <= files.dom().len(),
{
    let found = g.files.skip(seeds.len() as int);
    assert forall|i: int, j: int| 0 <= i < found.len() && 0 <= j < found.len() && i != j implies found[i] != found[j] by {
        let a = i + seeds.len();
        let b = j + seeds.len();
        if i < j {
            assert(first_at(g.files, b));
            assert(g.files[a] != g.files[b]);
        } else {
            assert(first_at(g.files, a));
            assert(g.files[b] != g.files[a]);
        }
    }
    assert(found.no_duplicates());
    found.unique_seq_to_set();
    assert forall|x: Seq<char>| found.to_set().contains(x) implies files.dom().contains(x) by {
        let i = choose|i: int| 0 <= i < found.len() && found[i] == x;
        assert(g.files[i + seeds.len()] == x);
    }
    vstd::set_lib::lemma_len_subset(found.to_set(), files.dom());
}

/// A round keeps the state consistent and leaves less to do.
pub(crate) proof fn lemma_step(
    files: Map<Seq<char>, Option<Seq<char>>>,
    seeds: Seq<Seq<char>>,
    g: Progress,
)
    requires
        consistent(files, seeds, g),
        g.pending.len() > 0,
        files.dom().finite(),
    ensures
        consistent(files, seeds, step(files, g)),
        0 <= work_left(files, seeds, step(files, g)) < work_left(files, seeds, g),
{
    let cur = g.pending.last();
    let g0 = without_last_pending(g);
    let deps = dependencies(files, cur);
    let h = step(files, g);
    let n = g.files.len() as int;
    lemma_visit_all(g0, cur, deps);
    assert(grown(g0, h, cur, deps));
    assert(g.pending[g.pending.len() - 1] == cur);
    assert(g.pending.contains(cur));
    assert(g.files.contains(cur));
    lemma_prefix_contains(g.files, h.files, cur);

    assert(h.files.take(seeds.len() as int) == seeds) by {
        assert(h.files.take(n).take(seeds.len() as int) == h.files.take(seeds.len() as int));
    }
    assert forall|f: Seq<char>| #[trigger] h.files.contains(f) implies reachable(
        files,
        seeds,
        f,
    ) by {
        let i = choose|i: int| 0 <= i < h.files.len() && h.files[i] == f;
        if i < n {
            assert(h.files.take(n)[i] == f);
            assert(g.files.contains(f));
        } else {
            assert(deps.contains(h.files[i]));
            let k = choose|k: nat| reached_in(files, seeds, cur, k);
            assert(depends_on(files, cur, f));
            assert(reached_in(files, seeds, f, k + 1));
        }
    }
    assert forall|f: Seq<char>| #[trigger] h.files.contains(f) implies h.pending.contains(f)
        || scanned(files, h, f) by {
        let i = choose|i: int| 0 <= i < h.files.len() && h.files[i] == f;
        if i < n {
            assert(h.files.take(n)[i] == f);
            assert(g.files.contains(f));
            if f == cur {
                assert(scanned(files, h, f));
            } else if g.pending.contains(f) {
                let k = choose|k: int| 0 <= k < g.pending.len() && g.pending[k] == f;
                assert(g0.pending[k] == f);
                assert(h.pending[k] == f);
            } else {
                assert(scanned(files, g, f));
                assert forall|d: Seq<char>| #[trigger] depends_on(files, f, d) implies h.files.contains(
                    d,
                ) && (base_name(f) != base_name(d) ==> h.edges.contains(edge_between(f, d))) by {
                    lemma_prefix_contains(g.files, h.files, d);
                    if base_name(f) != base_name(d) {
                        lemma_prefix_contains(g.edges, h.edges, edge_between(f, d));
                    }
                }
            }
        } else {
            assert(h.files.skip(n)[i - n] == f);
            assert(h.pending[g0.pending.len() + (i - n)] == f);
        }
    }
    assert forall|e: (Seq<char>, Seq<char>)| #[trigger] h.edges.contains(e) implies is_edge_of(
        files,
        h.files,
        e,
    ) by {
        let i = choose|i: int| 0 <= i < h.edges.len() && h.edges[i] == e;
        if i < g.edges.len() {
            assert(h.edges.take(g.edges.len() as int)[i] == e);
            assert(g.edges.contains(e));
            assert(is_edge_of(files, g.files, e));
            let (p, c) = choose|p: Seq<char>, c: Seq<char>|
                g.files.contains(p) && #[trigger] depends_on(files, p, c) && e == edge_between(
                    p,
                    c,
                );
            lemma_prefix_contains(g.files, h.files, p);
        } else {
            assert(is_edge_from(cur, deps, h.edges[i]));
            let d = choose|d: Seq<char>| #[trigger] deps.contains(d) && e == edge_between(cur, d);
            assert(depends_on(files, cur, d));
        }
    }
    assert forall|i: int, j: int| 0 <= i < h.edges.len() && 0 <= j < h.edges.len() && i
        != j implies h.edges[i] != h.edges[j] by {
        let a = if i < j { i } else { j };
        let b = if i < j { j } else { i };
        if b < g.edges.len() {
            assert(h.edges.take(g.edges.len() as int)[a] == h.edges[a]);
            assert(h.edges.take(g.edges.len() as int)[b] == h.edges[b]);
        } else {
            assert(first_at(h.edges, b));
        }
    }
    assert forall|p: Seq<char>| #[trigger] h.pending.contains(p) implies h.files.contains(p) by {
        let k = choose|k: int| 0 <= k < h.pending.len() && h.pending[k] == p;
        if k < g0.pending.len() {
            assert(g.pending[k] == p);
            assert(g.pending.contains(p));
            lemma_prefix_contains(g.files, h.files, p);
        } else {
            assert(h.files[n + (k - g0.pending.len())] == p);
        }
    }
    assert forall|i: int| seeds.len() <= i < h.files.len() implies first_at(h.files, i) by {
        if i < n {
            assert(first_at(g.files, i));
            assert forall|j: int| 0 <= j < i implies h.files[j] != h.files[i] by {
                assert(h.files.take(n)[j] == h.files[j]);
                assert(h.files.take(n)[i] == h.files[i]);
            }
        }
    }
    assert forall|i: int| seeds.len() <= i < h.files.len() implies files.dom().contains(
        #[trigger] h.files[i],
    ) by {
        if i < n {
            assert(h.files.take(n)[i] == h.files[i]);
        } else {
            assert(deps.contains(h.files[i]));
            lemma_dependency_exists(files, cur, h.files[i]);
        }
    }
    assert(h.notes.len() == h.files.len() - seeds.len());
    assert forall|i: int| 0 <= i < h.notes.len() implies is_note_on(
        files,
        h.files,
        h.files[seeds.len() + i],
        #[trigger] h.notes[i],
    ) by {
        let at = seeds.len() + i;
        if i < g.notes.len() {
            assert(h.notes.take(g.notes.len() as int)[i] == h.notes[i]);
            assert(h.files.take(n)[at] == h.files[at]);
            assert(is_note_on(files, g.files, g.files[at], g.notes[i]));
            let p = choose|p: Seq<char>|
                g.files.contains(p) && #[trigger] depends_on(files, p, g.files[at]) && g.notes[i]
                    == found_text(g.files[at], p);
            lemma_prefix_contains(g.files, h.files, p);
        } else {
            assert(deps.contains(h.files[at]));
            assert(depends_on(files, cur, h.files[at]));
            assert(h.notes[i] == found_text(h.files[n + (i - g.notes.len())], cur));
        }
    }
    assert(consistent(files, seeds, h));
    lemma_found_bounded(files, seeds, h);
}

/// Once nothing is pending, a consistent state holds the closure.
pub(crate) proof fn lemma_finished(
    files: Map<Seq<char>, Option<Seq<char>>>,
    seeds: Seq<Seq<char>>,
    g: Progress,
)
    requires
        consistent(files, seeds, g),
        g.pending.len() == 0,
    ensures
        is_closure(files, seeds, g.files, g.edges),
        closed_under_dependencies(files, g.files),
        notes_tell(files, seeds, g.files, g.notes),
        forall|e: (Seq<char>, Seq<char>)| #[trigger] g.edges.contains(e) ==> e.0 != e.1,
{
    assert forall|f: Seq<char>| #[trigger] g.files.contains(f) implies scanned(files, g, f) by {
        if g.pending.contains(f) {
            let k = choose|k: int| 0 <= k < g.pending.len() && g.pending[k] == f;
        }
    }
    assert forall|f: Seq<char>| reachable(files, seeds, f) implies g.files.contains(f) by {
        let n = choose|n: nat| reached_in(files, seeds, f, n);
        lemma_reached_is_known(files, seeds, g, f, n);
    }
    assert forall|e: (Seq<char>, Seq<char>)| is_edge_of(files, g.files, e) implies g.edges.contains(
        e,
    ) by {
        let (p, c) = choose|p: Seq<char>, c: Seq<char>|
            g.files.contains(p) && #[trigger] depends_on(files, p, c) && e == edge_between(p, c);
        assert(scanned(files, g, p));
    }
}

/// Where every known file has been scanned, every reached file is known.
proof fn lemma_reached_is_known(
    files: Map<Seq<char>, Option<Seq<char>>>,
    seeds: Seq<Seq<char>>,
    g: Progress,
    f: Seq<char>,
    n: nat,
)
    requires
        seeds.len() <= g.files.len(),
        g.files.take(seeds.len() as int) == seeds,
        forall|x: Seq<char>| #[trigger] g.files.contains(x) ==> scanned(files, g, x),
        reached_in(files, seeds, f, n),
    ensures
        g.files.contains(f),
    decreases n,
{
    if n == 0 {
        lemma_prefix_contains(seeds, g.files, f);
    } else {
        let p = choose|p: Seq<char>|
            reached_in(files, seeds, p, (n - 1) as nat) && #[trigger] depends_on(files, p, f);
        lemma_reached_is_known(files, seeds, g, p, (n - 1) as nat);
        assert(scanned(files, g, p));
    }
}

} // verus!
