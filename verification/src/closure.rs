//! The dependency closure of a set of seed files: what it is, the function
//! that computes it, and what holds of it.

use vstd::prelude::*;
use crate::paths::base_name;
use crate::resolver::edge_between;
use crate::resolver::start;
use crate::resolver::visit_all;
use crate::resolver::without_last_pending;
use crate::resolver::Progress;
use crate::resolver::Resolution;
use crate::resolver::Resolver;
use crate::scanner::dependencies;
use crate::scanner::find_dependencies;
use crate::text::texts;
use crate::trace::found_text;
use crate::tree::SourceTree;
use crate::worklist::consistent;
use crate::worklist::lemma_finished;
use crate::worklist::lemma_found_bounded;
use crate::worklist::lemma_prefix_contains;
use crate::worklist::lemma_start_consistent;
use crate::worklist::lemma_step;
use crate::worklist::work_left;

verus! {

/// Whether the file `a` depends on the file `b`.
pub open spec fn depends_on(
    files: Map<Seq<char>, Option<Seq<char>>>,
    a: Seq<char>,
    b: Seq<char>,
) -> bool {
    dependencies(files, a).contains(b)
}

/// Whether `f` is reached from one of `seeds` by following `n` dependencies.
pub open spec fn reached_in(
    files: Map<Seq<char>, Option<Seq<char>>>,
    seeds: Seq<Seq<char>>,
    f: Seq<char>,
    n: nat,
) -> bool
    decreases n,
{
    if n == 0 {
        seeds.contains(f)
    } else {
        exists|p: Seq<char>|
            reached_in(files, seeds, p, (n - 1) as nat) && #[trigger] depends_on(files, p, f)
    }
}

/// Whether `f` is a seed or is reached from one by following dependencies.
pub open spec fn reachable(
    files: Map<Seq<char>, Option<Seq<char>>>,
    seeds: Seq<Seq<char>>,
    f: Seq<char>,
) -> bool {
    exists|n: nat| reached_in(files, seeds, f, n)
}

/// Whether `e` stands for a dependency of one of `members` on a file of
/// another base name.
pub open spec fn is_edge_of(
    files: Map<Seq<char>, Option<Seq<char>>>,
    members: Seq<Seq<char>>,
    e: (Seq<char>, Seq<char>),
) -> bool {
    e.0 != e.1 && exists|p: Seq<char>, c: Seq<char>|
        members.contains(p) && #[trigger] depends_on(files, p, c) && e == edge_between(p, c)
}

/// Whether `members` holds every dependency of each of its files.
pub open spec fn closed_under_dependencies(
    files: Map<Seq<char>, Option<Seq<char>>>,
    members: Seq<Seq<char>>,
) -> bool {
    forall|f: Seq<char>, d: Seq<char>|
        members.contains(f) && #[trigger] depends_on(files, f, d) ==> members.contains(d)
}

/// Whether entry `i` of `s` differs from every entry before it.
pub open spec fn first_at<A>(s: Seq<A>, i: int) -> bool {
    forall|j: int| 0 <= j < i ==> s[j] != s[i]
}

/// Whether `members` and `edges` are the closure of `seeds` and its edges:
/// the seeds come first, as given; after them each file is listed once; the
/// files listed are exactly those reachable from the seeds; and the edges
/// are exactly those of the dependencies of listed files, each listed once.
pub open spec fn is_closure(
    files: Map<Seq<char>, Option<Seq<char>>>,
    seeds: Seq<Seq<char>>,
    members: Seq<Seq<char>>,
    edges: Seq<(Seq<char>, Seq<char>)>,
) -> bool {
    &&& seeds.len() <= members.len()
    &&& members.take(seeds.len() as int) == seeds
    &&& forall|i: int| seeds.len() <= i < members.len() ==> first_at(members, i)
    &&& forall|f: Seq<char>|
        #![trigger members.contains(f)]
        #![trigger reachable(files, seeds, f)]
        members.contains(f) <==> reachable(files, seeds, f)
    &&& forall|e: (Seq<char>, Seq<char>)|
        #![trigger edges.contains(e)]
        #![trigger is_edge_of(files, members, e)]
        edges.contains(e) <==> is_edge_of(files, members, e)
    &&& edges.no_duplicates()
}

/// Whether `note` tells that `f` was found in a file of `members` that
/// depends on it.
pub open spec fn is_note_on(
    files: Map<Seq<char>, Option<Seq<char>>>,
    members: Seq<Seq<char>>,
    f: Seq<char>,
    note: Seq<char>,
) -> bool {
    exists|p: Seq<char>|
        members.contains(p) && #[trigger] depends_on(files, p, f) && note == found_text(f, p)
}

/// Whether `notes` holds one note for each file that `members` lists after
/// the seeds, in the same order.
pub open spec fn notes_tell(
    files: Map<Seq<char>, Option<Seq<char>>>,
    seeds: Seq<Seq<char>>,
    members: Seq<Seq<char>>,
    notes: Seq<Seq<char>>,
) -> bool {
    &&& notes.len() == members.len() - seeds.len()
    &&& forall|i: int|
        0 <= i < notes.len() ==> is_note_on(
            files,
            members,
            members[seeds.len() + i],
            #[trigger] notes[i],
        )
}

/// One round of the worklist: the most recently added pending file is taken
/// off the list and its dependencies are visited.
pub open spec fn step(files: Map<Seq<char>, Option<Seq<char>>>, g: Progress) -> Progress {
    if g.pending.len() == 0 {
        g
    } else {
        visit_all(without_last_pending(g), g.pending.last(), dependencies(files, g.pending.last()))
    }
}

/// The state after `n` rounds.
pub open spec fn run(files: Map<Seq<char>, Option<Seq<char>>>, g: Progress, n: nat) -> Progress
    decreases n,
{
    if n == 0 {
        g
    } else {
        step(files, run(files, g, (n - 1) as nat))
    }
}

/// Whether `g` is the state in which the worklist, started from `seeds`,
/// comes to rest.
pub open spec fn is_outcome(
    files: Map<Seq<char>, Option<Seq<char>>>,
    seeds: Seq<Seq<char>>,
    g: Progress,
) -> bool {
    g.pending.len() == 0 && exists|n: nat| run(files, start(seeds), n) == g
}

/// Resolves `seeds` against the files of `tree`. Round by round, the most
/// recently added pending file is scanned and its dependencies are visited,
/// until no file is pending. The result is the closure of the seeds, with
/// the edges between its files and a note on each file found: every
/// dependency of a file in it is in it, no edge is listed twice, and none
/// joins a name to itself.
pub fn resolve(seeds: Vec<String>, tree: &SourceTree) -> (r: Resolution)
    ensures
        is_outcome(tree@, texts(seeds@), r@),
        is_closure(tree@, texts(seeds@), r@.files, r@.edges),
        closed_under_dependencies(tree@, r@.files),
        notes_tell(tree@, texts(seeds@), r@.files, r@.notes),
        r@.edges.no_duplicates(),
        forall|e: (Seq<char>, Seq<char>)| #[trigger] r@.edges.contains(e) ==> e.0 != e.1,
{
    let ghost seed_texts = texts(seeds@);
    let ghost mut rounds: nat = 0;
    let mut state = Resolver::new(seeds);
    proof {
        lemma_start_consistent(tree@, seed_texts);
        tree.lemma_finite();
        lemma_found_bounded(tree@, seed_texts, state@);
    }
    while !state.is_done()
        invariant
            tree@.dom().finite(),
            consistent(tree@, seed_texts, state@),
            state@ == run(tree@, start(seed_texts), rounds),
            0 <= work_left(tree@, seed_texts, state@),
        decreases work_left(tree@, seed_texts, state@),
    {
        let ghost before = state@;
        proof {
            lemma_step(tree@, seed_texts, before);
        }
        if let Some(current) = state.next_file() {
            let deps = find_dependencies(current.as_str(), tree);
            state.record(current.as_str(), &deps);
            proof {
                rounds = rounds + 1;
                assert(state@ == step(tree@, before));
            }
        }
    }
    let ghost last = state@;
    proof {
        lemma_finished(tree@, seed_texts, last);
        assert(last.pending == Seq::<Seq<char>>::empty());
    }
    let r = state.finish();
    assert(r@ == last);
    r
}

/// A closure holds every dependency of each of its files, no edge twice,
/// and no edge from a name to itself.
pub proof fn lemma_closure_is_closed(
    files: Map<Seq<char>, Option<Seq<char>>>,
    seeds: Seq<Seq<char>>,
    members: Seq<Seq<char>>,
    edges: Seq<(Seq<char>, Seq<char>)>,
)
    requires
        is_closure(files, seeds, members, edges),
    ensures
        closed_under_dependencies(files, members),
        forall|f: Seq<char>| seeds.contains(f) ==> members.contains(f),
        edges.no_duplicates(),
        forall|e: (Seq<char>, Seq<char>)| #[trigger] edges.contains(e) ==> e.0 != e.1,
{
    assert forall|f: Seq<char>, d: Seq<char>|
        members.contains(f) && #[trigger] depends_on(files, f, d) implies members.contains(d) by {
        assert(reachable(files, seeds, f));
        let n = choose|n: nat| reached_in(files, seeds, f, n);
        assert(reached_in(files, seeds, d, n + 1));
        assert(reachable(files, seeds, d));
    }
    assert forall|f: Seq<char>| seeds.contains(f) implies members.contains(f) by {
        lemma_prefix_contains(seeds, members, f);
    }
    assert forall|e: (Seq<char>, Seq<char>)| #[trigger] edges.contains(e) implies e.0 != e.1 by {
        assert(is_edge_of(files, members, e));
    }
}

/// Two closures of the same seeds over the same files hold the same files
/// and the same edges, in whatever order each lists them.
pub proof fn lemma_closure_unique(
    files: Map<Seq<char>, Option<Seq<char>>>,
    seeds: Seq<Seq<char>>,
    members_a: Seq<Seq<char>>,
    edges_a: Seq<(Seq<char>, Seq<char>)>,
    members_b: Seq<Seq<char>>,
    edges_b: Seq<(Seq<char>, Seq<char>)>,
)
    requires
        is_closure(files, seeds, members_a, edges_a),
        is_closure(files, seeds, members_b, edges_b),
    ensures
        members_a.to_set() == members_b.to_set(),
        edges_a.to_set() == edges_b.to_set(),
{
    assert forall|f: Seq<char>| members_a.contains(f) <==> members_b.contains(f) by {
        assert(members_a.contains(f) <==> reachable(files, seeds, f));
        assert(members_b.contains(f) <==> reachable(files, seeds, f));
    }
    assert(members_a.to_set() =~= members_b.to_set());
    assert forall|e: (Seq<char>, Seq<char>)| edges_a.contains(e) <==> edges_b.contains(e) by {
        assert(edges_a.contains(e) <==> is_edge_of(files, members_a, e));
        assert(edges_b.contains(e) <==> is_edge_of(files, members_b, e));
        if is_edge_of(files, members_a, e) {
            let (p, c) = choose|p: Seq<char>, c: Seq<char>|
                members_a.contains(p) && #[trigger] depends_on(files, p, c) && e == edge_between(
                    p,
                    c,
                );
            assert(members_b.contains(p));
        }
        if is_edge_of(files, members_b, e) {
            let (p, c) = choose|p: Seq<char>, c: Seq<char>|
                members_b.contains(p) && #[trigger] depends_on(files, p, c) && e == edge_between(
                    p,
                    c,
                );
            assert(members_a.contains(p));
        }
    }
    assert(edges_a.to_set() =~= edges_b.to_set());
}

/// Every resolution over finitely many files comes to rest: after some
/// number of rounds nothing is pending, whatever the files declare, and
/// also where they name each other in a circle.
pub proof fn lemma_resolution_ends(
    files: Map<Seq<char>, Option<Seq<char>>>,
    seeds: Seq<Seq<char>>,
) -> (n: nat)
    requires
        files.dom().finite(),
    ensures
        run(files, start(seeds), n).pending.len() == 0,
        is_outcome(files, seeds, run(files, start(seeds), n)),
{
    lemma_start_consistent(files, seeds);
    lemma_ends_after(files, seeds, 0)
}

/// A resolution that is consistent after `k` rounds comes to rest.
proof fn lemma_ends_after(
    files: Map<Seq<char>, Option<Seq<char>>>,
    seeds: Seq<Seq<char>>,
    k: nat,
) -> (n: nat)
    requires
        files.dom().finite(),
        consistent(files, seeds, run(files, start(seeds), k)),
    ensures
        run(files, start(seeds), n).pending.len() == 0,
    decreases work_left(files, seeds, run(files, start(seeds), k)),
{
    let g = run(files, start(seeds), k);
    if g.pending.len() == 0 {
        k
    } else {
        lemma_step(files, seeds, g);
        assert(run(files, start(seeds), k + 1) == step(files, g));
        lemma_ends_after(files, seeds, k + 1)
    }
}

/// Resolving the same seeds over the same files again ends in the same
/// state: the same files and the same edges, in the same order.
pub proof fn lemma_resolution_repeatable(
    files: Map<Seq<char>, Option<Seq<char>>>,
    seeds: Seq<Seq<char>>,
    a: Progress,
    b: Progress,
)
    requires
        is_outcome(files, seeds, a),
        is_outcome(files, seeds, b),
    ensures
        a == b,
{
    let n = choose|n: nat| run(files, start(seeds), n) == a;
    let m = choose|m: nat| run(files, start(seeds), m) == b;
    if n <= m {
        lemma_run_settles(files, start(seeds), n, m);
    } else {
        lemma_run_settles(files, start(seeds), m, n);
    }
}

/// Once nothing is pending, further rounds change nothing.
proof fn lemma_run_settles(
    files: Map<Seq<char>, Option<Seq<char>>>,
    g: Progress,
    n: nat,
    m: nat,
)
    requires
        run(files, g, n).pending.len() == 0,
        n <= m,
    ensures
        run(files, g, m) == run(files, g, n),
    decreases m,
{
    if n < m {
        lemma_run_settles(files, g, n, (m - 1) as nat);
    }
}

/// Where two files each depend on the other and on nothing else, the
/// closure of the first holds just the two, with an edge each way where
/// their base names differ.
pub proof fn lemma_cycle_of_two(
    files: Map<Seq<char>, Option<Seq<char>>>,
    a: Seq<char>,
    b: Seq<char>,
    members: Seq<Seq<char>>,
    edges: Seq<(Seq<char>, Seq<char>)>,
)
    requires
        dependencies(files, a) == seq![b],
        dependencies(files, b) == seq![a],
        is_closure(files, seq![a], members, edges),
    ensures
        forall|f: Seq<char>| #[trigger] members.contains(f) <==> f == a || f == b,
        forall|e: (Seq<char>, Seq<char>)| #[trigger]
            edges.contains(e) <==> base_name(a) != base_name(b) && (e == edge_between(a, b) || e
                == edge_between(b, a)),
{
    let seeds = seq![a];
    assert(seeds[0] == a);
    assert(seq![b][0] == b);
    assert(seq![a][0] == a);
    assert(reached_in(files, seeds, a, 0));
    assert(depends_on(files, a, b));
    assert(depends_on(files, b, a));
    assert(reached_in(files, seeds, b, 1));
    assert(reachable(files, seeds, a));
    assert(reachable(files, seeds, b));
    assert forall|f: Seq<char>| #[trigger] members.contains(f) implies f == a || f == b by {
        assert(reachable(files, seeds, f));
        let n = choose|n: nat| reached_in(files, seeds, f, n);
        lemma_cycle_reach(files, a, b, f, n);
    }
    assert forall|e: (Seq<char>, Seq<char>)| #[trigger] edges.contains(e) implies base_name(a)
        != base_name(b) && (e == edge_between(a, b) || e == edge_between(b, a)) by {
        assert(is_edge_of(files, members, e));
        let (p, c) = choose|p: Seq<char>, c: Seq<char>|
            members.contains(p) && #[trigger] depends_on(files, p, c) && e == edge_between(p, c);
        assert(p == a || p == b);
    }
    if base_name(a) != base_name(b) {
        assert(members.contains(a));
        assert(members.contains(b));
        assert(is_edge_of(files, members, edge_between(a, b)));
        assert(is_edge_of(files, members, edge_between(b, a)));
    }
}

/// In a cycle of two files, what is reached from the first is one of the two.
proof fn lemma_cycle_reach(
    files: Map<Seq<char>, Option<Seq<char>>>,
    a: Seq<char>,
    b: Seq<char>,
    f: Seq<char>,
    n: nat,
)
    requires
        dependencies(files, a) == seq![b],
        dependencies(files, b) == seq![a],
        reached_in(files, seq![a], f, n),
    ensures
        f == a || f == b,
    decreases n,
{
    if n > 0 {
        let p = choose|p: Seq<char>|
            reached_in(files, seq![a], p, (n - 1) as nat) && #[trigger] depends_on(files, p, f);
        lemma_cycle_reach(files, a, b, p, (n - 1) as nat);
    }
}

} // verus!
