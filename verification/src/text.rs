//! Text primitives: the order on strings and character-level access.

use vstd::prelude::*;
use vstd::utf8::encode_utf8;
use vstd::utf8::encode_utf8_decode_utf8;

verus! {

/// How one string stands relative to another in the byte-wise order.
#[derive(Clone, Copy, Debug, PartialEq, Eq, Structural)]
pub enum Order {
    Before,
    Same,
    After,
}

/// Strict lexicographic order on byte sequences: `a` comes before `b` when, at
/// the first position where they differ, `a` has the smaller byte, or when `a`
/// is a proper prefix of `b`.
pub open spec fn bytes_before(a: Seq<u8>, b: Seq<u8>) -> bool {
    exists|k: int| #[trigger] differs_at(a, b, k)
}

/// `k` is a position up to which `a` and `b` agree and at which `a` is smaller.
pub open spec fn differs_at(a: Seq<u8>, b: Seq<u8>, k: int) -> bool {
    &&& 0 <= k <= a.len()
    &&& k < b.len()
    &&& a.subrange(0, k) == b.subrange(0, k)
    &&& (k == a.len() || a[k] < b[k])
}

/// The order in which strings are listed: lexicographic on their UTF-8 bytes.
pub open spec fn precedes(a: Seq<char>, b: Seq<char>) -> bool {
    bytes_before(encode_utf8(a), encode_utf8(b))
}

/// The contents of a list of strings.
pub open spec fn texts(v: Seq<String>) -> Seq<Seq<char>> {
    Seq::new(v.len(), |i: int| v[i]@)
}

/// The characters of a string.
pub fn chars_of(s: &str) -> (r: Vec<char>)
    ensures
        r@ == s@,
{
    let mut out: Vec<char> = Vec::new();
    for c in it: s.chars()
        invariant
            it.seq() == s@,
            out@ == s@.take(it.index() as int),
    {
        out.push(c);
        proof {
            assert(s@.take(it.index() + 1) == s@.take(it.index() as int).push(c));
        }
    }
    proof {
        assert(s@.take(s@.len() as int) == s@);
    }
    out
}

/// Compares two strings byte by byte.
pub fn compare(a: &str, b: &str) -> (r: Order)
    ensures
        r == Order::Before <==> precedes(a@, b@),
        r == Order::Same <==> a@ == b@,
        r == Order::After <==> precedes(b@, a@),
{
    let x = a.as_bytes();
    let y = b.as_bytes();
    let n = x.len();
    let m = y.len();
    let mut i: usize = 0;
    while i < n && i < m
        invariant
            n == x@.len(),
            m == y@.len(),
            i <= n,
            i <= m,
            x@.subrange(0, i as int) == y@.subrange(0, i as int),
            x@ == encode_utf8(a@),
            y@ == encode_utf8(b@),
        decreases n - i,
    {
        if x[i] < y[i] {
            proof {
                assert(differs_at(x@, y@, i as int));
                lemma_before_excludes(x@, y@);
            }
            return Order::Before;
        }
        if y[i] < x[i] {
            proof {
                assert(differs_at(y@, x@, i as int));
                lemma_before_excludes(y@, x@);
            }
            return Order::After;
        }
        proof {
            assert(x@.subrange(0, i + 1) == x@.subrange(0, i as int).push(x@[i as int]));
            assert(y@.subrange(0, i + 1) == y@.subrange(0, i as int).push(y@[i as int]));
        }
        i += 1;
    }
    if i < m {
        proof {
            assert(differs_at(x@, y@, i as int));
            lemma_before_excludes(x@, y@);
        }
        Order::Before
    } else if i < n {
        proof {
            assert(differs_at(y@, x@, i as int));
            lemma_before_excludes(y@, x@);
        }
        Order::After
    } else {
        proof {
            assert(x@ == x@.subrange(0, i as int));
            assert(y@ == y@.subrange(0, i as int));
            encode_utf8_decode_utf8(a@);
            encode_utf8_decode_utf8(b@);
            lemma_before_irreflexive(x@);
        }
        Order::Same
    }
}

/// No byte sequence comes before itself.
pub proof fn lemma_before_irreflexive(a: Seq<u8>)
    ensures
        !bytes_before(a, a),
{
}

/// If `a` comes before `b`, then the two differ and `b` does not come before `a`.
pub proof fn lemma_before_excludes(a: Seq<u8>, b: Seq<u8>)
    requires
        bytes_before(a, b),
    ensures
        a != b,
        !bytes_before(b, a),
{
    let k = choose|k: int| differs_at(a, b, k);
    if bytes_before(b, a) {
        let j = choose|j: int| differs_at(b, a, j);
        if j < k {
            assert(a.subrange(0, k)[j] == b.subrange(0, k)[j]);
        } else if k < j {
            assert(a.subrange(0, j)[k] == b.subrange(0, j)[k]);
        }
    }
}

/// The byte-wise order is transitive.
pub proof fn lemma_before_transitive(a: Seq<u8>, b: Seq<u8>, c: Seq<u8>)
    requires
        bytes_before(a, b),
        bytes_before(b, c),
    ensures
        bytes_before(a, c),
{
    let i = choose|i: int| differs_at(a, b, i);
    let j = choose|j: int| differs_at(b, c, j);
    let k = if i <= j { i } else { j };
    assert forall|x: int| 0 <= x < k implies a[x] == c[x] by {
        assert(a.subrange(0, i)[x] == b.subrange(0, i)[x]);
        assert(b.subrange(0, j)[x] == c.subrange(0, j)[x]);
    }
    assert(a.subrange(0, k) =~= c.subrange(0, k));
    if i < j {
        assert(b.subrange(0, j)[i] == c.subrange(0, j)[i]);
    } else if j < i {
        assert(a.subrange(0, i)[j] == b.subrange(0, i)[j]);
    }
    assert(differs_at(a, c, k));
}

/// Whether each entry of `s` comes before every later one.
pub open spec fn strictly_increasing(s: Seq<Seq<char>>) -> bool {
    forall|i: int, j: int| 0 <= i < j < s.len() ==> precedes(#[trigger] s[i], #[trigger] s[j])
}

/// Whether `order` lists what `items` holds, each string once, in
/// increasing order.
pub open spec fn is_sorted_listing(items: Seq<Seq<char>>, order: Seq<Seq<char>>) -> bool {
    &&& strictly_increasing(order)
    &&& forall|x: Seq<char>|
        #![trigger order.contains(x)]
        #![trigger items.contains(x)]
        order.contains(x) <==> items.contains(x)
}

/// The strings of `items`, each once, in increasing order.
pub open spec fn listing(items: Seq<Seq<char>>) -> Seq<Seq<char>> {
    choose|order: Seq<Seq<char>>| is_sorted_listing(items, order)
}

/// Of two different byte sequences one comes before the other.
pub proof fn lemma_before_total(a: Seq<u8>, b: Seq<u8>)
    requires
        a != b,
    ensures
        bytes_before(a, b) || bytes_before(b, a),
{
    assert(a.subrange(0, 0) =~= b.subrange(0, 0));
    lemma_common_prefix(a, b, 0);
}

/// Two byte sequences that agree up to `k` are equal or ordered.
proof fn lemma_common_prefix(a: Seq<u8>, b: Seq<u8>, k: int)
    requires
        0 <= k <= a.len(),
        k <= b.len(),
        a.subrange(0, k) == b.subrange(0, k),
    ensures
        a == b || bytes_before(a, b) || bytes_before(b, a),
    decreases a.len() - k,
{
    if k == a.len() {
        if k == b.len() {
            assert(a.subrange(0, k) == a);
            assert(b.subrange(0, k) == b);
        } else {
            assert(differs_at(a, b, k));
        }
    } else if k == b.len() {
        assert(differs_at(b, a, k));
    } else if a[k] < b[k] {
        assert(differs_at(a, b, k));
    } else if b[k] < a[k] {
        assert(differs_at(b, a, k));
    } else {
        assert(a.subrange(0, k + 1) == a.subrange(0, k).push(a[k]));
        assert(b.subrange(0, k + 1) == b.subrange(0, k).push(b[k]));
        lemma_common_prefix(a, b, k + 1);
    }
}

/// Of two different strings one precedes the other.
pub proof fn lemma_precedes_total(a: Seq<char>, b: Seq<char>)
    requires
        a != b,
    ensures
        precedes(a, b) || precedes(b, a),
{
    encode_utf8_decode_utf8(a);
    encode_utf8_decode_utf8(b);
    lemma_before_total(encode_utf8(a), encode_utf8(b));
}

/// Every list has a sorted listing, and `listing` is it.
pub proof fn lemma_listing(items: Seq<Seq<char>>)
    ensures
        is_sorted_listing(items, listing(items)),
    decreases items.len(),
{
    if items.len() == 0 {
        let none = Seq::<Seq<char>>::empty();
        assert(is_sorted_listing(items, none));
    } else {
        let front = items.drop_last();
        let x = items.last();
        let o = listing(front);
        lemma_listing(front);
        assert(items[items.len() - 1] == x);
        assert forall|y: Seq<char>| front.contains(y) implies items.contains(y) by {
            let k = choose|k: int| 0 <= k < front.len() && front[k] == y;
            assert(items[k] == y);
        }
        assert forall|y: Seq<char>| items.contains(y) implies front.contains(y) || y == x by {
            let k = choose|k: int| 0 <= k < items.len() && items[k] == y;
            if k < front.len() {
                assert(front[k] == y);
            }
        }
        if o.contains(x) {
            assert(is_sorted_listing(items, o));
        } else {
            let p = lemma_place(o, x);
            let w = o.insert(p, x);
            assert(w[p] == x);
            assert forall|i: int, j: int| 0 <= i < j < w.len() implies precedes(
                #[trigger] w[i],
                #[trigger] w[j],
            ) by {
                if j < p {
                    assert(precedes(o[i], o[j]));
                } else if j == p {
                    assert(precedes(o[i], x));
                } else if i == p {
                    assert(precedes(x, o[j - 1]));
                } else if i < p {
                    assert(precedes(o[i], o[j - 1]));
                } else {
                    assert(precedes(o[i - 1], o[j - 1]));
                }
            }
            assert forall|y: Seq<char>| o.contains(y) implies w.contains(y) by {
                let k = choose|k: int| 0 <= k < o.len() && o[k] == y;
                if k < p {
                    assert(w[k] == y);
                } else {
                    assert(w[k + 1] == y);
                }
            }
            assert forall|y: Seq<char>| w.contains(y) implies o.contains(y) || y == x by {
                let k = choose|k: int| 0 <= k < w.len() && w[k] == y;
                if k < p {
                    assert(o[k] == y);
                } else if k > p {
                    assert(o[k - 1] == y);
                }
            }
            assert(is_sorted_listing(items, w));
        }
    }
}

/// The place of a string `x` in an increasing list that does not hold it:
/// the entries before that place precede `x`, and `x` precedes the others.
proof fn lemma_place(o: Seq<Seq<char>>, x: Seq<char>) -> (p: int)
    requires
        strictly_increasing(o),
        !o.contains(x),
    ensures
        0 <= p <= o.len(),
        forall|k: int| 0 <= k < p ==> precedes(#[trigger] o[k], x),
        forall|k: int| p <= k < o.len() ==> precedes(x, #[trigger] o[k]),
    decreases o.len(),
{
    if o.len() == 0 {
        0
    } else {
        let last = o.len() - 1;
        assert(o[last] != x);
        lemma_precedes_total(o[last], x);
        if precedes(o[last], x) {
            assert forall|k: int| 0 <= k < o.len() implies precedes(#[trigger] o[k], x) by {
                if k < last {
                    assert(precedes(o[k], o[last]));
                    lemma_before_transitive(encode_utf8(o[k]), encode_utf8(o[last]), encode_utf8(x));
                }
            }
            o.len() as int
        } else {
            let front = o.drop_last();
            assert forall|i: int, j: int| 0 <= i < j < front.len() implies precedes(
                #[trigger] front[i],
                #[trigger] front[j],
            ) by {
                assert(precedes(o[i], o[j]));
            }
            if front.contains(x) {
                let k = choose|k: int| 0 <= k < front.len() && front[k] == x;
                assert(o[k] == x);
            }
            let p = lemma_place(front, x);
            assert forall|k: int| 0 <= k < p implies precedes(#[trigger] o[k], x) by {
                assert(precedes(front[k], x));
            }
            assert forall|k: int| p <= k < o.len() implies precedes(x, #[trigger] o[k]) by {
                if k < last {
                    assert(precedes(x, front[k]));
                }
            }
            p
        }
    }
}

/// Lists that hold the same strings have the same sorted listing, in
/// whatever order and however often they hold them.
pub proof fn lemma_listing_ignores_order(a: Seq<Seq<char>>, b: Seq<Seq<char>>)
    requires
        forall|x: Seq<char>|
            #![trigger a.contains(x)]
            #![trigger b.contains(x)]
            a.contains(x) <==> b.contains(x),
    ensures
        listing(a) == listing(b),
{
    lemma_listing(a);
    lemma_listing(b);
    let la = listing(a);
    let lb = listing(b);
    assert forall|x: Seq<char>|
        #![trigger la.contains(x)]
        #![trigger lb.contains(x)]
        la.contains(x) <==> lb.contains(x) by {
        assert(la.contains(x) <==> a.contains(x));
        assert(lb.contains(x) <==> b.contains(x));
    }
    lemma_increasing_unique(la, lb);
}

/// Two increasing lists that hold the same strings are the same list.
pub proof fn lemma_increasing_unique(a: Seq<Seq<char>>, b: Seq<Seq<char>>)
    requires
        strictly_increasing(a),
        strictly_increasing(b),
        forall|x: Seq<char>|
            #![trigger a.contains(x)]
            #![trigger b.contains(x)]
            a.contains(x) <==> b.contains(x),
    ensures
        a == b,
    decreases a.len(),
{
    if a.len() == 0 {
        if b.len() > 0 {
            assert(b.contains(b[0]));
        }
        assert(a =~= b);
    } else if b.len() == 0 {
        assert(a.contains(a[0]));
    } else {
        // The first entries agree: each is the least of what both lists hold.
        assert(a.contains(a[0]));
        assert(b.contains(b[0]));
        let i = choose|i: int| 0 <= i < b.len() && b[i] == a[0];
        let j = choose|j: int| 0 <= j < a.len() && a[j] == b[0];
        if i > 0 && j > 0 {
            assert(precedes(b[0], b[i]));
            assert(precedes(a[0], a[j]));
            lemma_before_excludes(
                encode_utf8(a[0]),
                encode_utf8(b[0]),
            );
        }
        if i > 0 && j == 0 {
            assert(precedes(b[0], b[i]));
            lemma_before_irreflexive(encode_utf8(a[0]));
        }
        if i == 0 && j > 0 {
            assert(precedes(a[0], a[j]));
            lemma_before_irreflexive(encode_utf8(a[0]));
        }
        assert(a[0] == b[0]);
        let ra = a.drop_first();
        let rb = b.drop_first();
        assert forall|x: Seq<char>|
            #![trigger ra.contains(x)]
            #![trigger rb.contains(x)]
            ra.contains(x) <==> rb.contains(x) by {
            if ra.contains(x) {
                let k = choose|k: int| 0 <= k < ra.len() && ra[k] == x;
                assert(a[k + 1] == x);
                assert(precedes(a[0], a[k + 1]));
                lemma_before_irreflexive(encode_utf8(x));
                assert(a.contains(x));
                let m = choose|m: int| 0 <= m < b.len() && b[m] == x;
                assert(rb[m - 1] == x);
            }
            if rb.contains(x) {
                let k = choose|k: int| 0 <= k < rb.len() && rb[k] == x;
                assert(b[k + 1] == x);
                assert(precedes(b[0], b[k + 1]));
                lemma_before_irreflexive(encode_utf8(x));
                assert(b.contains(x));
                let m = choose|m: int| 0 <= m < a.len() && a[m] == x;
                assert(ra[m - 1] == x);
            }
        }
        assert forall|p: int, q: int| 0 <= p < q < ra.len() implies precedes(
            #[trigger] ra[p],
            #[trigger] ra[q],
        ) by {
            assert(precedes(a[p + 1], a[q + 1]));
        }
        assert forall|p: int, q: int| 0 <= p < q < rb.len() implies precedes(
            #[trigger] rb[p],
            #[trigger] rb[q],
        ) by {
            assert(precedes(b[p + 1], b[q + 1]));
        }
        lemma_increasing_unique(ra, rb);
        assert(a =~= seq![a[0]] + ra);
        assert(b =~= seq![b[0]] + rb);
    }
}

/// Where `item` stands in the increasing list `list`: the number of entries
/// that come before it, and whether the list holds it.
fn place_of(list: &Vec<String>, item: &str) -> (r: (usize, bool))
    ensures
        r.0 <= list@.len(),
        forall|k: int| 0 <= k < r.0 ==> precedes(#[trigger] texts(list@)[k], item@),
        r.1 ==> r.0 < list@.len() && texts(list@)[r.0 as int] == item@,
        !r.1 && r.0 < list@.len() ==> precedes(item@, texts(list@)[r.0 as int]),
{
    let mut pos: usize = 0;
    while pos < list.len()
        invariant
            pos <= list@.len(),
            forall|k: int| 0 <= k < pos ==> precedes(#[trigger] texts(list@)[k], item@),
        decreases list@.len() - pos,
    {
        match compare(item, list[pos].as_str()) {
            Order::Before => {
                return (pos, false);
            },
            Order::Same => {
                return (pos, true);
            },
            Order::After => {},
        }
        pos += 1;
    }
    (pos, false)
}

/// The strings of `list`, each once, in increasing order.
pub fn sorted_unique(list: &Vec<String>) -> (r: Vec<String>)
    ensures
        is_sorted_listing(texts(list@), texts(r@)),
        texts(r@) == listing(texts(list@)),
{
    let mut out: Vec<String> = Vec::new();
    let mut i: usize = 0;
    while i < list.len()
        invariant
            i <= list@.len(),
            is_sorted_listing(texts(list@).take(i as int), texts(out@)),
        decreases list@.len() - i,
    {
        let item = &list[i];
        let ghost before = texts(out@);
        let ghost seen = texts(list@).take(i as int);
        let ghost next = texts(list@).take(i + 1);
        proof {
            assert(next == seen.push(item@));
            assert(next[i as int] == item@);
            assert forall|x: Seq<char>| seen.contains(x) implies next.contains(x) by {
                let k = choose|k: int| 0 <= k < seen.len() && seen[k] == x;
                assert(next[k] == x);
            }
            assert forall|x: Seq<char>| next.contains(x) implies seen.contains(x) || x
                == item@ by {
                let k = choose|k: int| 0 <= k < next.len() && next[k] == x;
                if k < seen.len() {
                    assert(seen[k] == x);
                }
            }
        }
        let (pos, held) = place_of(&out, item.as_str());
        if held {
            proof {
                assert(before.contains(item@));
            }
        } else {
            out.insert(pos, item.clone());
            proof {
                let after = texts(out@);
                assert(after =~= before.insert(pos as int, item@));
                assert(after[pos as int] == item@);
                assert forall|p: int, q: int| 0 <= p < q < after.len() implies precedes(
                    #[trigger] after[p],
                    #[trigger] after[q],
                ) by {
                    if q < pos {
                        assert(precedes(before[p], before[q]));
                    } else if q == pos {
                        assert(precedes(before[p], item@));
                    } else if p == pos {
                        if q - 1 > pos {
                            assert(precedes(before[pos as int], before[q - 1]));
                            lemma_before_transitive(
                                encode_utf8(item@),
                                encode_utf8(before[pos as int]),
                                encode_utf8(before[q - 1]),
                            );
                        }
                    } else if p < pos {
                        assert(precedes(before[p], before[q - 1]));
                    } else {
                        assert(precedes(before[p - 1], before[q - 1]));
                    }
                }
                assert forall|x: Seq<char>| before.contains(x) implies after.contains(x) by {
                    let k = choose|k: int| 0 <= k < before.len() && before[k] == x;
                    if k < pos {
                        assert(after[k] == x);
                    } else {
                        assert(after[k + 1] == x);
                    }
                }
                assert forall|x: Seq<char>| after.contains(x) implies before.contains(x) || x
                    == item@ by {
                    let k = choose|k: int| 0 <= k < after.len() && after[k] == x;
                    if k < pos {
                        assert(before[k] == x);
                    } else if k > pos {
                        assert(before[k - 1] == x);
                    }
                }
            }
        }
        i += 1;
    }
    proof {
        assert(texts(list@).take(i as int) == texts(list@));
        lemma_increasing_unique(texts(out@), listing(texts(list@)));
    }
    out
}

} // verus!
