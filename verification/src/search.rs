//! The depth-bounded breadth-first search over word chains: it explores
//! chains level by level and reports chains whose words together use at
//! least `ALPHABET_LEN` distinct letters.

use vstd::prelude::*;
use crate::words::Word;
use crate::words::strictly_sorted;
use crate::words::insert_sorted_unique;
use crate::chain_graph::graph_wf;
use crate::chain_graph::word_ok;
use crate::chain_graph::first_index;
use crate::chain_graph::last_index;
use crate::chain_graph::last_bucket;

verus! {

/// The number of distinct letters a chain must use to count as covering the
/// alphabet.
pub const ALPHABET_LEN: usize = 12;

/// `p` is a word chain over `words`: a non-empty sequence of in-range word
/// indices in which each word begins with the letter the previous word ends
/// with.
pub open spec fn path_valid(words: Seq<Word>, p: Seq<usize>) -> bool {
    &&& p.len() >= 1
    &&& forall|k: int| 0 <= k < p.len() ==> (#[trigger] p[k]) < words.len()
    &&& forall|k: int| #![trigger p[k]] 0 <= k < p.len() - 1
            ==> last_index(words[p[k] as int]) == first_index(words[p[k + 1] as int])
}

/// The union of the distinct-letter sets of the words of `p`.
pub open spec fn coverage(words: Seq<Word>, p: Seq<usize>) -> Set<char>
    decreases p.len(),
{
    if p.len() == 0 {
        Set::empty()
    } else {
        coverage(words, p.drop_last()).union(words[p.last() as int].letters())
    }
}

/// The chain's words together use at least `ALPHABET_LEN` distinct letters.
pub open spec fn covers(words: Seq<Word>, p: Seq<usize>) -> bool {
    coverage(words, p).len() >= ALPHABET_LEN
}

/// No prefix of `p` of length 1 to `upto` covers the alphabet.
pub open spec fn no_cover_prefix(words: Seq<Word>, p: Seq<usize>, upto: int) -> bool {
    forall|t: int| 1 <= t <= upto ==> !covers(words, #[trigger] p.take(t))
}

/// `p` is a covering chain none of whose proper prefixes covers: the form in
/// which every covering chain is first discovered by the search.
pub open spec fn min_cover(words: Seq<Word>, p: Seq<usize>) -> bool {
    &&& path_valid(words, p)
    &&& covers(words, p)
    &&& no_cover_prefix(words, p, p.len() - 1)
}

/// A prefix of a valid chain is a valid chain.
pub proof fn lemma_prefix_valid(words: Seq<Word>, p: Seq<usize>, t: int)
    requires
        path_valid(words, p),
        1 <= t <= p.len(),
    ensures
        path_valid(words, p.take(t)),
{
}

/// Every covering chain has a prefix that is a minimal covering chain: it
/// covers and no proper prefix of it covers.
pub proof fn lemma_min_cover_prefix(words: Seq<Word>, p: Seq<usize>)
    requires
        path_valid(words, p),
        covers(words, p),
    ensures
        exists|t: int| 1 <= t <= p.len() && min_cover(words, #[trigger] p.take(t)),
    decreases p.len(),
{
    if no_cover_prefix(words, p, p.len() - 1) {
        let t = p.len() as int;
        assert(p.take(t) =~= p);
        assert(min_cover(words, p.take(t)));
    } else {
        let t0 = choose|t0: int| 1 <= t0 <= p.len() - 1 && covers(words, #[trigger] p.take(t0));
        lemma_prefix_valid(words, p, t0);
        lemma_min_cover_prefix(words, p.take(t0));
        let t = choose|t: int| 1 <= t <= t0 && min_cover(words, #[trigger] p.take(t0).take(t));
        assert(p.take(t0).take(t) =~= p.take(t));
        assert(min_cover(words, p.take(t)));
    }
}

/// In an empty word set there is no valid chain at all.
pub proof fn lemma_empty_wordset_has_no_path(words: Seq<Word>, p: Seq<usize>)
    requires
        words.len() == 0,
    ensures
        !path_valid(words, p),
{
    if path_valid(words, p) {
        assert(p[0] < words.len());
    }
}

/// Collects the distinct letters used along `path`, as a strictly sorted
/// vector.
fn path_coverage(words: &Vec<Word>, path: &Vec<usize>) -> (r: Vec<char>)
    requires
        forall|i: int| 0 <= i < words@.len() ==> (#[trigger] words@[i]).wf(),
        forall|k: int| 0 <= k < path@.len() ==> (#[trigger] path@[k]) < words@.len(),
    ensures
        strictly_sorted(r@),
        r@.to_set() == coverage(words@, path@),
{
    let mut acc: Vec<char> = Vec::new();
    let mut t: usize = 0;
    proof {
        assert(acc@.to_set() =~= coverage(words@, path@.take(0)));
    }
    while t < path.len()
        invariant
            0 <= t <= path@.len(),
            forall|i: int| 0 <= i < words@.len() ==> (#[trigger] words@[i]).wf(),
            forall|k: int| 0 <= k < path@.len() ==> (#[trigger] path@[k]) < words@.len(),
            strictly_sorted(acc@),
            acc@.to_set() == coverage(words@, path@.take(t as int)),
        decreases path@.len() - t,
    {
        let w: &Word = &words[path[t]];
        let ghost start: Set<char> = acc@.to_set();
        let mut j: usize = 0;
        while j < w.unique_letters.len()
            invariant
                0 <= j <= w.unique_letters@.len(),
                w.wf(),
                strictly_sorted(acc@),
                acc@.to_set() == start.union(w.unique_letters@.take(j as int).to_set()),
            decreases w.unique_letters@.len() - j,
        {
            let c: char = w.unique_letters[j];
            insert_sorted_unique(&mut acc, c);
            proof {
                assert(w.unique_letters@.take(j + 1)
                    =~= w.unique_letters@.take(j as int).push(c));
                crate::words::lemma_to_set_push(w.unique_letters@.take(j as int), c);
                assert(start.union(w.unique_letters@.take(j as int).to_set()).insert(c)
                    =~= start.union(w.unique_letters@.take(j + 1).to_set()));
            }
            j = j + 1;
        }
        proof {
            assert(w.unique_letters@.take(w.unique_letters@.len() as int)
                =~= w.unique_letters@);
            assert(path@.take(t + 1).drop_last() =~= path@.take(t as int));
            assert(path@.take(t + 1).last() == path@[t as int]);
            assert(acc@.to_set() =~= coverage(words@, path@.take(t + 1)));
        }
        t = t + 1;
    }
    proof {
        assert(path@.take(path@.len() as int) =~= path@);
    }
    acc
}

/// Decides whether `path` covers the alphabet.
pub fn path_covers(words: &Vec<Word>, path: &Vec<usize>) -> (r: bool)
    requires
        forall|i: int| 0 <= i < words@.len() ==> (#[trigger] words@[i]).wf(),
        forall|k: int| 0 <= k < path@.len() ==> (#[trigger] path@[k]) < words@.len(),
    ensures
        r == covers(words@, path@),
{
    let letters: Vec<char> = path_coverage(words, path);
    proof {
        assert(letters@.no_duplicates());
        letters@.unique_seq_to_set();
    }
    letters.len() >= ALPHABET_LEN
}

/// Every path of the frontier is a valid chain of length `depth` none of
/// whose proper prefixes covers.
spec fn frontier_ok(words: Seq<Word>, f: Seq<Vec<usize>>, depth: int) -> bool {
    forall|k: int| 0 <= k < f.len() ==> {
        &&& path_valid(words, (#[trigger] f[k])@)
        &&& f[k]@.len() == depth
        &&& no_cover_prefix(words, f[k]@, depth - 1)
    }
}

/// `q` belongs in the frontier of the given depth: a valid chain of that
/// length none of whose proper prefixes covers.
spec fn candidate(words: Seq<Word>, q: Seq<usize>, depth: int) -> bool {
    &&& path_valid(words, q)
    &&& q.len() == depth
    &&& no_cover_prefix(words, q, depth - 1)
}

/// Some entry of the frontier is the path `q`.
spec fn in_frontier(f: Seq<Vec<usize>>, q: Seq<usize>) -> bool {
    exists|k: int| 0 <= k < f.len() && (#[trigger] f[k])@ == q
}

/// The frontier holds every candidate of its depth.
spec fn frontier_complete(words: Seq<Word>, f: Seq<Vec<usize>>, depth: int) -> bool {
    forall|q: Seq<usize>| #[trigger] candidate(words, q, depth) ==> in_frontier(f, q)
}

proof fn lemma_in_frontier_push(f: Seq<Vec<usize>>, v: Vec<usize>, q: Seq<usize>)
    requires
        in_frontier(f, q),
    ensures
        in_frontier(f.push(v), q),
{
    let k = choose|k: int| 0 <= k < f.len() && (#[trigger] f[k])@ == q;
    assert(f.push(v)[k]@ == q);
}

/// Returns a copy of the path.
fn copy_path(p: &Vec<usize>) -> (r: Vec<usize>)
    ensures
        r@ == p@,
{
    let mut r: Vec<usize> = Vec::new();
    let mut i: usize = 0;
    while i < p.len()
        invariant
            0 <= i <= p@.len(),
            r@ == p@.take(i as int),
        decreases p@.len() - i,
    {
        r.push(p[i]);
        proof {
            assert(p@.take(i + 1) =~= p@.take(i as int).push(p@[i as int]));
        }
        i = i + 1;
    }
    proof {
        assert(p@.take(p@.len() as int) =~= p@);
    }
    r
}

/// Builds the depth-1 frontier: one singleton chain per word.
fn initial_frontier(words: &Vec<Word>) -> (f: Vec<Vec<usize>>)
    ensures
        f@.len() == words@.len(),
        forall|k: int| 0 <= k < f@.len() ==> (#[trigger] f@[k])@ == seq![k as usize],
{
    let mut f: Vec<Vec<usize>> = Vec::new();
    let mut i: usize = 0;
    while i < words.len()
        invariant
            0 <= i <= words@.len(),
            f@.len() == i,
            forall|k: int| 0 <= k < f@.len() ==> (#[trigger] f@[k])@ == seq![k as usize],
        decreases words@.len() - i,
    {
        let mut single: Vec<usize> = Vec::new();
        single.push(i);
        proof {
            assert(single@ =~= seq![i as usize]);
        }
        f.push(single);
        i = i + 1;
    }
    f
}

proof fn lemma_initial_frontier_state(words: Seq<Word>, f: Seq<Vec<usize>>)
    requires
        forall|i: int| 0 <= i < words.len() ==> word_ok(#[trigger] words[i]),
        f.len() == words.len(),
        forall|k: int| 0 <= k < f.len() ==> (#[trigger] f[k])@ == seq![k as usize],
    ensures
        frontier_ok(words, f, 1),
        frontier_complete(words, f, 1),
{
    assert forall|k: int| 0 <= k < f.len() implies {
        &&& path_valid(words, (#[trigger] f[k])@)
        &&& f[k]@.len() == 1
        &&& no_cover_prefix(words, f[k]@, 0)
    } by {
        assert(f[k]@[0] == k as usize);
    }
    assert forall|q: Seq<usize>| #[trigger] candidate(words, q, 1) implies
        in_frontier(f, q) by {
        let i = q[0];
        assert(i < words.len());
        assert(f[i as int]@ =~= q);
    }
}

/// Pushes onto `next` one extension of `p` per word chainable after it:
/// for every word index in the bucket of `p`'s last letter, the path `p`
/// followed by that index.
fn expand_path(
    graph: &Vec<Vec<usize>>,
    words: &Vec<Word>,
    p: &Vec<usize>,
    next: &mut Vec<Vec<usize>>,
    Ghost(depth): Ghost<int>,
)
    requires
        forall|i: int| 0 <= i < words@.len() ==> word_ok(#[trigger] words@[i]),
        graph_wf(graph@, words@),
        path_valid(words@, p@),
        p@.len() == depth,
        no_cover_prefix(words@, p@, depth - 1),
        !covers(words@, p@),
        frontier_ok(words@, old(next)@, depth + 1),
    ensures
        frontier_ok(words@, final(next)@, depth + 1),
        forall|q: Seq<usize>| in_frontier(old(next)@, q) ==> in_frontier(final(next)@, q),
        forall|j: usize|
            j < words@.len() && first_index(words@[j as int]) == last_index(
                words@[p@[depth - 1] as int],
            ) ==> in_frontier(final(next)@, p@.push(j)),
{
    let lb: usize = last_bucket(&words[p[p.len() - 1]]);
    let mut b: usize = 0;
    while b < graph[lb].len()
        invariant
            forall|i: int| 0 <= i < words@.len() ==> word_ok(#[trigger] words@[i]),
            graph_wf(graph@, words@),
            0 <= b <= graph@[lb as int]@.len(),
            lb < graph@.len(),
            path_valid(words@, p@),
            p@.len() == depth,
            no_cover_prefix(words@, p@, depth - 1),
            !covers(words@, p@),
            lb == last_index(words@[p@[p@.len() - 1] as int]),
            frontier_ok(words@, next@, depth + 1),
            forall|q: Seq<usize>| in_frontier(old(next)@, q) ==> in_frontier(next@, q),
            forall|bi: int| 0 <= bi < b ==> in_frontier(
                next@,
                p@.push(#[trigger] graph@[lb as int]@[bi]),
            ),
        decreases graph@[lb as int]@.len() - b,
    {
        let j: usize = graph[lb][b];
        let mut q: Vec<usize> = copy_path(p);
        q.push(j);
        let ghost mid_next: Seq<Vec<usize>> = next@;
        proof {
            assert(q@ == p@.push(j));
            assert(first_index(words@[j as int]) == lb);
            assert forall|t: int| 1 <= t <= depth implies !covers(
                words@,
                #[trigger] q@.take(t),
            ) by {
                assert(q@.take(t) =~= p@.take(t));
                if t < depth {
                    assert(!covers(words@, p@.take(t)));
                } else {
                    assert(p@.take(t) =~= p@);
                }
            }
            assert(path_valid(words@, q@)) by {
                assert forall|k: int| 0 <= k < q@.len() implies (#[trigger] q@[k])
                    < words@.len() by {
                    if k < p@.len() {
                        assert(q@[k] == p@[k]);
                    }
                }
                assert forall|k: int| #![trigger q@[k]] 0 <= k < q@.len() - 1 implies
                    last_index(words@[q@[k] as int]) == first_index(
                    words@[q@[k + 1] as int],
                ) by {
                    if k < p@.len() - 1 {
                        assert(q@[k] == p@[k]);
                        assert(q@[k + 1] == p@[k + 1]);
                    } else {
                        assert(q@[k] == p@[p@.len() - 1]);
                        assert(q@[k + 1] == j);
                    }
                }
            }
        }
        next.push(q);
        proof {
            assert(next@ == mid_next.push(q));
            assert forall|x: Seq<usize>| in_frontier(mid_next, x) implies in_frontier(
                next@,
                x,
            ) by {
                lemma_in_frontier_push(mid_next, q, x);
            }
            assert(next@[next@.len() - 1]@ == p@.push(j));
            assert forall|bi: int| 0 <= bi < b + 1 implies in_frontier(
                next@,
                p@.push(#[trigger] graph@[lb as int]@[bi]),
            ) by {
                if bi < b {
                    assert(in_frontier(mid_next, p@.push(graph@[lb as int]@[bi])));
                }
            }
        }
        b = b + 1;
    }
    proof {
        assert forall|j: usize|
            j < words@.len() && first_index(words@[j as int]) == last_index(
                words@[p@[depth - 1] as int],
            ) implies in_frontier(next@, p@.push(j)) by {
            assert(graph@[lb as int]@.contains(j));
            let bi = choose|bi: int|
                0 <= bi < graph@[lb as int]@.len() && graph@[lb as int]@[bi] == j;
            assert(in_frontier(next@, p@.push(graph@[lb as int]@[bi])));
        }
    }
}

/// Explores chains level by level, up to `max_depth` words, and returns the
/// first covering chain found at the shallowest depth holding one; `None`
/// exactly when no valid chain of at most `max_depth` words covers the
/// alphabet.
pub fn shortest_path(graph: &Vec<Vec<usize>>, words: &Vec<Word>, max_depth: usize) -> (r: Option<
    Vec<usize>,
>)
    requires
        forall|i: int| 0 <= i < words@.len() ==> word_ok(#[trigger] words@[i]),
        graph_wf(graph@, words@),
    ensures
        r is Some ==> min_cover(words@, r->Some_0@) && 1 <= r->Some_0@.len() <= max_depth,
        r is Some ==> forall|q: Seq<usize>|
            path_valid(words@, q) && #[trigger] covers(words@, q) ==> q.len()
                >= r->Some_0@.len(),
        r is None ==> forall|q: Seq<usize>|
            path_valid(words@, q) && q.len() <= max_depth ==> !covers(words@, q),
{
    let mut current: Vec<Vec<usize>> = initial_frontier(words);
    let mut next: Vec<Vec<usize>> = Vec::new();
    proof {
        lemma_initial_frontier_state(words@, current@);
    }
    let mut d: usize = 0;
    while d < max_depth
        invariant
            0 <= d <= max_depth,
            forall|i: int| 0 <= i < words@.len() ==> word_ok(#[trigger] words@[i]),
            graph_wf(graph@, words@),
            frontier_ok(words@, current@, d + 1),
            frontier_complete(words@, current@, d + 1),
            forall|q: Seq<usize>| #[trigger] min_cover(words@, q) ==> q.len() > d,
            next@.len() == 0,
        decreases max_depth - d,
    {
        let ghost depth: int = d + 1;
        proof {
            assert forall|q: Seq<usize>| #[trigger] candidate(words@, q, depth + 1) implies
                in_frontier(next@, q) || in_frontier(current@, q.take(depth)) by {
                lemma_prefix_valid(words@, q, depth);
                assert forall|t: int| 1 <= t <= depth - 1 implies !covers(
                    words@,
                    #[trigger] q.take(depth).take(t),
                ) by {
                    assert(q.take(depth).take(t) =~= q.take(t));
                }
                assert(candidate(words@, q.take(depth), depth));
            }
            assert forall|q: Seq<usize>| #[trigger] min_cover(words@, q) && q.len() == depth
                implies in_frontier(current@, q) by {
                assert(candidate(words@, q, depth));
            }
        }
        while current.len() > 0
            invariant
                forall|i: int| 0 <= i < words@.len() ==> word_ok(#[trigger] words@[i]),
                graph_wf(graph@, words@),
                depth == d + 1,
                d < max_depth,
                frontier_ok(words@, current@, depth),
                frontier_ok(words@, next@, depth + 1),
                forall|q: Seq<usize>| #[trigger] candidate(words@, q, depth + 1)
                    ==> in_frontier(next@, q) || in_frontier(current@, q.take(depth)),
                forall|q: Seq<usize>| #[trigger] min_cover(words@, q) && q.len() == depth
                    ==> in_frontier(current@, q),
                forall|q: Seq<usize>| #[trigger] min_cover(words@, q) ==> q.len() > d,
            decreases current.len(),
        {
            let ghost pre_cur: Seq<Vec<usize>> = current@;
            let p: Vec<usize> = current.pop().unwrap();
            proof {
                assert(pre_cur[pre_cur.len() - 1]@ == p@);
                assert(current@ =~= pre_cur.drop_last());
            }
            if path_covers(words, &p) {
                proof {
                    assert(min_cover(words@, p@));
                    assert forall|q: Seq<usize>|
                        path_valid(words@, q) && #[trigger] covers(words@, q) implies q.len()
                        >= p@.len() by {
                        lemma_min_cover_prefix(words@, q);
                        let t = choose|t: int|
                            1 <= t <= q.len() && min_cover(words@, #[trigger] q.take(t));
                        assert(q.take(t).len() == t);
                        assert(q.take(t).len() > d);
                    }
                }
                return Some(p);
            }
            proof {
                assert forall|q: Seq<usize>| #[trigger] min_cover(words@, q) && q.len() == depth
                    implies in_frontier(current@, q) by {
                    let k = choose|k: int| 0 <= k < pre_cur.len() && (#[trigger] pre_cur[k])@ == q;
                    if k == pre_cur.len() - 1 {
                        assert(covers(words@, p@));
                    } else {
                        assert(current@[k]@ == q);
                    }
                }
            }
            let ghost pre_next: Seq<Vec<usize>> = next@;
            expand_path(graph, words, &p, &mut next, Ghost(depth));
            proof {
                assert forall|q: Seq<usize>| #[trigger] candidate(words@, q, depth + 1) implies
                    in_frontier(next@, q) || in_frontier(current@, q.take(depth)) by {
                    if in_frontier(pre_next, q) {
                    } else if in_frontier(pre_cur, q.take(depth)) {
                        let k = choose|k: int|
                            0 <= k < pre_cur.len() && (#[trigger] pre_cur[k])@ == q.take(depth);
                        if k < pre_cur.len() - 1 {
                            assert(current@[k]@ == q.take(depth));
                        } else {
                            let j: usize = q[depth];
                            assert(q.take(depth) == p@);
                            assert(j < words@.len());
                            assert(q[depth - 1] == p@[depth - 1]) by {
                                assert(q.take(depth)[depth - 1] == q[depth - 1]);
                            }
                            assert(first_index(words@[j as int]) == last_index(
                                words@[p@[depth - 1] as int],
                            )) by {
                                assert(last_index(words@[q[depth - 1] as int]) == first_index(
                                    words@[q[depth - 1 + 1] as int],
                                ));
                            }
                            assert(in_frontier(next@, p@.push(j)));
                            assert(p@.push(j) =~= q);
                        }
                    }
                }
            }
        }
        proof {
            assert forall|q: Seq<usize>| #[trigger] candidate(words@, q, depth + 1) implies
                in_frontier(next@, q) by {
                if !in_frontier(next@, q) {
                    let k = choose|k: int|
                        0 <= k < current@.len() && (#[trigger] current@[k])@ == q.take(depth);
                }
            }
            assert forall|q: Seq<usize>| #[trigger] min_cover(words@, q) implies q.len() > d + 1 by {
                if q.len() == depth {
                    assert(in_frontier(current@, q));
                    let k = choose|k: int| 0 <= k < current@.len() && (#[trigger] current@[k])@ == q;
                }
            }
        }
        current = next;
        next = Vec::new();
        d = d + 1;
    }
    proof {
        assert forall|q: Seq<usize>| path_valid(words@, q) && q.len() <= max_depth implies !covers(
            words@,
            q,
        ) by {
            if covers(words@, q) {
                lemma_min_cover_prefix(words@, q);
                let t = choose|t: int| 1 <= t <= q.len() && min_cover(words@, #[trigger] q.take(t));
                assert(q.take(t).len() == t);
                assert(q.take(t).len() > max_depth);
            }
        }
    }
    None
}

/// Explores chains level by level, up to `max_depth` words, and returns
/// every covering chain discovered at the first depth holding one: the
/// minimal-depth set. All returned chains are valid, covering, and of one
/// length; no strictly shorter valid chain covers; and the result is empty
/// exactly when no valid chain of at most `max_depth` words covers.
pub fn shortest_paths(graph: &Vec<Vec<usize>>, words: &Vec<Word>, max_depth: usize) -> (r: Vec<
    Vec<usize>,
>)
    requires
        forall|i: int| 0 <= i < words@.len() ==> word_ok(#[trigger] words@[i]),
        graph_wf(graph@, words@),
    ensures
        forall|k: int| 0 <= k < r@.len() ==> min_cover(words@, (#[trigger] r@[k])@) && 1
            <= r@[k]@.len() <= max_depth,
        forall|k1: int, k2: int| #![trigger r@[k1], r@[k2]] 0 <= k1 < r@.len() && 0 <= k2
            < r@.len() ==> r@[k1]@.len() == r@[k2]@.len(),
        r@.len() > 0 ==> forall|q: Seq<usize>|
            path_valid(words@, q) && #[trigger] covers(words@, q) ==> q.len() >= r@[0]@.len(),
        r@.len() > 0 ==> forall|q: Seq<usize>|
            #[trigger] min_cover(words@, q) && q.len() == r@[0]@.len() ==> exists|k: int|
                0 <= k < r@.len() && (#[trigger] r@[k])@ == q,
        r@.len() == 0 ==> forall|q: Seq<usize>|
            path_valid(words@, q) && q.len() <= max_depth ==> !covers(words@, q),
{
    let mut current: Vec<Vec<usize>> = initial_frontier(words);
    let mut next: Vec<Vec<usize>> = Vec::new();
    let mut paths: Vec<Vec<usize>> = Vec::new();
    let mut found: bool = false;
    proof {
        lemma_initial_frontier_state(words@, current@);
    }
    let mut d: usize = 0;
    while !found && d < max_depth
        invariant
            0 <= d <= max_depth,
            forall|i: int| 0 <= i < words@.len() ==> word_ok(#[trigger] words@[i]),
            graph_wf(graph@, words@),
            forall|q: Seq<usize>| #[trigger] min_cover(words@, q) ==> q.len() > d,
            !found ==> paths@.len() == 0,
            !found ==> next@.len() == 0,
            !found ==> frontier_ok(words@, current@, d + 1),
            !found ==> frontier_complete(words@, current@, d + 1),
            found ==> paths@.len() >= 1,
            found ==> d < max_depth,
            found ==> forall|k: int| 0 <= k < paths@.len() ==> min_cover(
                words@,
                (#[trigger] paths@[k])@,
            ) && paths@[k]@.len() == d + 1,
            found ==> forall|q: Seq<usize>| #[trigger] min_cover(words@, q) && q.len() == d + 1
                ==> in_frontier(paths@, q),
        decreases (if found { 0int } else { 1int }), max_depth - d,
    {
        let ghost depth: int = d + 1;
        proof {
            assert forall|q: Seq<usize>| #[trigger] candidate(words@, q, depth + 1) implies
                in_frontier(next@, q) || in_frontier(current@, q.take(depth)) by {
                lemma_prefix_valid(words@, q, depth);
                assert forall|t: int| 1 <= t <= depth - 1 implies !covers(
                    words@,
                    #[trigger] q.take(depth).take(t),
                ) by {
                    assert(q.take(depth).take(t) =~= q.take(t));
                }
                assert(candidate(words@, q.take(depth), depth));
            }
            assert forall|q: Seq<usize>| #[trigger] min_cover(words@, q) && q.len() == depth
                implies in_frontier(current@, q) by {
                assert(candidate(words@, q, depth));
            }
        }
        while current.len() > 0
            invariant
                forall|i: int| 0 <= i < words@.len() ==> word_ok(#[trigger] words@[i]),
                graph_wf(graph@, words@),
                depth == d + 1,
                d < max_depth,
                frontier_ok(words@, current@, depth),
                frontier_ok(words@, next@, depth + 1),
                forall|q: Seq<usize>| #[trigger] candidate(words@, q, depth + 1)
                    ==> in_frontier(next@, q) || in_frontier(current@, q.take(depth)),
                forall|q: Seq<usize>| #[trigger] min_cover(words@, q) && q.len() == depth
                    ==> in_frontier(current@, q) || in_frontier(paths@, q),
                !found ==> paths@.len() == 0,
                found ==> paths@.len() >= 1,
                forall|k: int| 0 <= k < paths@.len() ==> min_cover(
                    words@,
                    (#[trigger] paths@[k])@,
                ) && paths@[k]@.len() == depth,
            decreases current.len(),
        {
            let ghost pre_cur: Seq<Vec<usize>> = current@;
            let p: Vec<usize> = current.pop().unwrap();
            proof {
                assert(pre_cur[pre_cur.len() - 1]@ == p@);
                assert(current@ =~= pre_cur.drop_last());
            }
            if path_covers(words, &p) {
                found = true;
                let ghost pre_paths: Seq<Vec<usize>> = paths@;
                let ghost pv: Seq<usize> = p@;
                proof {
                    assert(min_cover(words@, pv));
                }
                paths.push(p);
                proof {
                    assert(paths@.len() == pre_paths.len() + 1);
                    assert(forall|k: int| 0 <= k < pre_paths.len()
                        ==> paths@[k] == pre_paths[k]);
                    assert(paths@[paths@.len() - 1]@ == pv);
                    assert forall|q: Seq<usize>| #[trigger] candidate(words@, q, depth + 1)
                        implies in_frontier(next@, q) || in_frontier(current@, q.take(depth)) by {
                        if in_frontier(pre_cur, q.take(depth)) {
                            let k = choose|k: int|
                                0 <= k < pre_cur.len() && (#[trigger] pre_cur[k])@ == q.take(
                                    depth,
                                );
                            if k < pre_cur.len() - 1 {
                                assert(current@[k]@ == q.take(depth));
                            } else {
                                assert(!covers(words@, q.take(depth)));
                            }
                        }
                    }
                    assert forall|q: Seq<usize>| #[trigger] min_cover(words@, q) && q.len()
                        == depth implies in_frontier(current@, q) || in_frontier(paths@, q) by {
                        if in_frontier(pre_cur, q) {
                            let k = choose|k: int|
                                0 <= k < pre_cur.len() && (#[trigger] pre_cur[k])@ == q;
                            if k < pre_cur.len() - 1 {
                                assert(current@[k]@ == q);
                            } else {
                                assert(paths@[paths@.len() - 1]@ == q);
                            }
                        } else if in_frontier(pre_paths, q) {
                            let kp = choose|kp: int|
                                0 <= kp < pre_paths.len() && (#[trigger] pre_paths[kp])@ == q;
                            assert(paths@[kp]@ == q);
                        }
                    }
                }
                continue;
            }
            proof {
                assert forall|q: Seq<usize>| #[trigger] min_cover(words@, q) && q.len() == depth
                    implies in_frontier(current@, q) || in_frontier(paths@, q) by {
                    if in_frontier(pre_cur, q) {
                        let k = choose|k: int|
                            0 <= k < pre_cur.len() && (#[trigger] pre_cur[k])@ == q;
                        if k == pre_cur.len() - 1 {
                            assert(covers(words@, p@));
                        } else {
                            assert(current@[k]@ == q);
                        }
                    }
                }
            }
            let ghost pre_next: Seq<Vec<usize>> = next@;
            expand_path(graph, words, &p, &mut next, Ghost(depth));
            proof {
                assert forall|q: Seq<usize>| #[trigger] candidate(words@, q, depth + 1) implies
                    in_frontier(next@, q) || in_frontier(current@, q.take(depth)) by {
                    if in_frontier(pre_next, q) {
                    } else if in_frontier(pre_cur, q.take(depth)) {
                        let k = choose|k: int|
                            0 <= k < pre_cur.len() && (#[trigger] pre_cur[k])@ == q.take(depth);
                        if k < pre_cur.len() - 1 {
                            assert(current@[k]@ == q.take(depth));
                        } else {
                            let j: usize = q[depth];
                            assert(q.take(depth) == p@);
                            assert(j < words@.len());
                            assert(q[depth - 1] == p@[depth - 1]) by {
                                assert(q.take(depth)[depth - 1] == q[depth - 1]);
                            }
                            assert(first_index(words@[j as int]) == last_index(
                                words@[p@[depth - 1] as int],
                            )) by {
                                assert(last_index(words@[q[depth - 1] as int]) == first_index(
                                    words@[q[depth - 1 + 1] as int],
                                ));
                            }
                            assert(in_frontier(next@, p@.push(j)));
                            assert(p@.push(j) =~= q);
                        }
                    }
                }
            }
        }
        if !found {
            proof {
                assert forall|q: Seq<usize>| #[trigger] candidate(words@, q, depth + 1) implies
                    in_frontier(next@, q) by {
                    if !in_frontier(next@, q) {
                        let k = choose|k: int|
                            0 <= k < current@.len() && (#[trigger] current@[k])@ == q.take(depth);
                    }
                }
                assert forall|q: Seq<usize>| #[trigger] min_cover(words@, q) implies q.len() > d
                    + 1 by {
                    if q.len() == depth {
                        assert(in_frontier(current@, q));
                        let k = choose|k: int|
                            0 <= k < current@.len() && (#[trigger] current@[k])@ == q;
                    }
                }
            }
            current = next;
            next = Vec::new();
            d = d + 1;
        }
    }
    proof {
        if !found {
            assert forall|q: Seq<usize>| path_valid(words@, q) && q.len() <= max_depth implies
                !covers(words@, q) by {
                if covers(words@, q) {
                    lemma_min_cover_prefix(words@, q);
                    let t = choose|t: int|
                        1 <= t <= q.len() && min_cover(words@, #[trigger] q.take(t));
                    assert(q.take(t).len() == t);
                    assert(q.take(t).len() > max_depth);
                }
            }
        } else {
            assert forall|q: Seq<usize>|
                path_valid(words@, q) && #[trigger] covers(words@, q) implies q.len()
                >= paths@[0]@.len() by {
                lemma_min_cover_prefix(words@, q);
                let t = choose|t: int| 1 <= t <= q.len() && min_cover(words@, #[trigger] q.take(t));
                assert(q.take(t).len() == t);
                assert(q.take(t).len() > d);
            }
            assert forall|q: Seq<usize>| #[trigger] min_cover(words@, q) && q.len()
                == paths@[0]@.len() implies exists|k: int|
                0 <= k < paths@.len() && (#[trigger] paths@[k])@ == q by {
                assert(in_frontier(paths@, q));
            }
        }
    }
    paths
}

} // verus!
