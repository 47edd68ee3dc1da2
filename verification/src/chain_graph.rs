//! The chain graph: for each of the 26 possible starting letters, the list
//! of word indices whose text begins with that letter.

use vstd::prelude::*;
use crate::words::Word;

verus! {

/// The number of buckets: one per letter `'a'` through `'z'`.
pub const BUCKETS: usize = 26;

/// `c` is an ASCII lowercase letter.
pub open spec fn lowercase(c: char) -> bool {
    'a' as int <= c as int <= 'z' as int
}

/// The bucket index of `c`: its offset from `'a'`.
pub open spec fn char_index(c: char) -> int {
    c as int - 'a' as int
}

/// A word as the graph and the search need it: well formed, non-empty, and
/// beginning and ending with an ASCII lowercase letter (so both ends have a
/// bucket).
pub open spec fn word_ok(w: Word) -> bool {
    &&& w.wf()
    &&& w.string@.len() >= 1
    &&& lowercase(w.string@[0])
    &&& lowercase(w.string@[w.string@.len() - 1])
}

/// The bucket index of the word's first letter.
pub open spec fn first_index(w: Word) -> int {
    char_index(w.string@[0])
}

/// The bucket index of the word's last letter.
pub open spec fn last_index(w: Word) -> int {
    char_index(w.string@[w.string@.len() - 1])
}

/// `g` is the chain graph of `words`: 26 buckets, bucket `li` holding, in
/// increasing order, exactly the indices of the words whose first letter has
/// bucket index `li`.
pub open spec fn graph_wf(g: Seq<Vec<usize>>, words: Seq<Word>) -> bool {
    &&& g.len() == BUCKETS
    &&& forall|li: int, k: int| 0 <= li < g.len() && 0 <= k < g[li]@.len()
            ==> (#[trigger] g[li]@[k]) < words.len() && first_index(words[g[li]@[k] as int]) == li
    &&& forall|li: int, k1: int, k2: int| #![trigger g[li]@[k1], g[li]@[k2]]
            0 <= li < g.len() && 0 <= k1 < k2 < g[li]@.len() ==> g[li]@[k1] < g[li]@[k2]
    &&& forall|i: int| 0 <= i < words.len()
            ==> g[first_index(#[trigger] words[i])]@.contains(i as usize)
}

/// Returns the bucket index of the word's first letter.
pub fn first_bucket(w: &Word) -> (r: usize)
    requires
        word_ok(*w),
    ensures
        r == first_index(*w),
{
    let c: char = w.string.as_str().get_char(0);
    (c as u32 as usize) - 97
}

/// Returns the bucket index of the word's last letter.
pub fn last_bucket(w: &Word) -> (r: usize)
    requires
        word_ok(*w),
    ensures
        r == last_index(*w),
{
    let n: usize = w.string.as_str().unicode_len();
    let c: char = w.string.as_str().get_char(n - 1);
    (c as u32 as usize) - 97
}

/// Builds the chain graph: bucket `li` lists, in increasing order, the
/// indices of the words beginning with the letter of bucket index `li`.
pub fn graph(word_list: &Vec<Word>) -> (g: Vec<Vec<usize>>)
    requires
        forall|i: int| 0 <= i < word_list@.len() ==> word_ok(#[trigger] word_list@[i]),
    ensures
        graph_wf(g@, word_list@),
{
    let mut g: Vec<Vec<usize>> = Vec::new();
    let mut li: usize = 0;
    while li < BUCKETS
        invariant
            0 <= li <= BUCKETS,
            g@.len() == li,
            forall|i: int| 0 <= i < word_list@.len() ==> word_ok(#[trigger] word_list@[i]),
            forall|l: int, k: int| 0 <= l < li && 0 <= k < g@[l]@.len()
                ==> (#[trigger] g@[l]@[k]) < word_list@.len()
                    && first_index(word_list@[g@[l]@[k] as int]) == l,
            forall|l: int, k1: int, k2: int| #![trigger g@[l]@[k1], g@[l]@[k2]]
                0 <= l < li && 0 <= k1 < k2 < g@[l]@.len() ==> g@[l]@[k1] < g@[l]@[k2],
            forall|i: int| 0 <= i < word_list@.len()
                && 0 <= first_index(#[trigger] word_list@[i]) < li
                ==> g@[first_index(word_list@[i])]@.contains(i as usize),
        decreases BUCKETS - li,
    {
        let mut bucket: Vec<usize> = Vec::new();
        let mut i: usize = 0;
        while i < word_list.len()
            invariant
                0 <= i <= word_list@.len(),
                0 <= li < BUCKETS,
                forall|w: int| 0 <= w < word_list@.len() ==> word_ok(#[trigger] word_list@[w]),
                forall|k: int| 0 <= k < bucket@.len()
                    ==> (#[trigger] bucket@[k]) < i
                        && first_index(word_list@[bucket@[k] as int]) == li,
                forall|k1: int, k2: int| #![trigger bucket@[k1], bucket@[k2]]
                    0 <= k1 < k2 < bucket@.len() ==> bucket@[k1] < bucket@[k2],
                forall|w: int| 0 <= w < i && first_index(#[trigger] word_list@[w]) == li
                    ==> bucket@.contains(w as usize),
            decreases word_list@.len() - i,
        {
            let fb: usize = first_bucket(&word_list[i]);
            if fb == li {
                let ghost pre: Seq<usize> = bucket@;
                bucket.push(i);
                proof {
                    assert(bucket@ == pre.push(i as usize));
                    assert(bucket@[pre.len() as int] == i as usize);
                    assert forall|w: int| 0 <= w < i + 1
                        && first_index(#[trigger] word_list@[w]) == li implies
                        bucket@.contains(w as usize) by {
                        if w < i {
                            assert(pre.contains(w as usize));
                            let k = choose|k: int| 0 <= k < pre.len() && pre[k] == w as usize;
                            assert(bucket@[k] == w as usize);
                        }
                    }
                }
            }
            i = i + 1;
        }
        g.push(bucket);
        li = li + 1;
    }
    g
}

} // verus!
