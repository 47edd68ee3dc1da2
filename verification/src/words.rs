//! The word filter: keeps the candidate words that are legal for the puzzle.

use vstd::prelude::*;

verus! {

/// No two immediately adjacent characters of the word are identical.
pub open spec fn no_adjacent_repeat(s: Seq<char>) -> bool {
    forall|i: int| 0 <= i < s.len() - 1 ==> #[trigger] s[i] != s[i + 1]
}

/// Whether a character counts as alphabetic for the dictionary filter.
pub uninterp spec fn alphabetic(c: char) -> bool;

/// Relies on char::is_alphabetic: true exactly when the character has the
/// Unicode Alphabetic property, a function of the character alone; the
/// documentation guarantees that ASCII letters have it.
#[verifier::external_body]
fn char_is_alphabetic(c: char) -> (r: bool)
    ensures
        r == alphabetic(c),
        'a' as int <= c as int <= 'z' as int ==> r,
        'A' as int <= c as int <= 'Z' as int ==> r,
{
    c.is_alphabetic()
}

/// A word survives the dictionary filter: longer than 3 characters, made of
/// alphabetic characters only, and with no immediately repeated character.
pub open spec fn pruned_ok(s: Seq<char>) -> bool {
    &&& s.len() > 3
    &&& forall|i: int| 0 <= i < s.len() ==> alphabetic(s[i])
    &&& no_adjacent_repeat(s)
}

/// What the dictionary filter keeps, in order.
pub open spec fn spec_prune(s: Seq<&str>) -> Seq<&str> {
    s.filter(|w: &str| pruned_ok(w@))
}

/// Decides `pruned_ok` for one word.
pub fn word_passes_prune(word: &str) -> (r: bool)
    ensures
        r == pruned_ok(word@),
{
    let n: usize = word.unicode_len();
    if n <= 3 {
        return false;
    }
    let mut i: usize = 0;
    let mut prev: char = ' ';
    while i < n
        invariant
            0 <= i <= n,
            n == word@.len(),
            n > 3,
            forall|k: int| 0 <= k < i ==> alphabetic(word@[k]),
            forall|k: int| 0 <= k < i - 1 ==> #[trigger] word@[k] != word@[k + 1],
            i > 0 ==> prev == word@[i - 1],
        decreases n - i,
    {
        let c: char = word.get_char(i);
        if !char_is_alphabetic(c) {
            return false;
        }
        if i > 0 && c == prev {
            return false;
        }
        prev = c;
        i = i + 1;
    }
    true
}

/// Keeps the words that are longer than 3 characters, all-alphabetic, and
/// free of immediately repeated characters; the rest are dropped, and the
/// order of the kept words is preserved.
pub fn prune_dictionary<'a>(words: Vec<&'a str>) -> (r: Vec<&'a str>)
    ensures
        r@ == spec_prune(words@),
{
    let ghost all: Seq<&str> = words@;
    let mut r: Vec<&'a str> = Vec::new();
    let mut i: usize = 0;
    while i < words.len()
        invariant
            0 <= i <= words.len(),
            words@ == all,
            r@ == spec_prune(all.take(i as int)),
        decreases words.len() - i,
    {
        let w: &'a str = words[i];
        proof {
            reveal(Seq::filter);
            assert(all.take(i + 1).drop_last() =~= all.take(i as int));
            assert(all.take(i + 1).last() == all[i as int]);
        }
        if word_passes_prune(w) {
            r.push(w);
        }
        i = i + 1;
    }
    proof {
        assert(all.take(words@.len() as int) =~= all);
    }
    r
}

/// Every word the dictionary filter keeps is longer than 3 characters,
/// all-alphabetic, and free of immediately repeated characters.
pub proof fn lemma_prune_output_ok(s: Seq<&str>)
    ensures
        forall|i: int| 0 <= i < spec_prune(s).len() ==> pruned_ok((#[trigger] spec_prune(s)[i])@),
{
    broadcast use vstd::seq_lib::group_filter_ensures;

}

/// A word list whose every word already passes the filter is returned
/// unchanged.
pub proof fn lemma_prune_fixed_point(s: Seq<&str>)
    requires
        forall|i: int| 0 <= i < s.len() ==> pruned_ok((#[trigger] s[i])@),
    ensures
        spec_prune(s) == s,
    decreases s.len(),
{
    reveal(Seq::filter);
    if s.len() == 0 {
        assert(spec_prune(s) =~= s);
    } else {
        lemma_prune_fixed_point(s.drop_last());
        assert(spec_prune(s) =~= s);
    }
}

/// The dictionary filter is idempotent: pruning an already-pruned word list
/// returns it unchanged.
pub proof fn lemma_prune_idempotent(s: Seq<&str>)
    ensures
        spec_prune(spec_prune(s)) == spec_prune(s),
{
    lemma_prune_output_ok(s);
    lemma_prune_fixed_point(spec_prune(s));
}

/// The characters are in strictly increasing order (so also duplicate-free).
pub open spec fn strictly_sorted(s: Seq<char>) -> bool {
    forall|i: int, j: int| #![trigger s[i], s[j]] 0 <= i < j < s.len() ==> (s[i] as int) < (s[j] as int)
}

/// Puts `c` into a strictly sorted vector, keeping it sorted and
/// duplicate-free; a character already present is left alone.
pub fn insert_sorted_unique(acc: &mut Vec<char>, c: char)
    requires
        strictly_sorted(old(acc)@),
    ensures
        strictly_sorted(final(acc)@),
        final(acc)@.to_set() == old(acc)@.to_set().insert(c),
{
    let ghost orig: Seq<char> = acc@;
    let mut j: usize = 0;
    while j < acc.len() && acc[j] < c
        invariant
            0 <= j <= acc.len(),
            acc@ == orig,
            forall|k: int| 0 <= k < j ==> ((#[trigger] acc@[k]) as int) < (c as int),
        decreases acc.len() - j,
    {
        j = j + 1;
    }
    if j < acc.len() && acc[j] == c {
        proof {
            assert(orig.contains(c));
            assert(orig.to_set() =~= orig.to_set().insert(c));
        }
        return;
    }
    acc.insert(j, c);
    proof {
        assert forall|a: int, b: int| #![trigger acc@[a], acc@[b]] 0 <= a < b < acc@.len() implies
            (acc@[a] as int) < (acc@[b] as int) by {
            if a < j && b == j {
                assert(acc@[a] == orig[a]);
            } else if a == j && b > j {
                assert(acc@[b] == orig[b - 1]);
                assert(!((orig[b - 1] as int) < (c as int)) || b - 1 >= j);
            }
        }
        assert forall|x: char| acc@.to_set().contains(x) implies
            orig.to_set().insert(c).contains(x) by {
            let k = choose|k: int| 0 <= k < acc@.len() && acc@[k] == x;
            if k < j {
                assert(orig[k] == x);
                assert(orig.contains(x));
            } else if k > j {
                assert(orig[k - 1] == x);
                assert(orig.contains(x));
            }
        }
        assert forall|x: char| orig.to_set().insert(c).contains(x) implies
            acc@.to_set().contains(x) by {
            if x == c {
                assert(acc@[j as int] == c);
                assert(acc@.contains(x));
            } else {
                let k = choose|k: int| 0 <= k < orig.len() && orig[k] == x;
                if k < j {
                    assert(acc@[k] == x);
                } else {
                    assert(acc@[k + 1] == x);
                }
                assert(acc@.contains(x));
            }
        }
        assert(acc@.to_set() =~= orig.to_set().insert(c));
    }
}

/// A word accepted into the working set: its text together with the sorted,
/// duplicate-free list of its distinct letters, computed once and cached.
pub struct Word {
    pub string: String,
    pub unique_letters: Vec<char>,
}

impl Word {
    /// The cached letter list is strictly sorted and holds exactly the
    /// distinct characters of the text.
    pub open spec fn wf(self) -> bool {
        &&& strictly_sorted(self.unique_letters@)
        &&& self.unique_letters@.to_set() == self.string@.to_set()
    }

    /// The set of distinct letters the word uses.
    pub open spec fn letters(self) -> Set<char> {
        self.string@.to_set()
    }

    pub fn new(string: String) -> (w: Word)
        ensures
            w.string@ == string@,
            w.wf(),
    {
        let mut unique_letters: Vec<char> = Vec::new();
        let s: &str = string.as_str();
        let n: usize = s.unicode_len();
        let mut i: usize = 0;
        proof {
            assert(Seq::<char>::empty().to_set() =~= string@.take(0).to_set());
        }
        while i < n
            invariant
                0 <= i <= n,
                n == string@.len(),
                s@ == string@,
                strictly_sorted(unique_letters@),
                unique_letters@.to_set() == string@.take(i as int).to_set(),
            decreases n - i,
        {
            let c: char = s.get_char(i);
            insert_sorted_unique(&mut unique_letters, c);
            proof {
                assert(string@.take(i + 1) =~= string@.take(i as int).push(c));
                lemma_to_set_push(string@.take(i as int), c);
            }
            i = i + 1;
        }
        proof {
            assert(string@.take(n as int) =~= string@);
        }
        Word { string, unique_letters }
    }
}

/// Pushing an element onto a sequence inserts it into the sequence's set.
pub proof fn lemma_to_set_push(s: Seq<char>, c: char)
    ensures
        s.push(c).to_set() == s.to_set().insert(c),
{
    assert forall|x: char| s.push(c).to_set().contains(x) implies
        s.to_set().insert(c).contains(x) by {
        let k = choose|k: int| 0 <= k < s.push(c).len() && s.push(c)[k] == x;
        if k < s.len() {
            assert(s[k] == x);
            assert(s.contains(x));
        }
    }
    assert forall|x: char| s.to_set().insert(c).contains(x) implies
        s.push(c).to_set().contains(x) by {
        if x == c {
            assert(s.push(c)[s.len() as int] == x);
        } else {
            let k = choose|k: int| 0 <= k < s.len() && s[k] == x;
            assert(s.push(c)[k] == x);
        }
        assert(s.push(c).contains(x));
    }
    assert(s.push(c).to_set() =~= s.to_set().insert(c));
}

} // verus!
