//! The alphabet partition: the puzzle's letters grouped into sides, and the
//! filter that rejects words tracing two consecutive letters on one side.

use vstd::prelude::*;

verus! {

/// The position of the first occurrence of `c` in `letters`, if any.
pub open spec fn letter_pos(letters: Seq<char>, c: char) -> Option<int>
    decreases letters.len(),
{
    if letters.len() == 0 {
        None
    } else if letters[0] == c {
        Some(0)
    } else {
        match letter_pos(letters.drop_first(), c) {
            Some(i) => Some(i + 1),
            None => None,
        }
    }
}

proof fn lemma_letter_pos_found(s: Seq<char>, c: char, j: int)
    requires
        0 <= j < s.len(),
        s[j] == c,
        forall|k: int| 0 <= k < j ==> s[k] != c,
    ensures
        letter_pos(s, c) == Some(j),
    decreases j,
{
    if j > 0 {
        assert forall|k: int| 0 <= k < j - 1 implies s.drop_first()[k] != c by {
            assert(s.drop_first()[k] == s[k + 1]);
        }
        assert(s.drop_first()[j - 1] == s[j]);
        lemma_letter_pos_found(s.drop_first(), c, j - 1);
    }
}

proof fn lemma_letter_pos_none(s: Seq<char>, c: char)
    requires
        forall|k: int| 0 <= k < s.len() ==> s[k] != c,
    ensures
        letter_pos(s, c) == None::<int>,
    decreases s.len(),
{
    if s.len() > 0 {
        assert forall|k: int| 0 <= k < s.drop_first().len() implies s.drop_first()[k] != c by {
            assert(s.drop_first()[k] == s[k + 1]);
        }
        lemma_letter_pos_none(s.drop_first(), c);
    }
}

/// A found position is a real, in-range occurrence.
pub proof fn lemma_letter_pos_some(s: Seq<char>, c: char)
    requires
        letter_pos(s, c) is Some,
    ensures
        0 <= letter_pos(s, c)->Some_0 < s.len(),
        s[letter_pos(s, c)->Some_0] == c,
        s.contains(c),
    decreases s.len(),
{
    if s.len() > 0 && s[0] != c {
        lemma_letter_pos_some(s.drop_first(), c);
        let i = letter_pos(s.drop_first(), c)->Some_0;
        assert(s.drop_first()[i] == s[i + 1]);
    }
}

/// The fixed alphabet, partitioned into sides: `letters[i]` belongs to the
/// side numbered `sides[i]`. Immutable for the duration of a run.
pub struct Partition {
    pub letters: Vec<char>,
    pub sides: Vec<usize>,
}

impl Partition {
    /// Every letter has a side.
    pub open spec fn wf(self) -> bool {
        self.letters@.len() == self.sides@.len()
    }

    /// The side of letter `c`, or `None` for a letter outside the alphabet.
    pub open spec fn spec_side_of(self, c: char) -> Option<usize> {
        match letter_pos(self.letters@, c) {
            Some(i) => Some(self.sides@[i]),
            None => None,
        }
    }

    /// The side of letter `c`, or `None` for a letter outside the alphabet.
    pub fn side_of(&self, c: char) -> (r: Option<usize>)
        requires
            self.wf(),
        ensures
            r == self.spec_side_of(c),
    {
        let mut j: usize = 0;
        while j < self.letters.len()
            invariant
                0 <= j <= self.letters@.len(),
                self.wf(),
                forall|k: int| 0 <= k < j ==> self.letters@[k] != c,
            decreases self.letters@.len() - j,
        {
            if self.letters[j] == c {
                proof {
                    lemma_letter_pos_found(self.letters@, c, j as int);
                }
                return Some(self.sides[j]);
            }
            j = j + 1;
        }
        proof {
            lemma_letter_pos_none(self.letters@, c);
        }
        None
    }
}

/// Both characters lie in the alphabet, on different sides.
pub open spec fn pair_ok(p: Partition, a: char, b: char) -> bool {
    match (p.spec_side_of(a), p.spec_side_of(b)) {
        (Some(sa), Some(sb)) => sa != sb,
        _ => false,
    }
}

/// Every pair of consecutive characters lies in the alphabet, on two
/// different sides.
pub open spec fn side_ok(p: Partition, w: Seq<char>) -> bool {
    forall|i: int| 0 <= i < w.len() - 1 ==> #[trigger] pair_ok(p, w[i], w[i + 1])
}

/// What the side-constraint filter keeps, in order.
pub open spec fn spec_side_filter(s: Seq<&str>, p: Partition) -> Seq<&str> {
    s.filter(|w: &str| side_ok(p, w@))
}

/// Decides `side_ok` for one word.
pub fn word_passes_sides(word: &str, p: &Partition) -> (r: bool)
    requires
        p.wf(),
    ensures
        r == side_ok(*p, word@),
{
    let n: usize = word.unicode_len();
    if n < 2 {
        return true;
    }
    let mut i: usize = 0;
    while i < n - 1
        invariant
            0 <= i <= n - 1,
            n == word@.len(),
            n >= 2,
            p.wf(),
            forall|k: int| 0 <= k < i ==> #[trigger] pair_ok(*p, word@[k], word@[k + 1]),
        decreases n - i,
    {
        let a: char = word.get_char(i);
        let b: char = word.get_char(i + 1);
        let sa: Option<usize> = p.side_of(a);
        let sb: Option<usize> = p.side_of(b);
        match (sa, sb) {
            (Some(x), Some(y)) => {
                if x == y {
                    proof {
                        assert(!pair_ok(*p, word@[i as int], word@[i as int + 1]));
                    }
                    return false;
                }
            },
            _ => {
                proof {
                    assert(!pair_ok(*p, word@[i as int], word@[i as int + 1]));
                }
                return false;
            },
        }
        i = i + 1;
    }
    true
}

/// Keeps the words in which every pair of consecutive characters lies in
/// the alphabet, on two different sides; a word with a character outside
/// the alphabet is dropped by the same pass. Order is preserved.
pub fn side_filter<'a>(words: Vec<&'a str>, p: &Partition) -> (r: Vec<&'a str>)
    requires
        p.wf(),
    ensures
        r@ == spec_side_filter(words@, *p),
{
    let ghost all: Seq<&str> = words@;
    let mut r: Vec<&'a str> = Vec::new();
    let mut i: usize = 0;
    while i < words.len()
        invariant
            0 <= i <= words.len(),
            words@ == all,
            p.wf(),
            r@ == spec_side_filter(all.take(i as int), *p),
        decreases words.len() - i,
    {
        let w: &'a str = words[i];
        proof {
            reveal(Seq::filter);
            assert(all.take(i + 1).drop_last() =~= all.take(i as int));
            assert(all.take(i + 1).last() == all[i as int]);
        }
        if word_passes_sides(w, p) {
            r.push(w);
        }
        i = i + 1;
    }
    proof {
        assert(all.take(words@.len() as int) =~= all);
    }
    r
}

/// Every word the side-constraint filter keeps has all its consecutive
/// character pairs inside the alphabet, on two different sides.
pub proof fn lemma_side_filter_output_ok(s: Seq<&str>, p: Partition)
    ensures
        forall|i: int| 0 <= i < spec_side_filter(s, p).len() ==> side_ok(
            p,
            (#[trigger] spec_side_filter(s, p)[i])@,
        ),
{
    broadcast use vstd::seq_lib::group_filter_ensures;

}

/// A word list whose every word already passes the side constraint is
/// returned unchanged.
pub proof fn lemma_side_filter_fixed_point(s: Seq<&str>, p: Partition)
    requires
        forall|i: int| 0 <= i < s.len() ==> side_ok(p, (#[trigger] s[i])@),
    ensures
        spec_side_filter(s, p) == s,
    decreases s.len(),
{
    reveal(Seq::filter);
    if s.len() == 0 {
        assert(spec_side_filter(s, p) =~= s);
    } else {
        lemma_side_filter_fixed_point(s.drop_last(), p);
        assert(spec_side_filter(s, p) =~= s);
    }
}

/// The side-constraint filter is idempotent: filtering an already-filtered
/// word list returns it unchanged.
pub proof fn lemma_side_filter_idempotent(s: Seq<&str>, p: Partition)
    ensures
        spec_side_filter(spec_side_filter(s, p), p) == spec_side_filter(s, p),
{
    lemma_side_filter_output_ok(s, p);
    lemma_side_filter_fixed_point(spec_side_filter(s, p), p);
}

/// A word that satisfies the side constraint and has at least two characters
/// uses only letters of the alphabet partition.
pub proof fn lemma_side_ok_letters_in_partition(p: Partition, w: Seq<char>)
    requires
        side_ok(p, w),
        w.len() >= 2,
    ensures
        forall|i: int| 0 <= i < w.len() ==> p.letters@.contains(#[trigger] w[i]),
{
    assert forall|i: int| 0 <= i < w.len() implies p.letters@.contains(#[trigger] w[i]) by {
        if i < w.len() - 1 {
            assert(pair_ok(p, w[i], w[i + 1]));
            lemma_letter_pos_some(p.letters@, w[i]);
        } else {
            assert(pair_ok(p, w[i - 1], w[i - 1 + 1]));
            assert(w[i - 1 + 1] == w[i]);
            lemma_letter_pos_some(p.letters@, w[i]);
        }
    }
}

} // verus!
