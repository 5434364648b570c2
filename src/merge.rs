use vstd::prelude::*;
use crate::constituent::{Constituent, frontier, pair_count};
use crate::text::{Separator, runs, positive_of, split_runs, parse_positive};

verus! {

/// Why a merge request was turned down. None of these changes the sequence.
#[derive(Debug, Clone, Copy, PartialEq, Eq, Structural)]
pub enum MergeError {
    /// The line did not hold exactly two positive whole numbers.
    Malformed,
    /// A position is zero or lies past the end of the sequence.
    OutOfRange,
    /// Both positions name the same constituent.
    SamePosition,
    /// The two positions are not neighbours.
    NotAdjacent,
}

/// The sequence after merging 1-based positions `i` and `j` (in either order),
/// or why that merge is refused. The left constituent keeps its place and
/// absorbs its right neighbour.
pub open spec fn merged<'a>(s: Seq<Constituent<'a>>, i: int, j: int) -> Result<Seq<Constituent<'a>>, MergeError> {
    let lo = if i <= j { i } else { j };
    let hi = if i <= j { j } else { i };
    if lo < 1 || hi > s.len() {
        Err(MergeError::OutOfRange)
    } else if lo == hi {
        Err(MergeError::SamePosition)
    } else if hi != lo + 1 {
        Err(MergeError::NotAdjacent)
    } else {
        Ok(s.take(lo - 1).push(Constituent::Pair(Box::new(s[lo - 1]), Box::new(s[lo]))) + s.skip(hi))
    }
}

/// Merges the constituents at 1-based positions `i` and `j` of `seq`.
/// On success the element at the larger position is removed and the one at
/// the smaller position becomes the pair of the two; otherwise `seq` is left
/// as it was.
pub fn select_and_merge<'a>(seq: &mut Vec<Constituent<'a>>, i: usize, j: usize) -> (r: Result<(), MergeError>)
    ensures
        match merged(old(seq)@, i as int, j as int) {
            Ok(s) => r is Ok && final(seq)@ == s,
            Err(e) => r == Err::<(), MergeError>(e) && final(seq)@ == old(seq)@,
        },
{
    let lo = if i <= j { i } else { j };
    let hi = if i <= j { j } else { i };
    if lo < 1 || hi > seq.len() {
        return Err(MergeError::OutOfRange);
    }
    if lo == hi {
        return Err(MergeError::SamePosition);
    }
    if hi - lo != 1 {
        return Err(MergeError::NotAdjacent);
    }
    let ghost s = seq@;
    let second = seq.remove(hi - 1);
    let first = seq.remove(lo - 1);
    seq.insert(lo - 1, Constituent::Pair(Box::new(first), Box::new(second)));
    assert(seq@ =~= s.take(lo - 1).push(Constituent::Pair(Box::new(s[lo - 1]), Box::new(s[lo as int]))) + s.skip(hi as int));
    Ok(())
}

/// The two positions that a line asks to merge, smaller first: the line must
/// hold exactly two runs of numeric characters, each a positive number.
pub open spec fn indices_of(line: Seq<char>) -> Option<(int, int)> {
    let t = runs(line, Separator::NonNumeric);
    if t.len() == 2 && positive_of(t[0]) is Some && positive_of(t[1]) is Some {
        let i = positive_of(t[0])->Some_0;
        let j = positive_of(t[1])->Some_0;
        Some(if i <= j { (i, j) } else { (j, i) })
    } else {
        None
    }
}

/// Reads a merge request: two positive numbers separated by anything that is
/// not numeric, returned smaller first.
pub fn parse_indices(line: &str) -> (r: Option<(usize, usize)>)
    ensures
        match indices_of(line@) {
            Some((i, j)) => r == Some((i as usize, j as usize)),
            None => r is None,
        },
{
    let tokens = split_runs(line, Separator::NonNumeric);
    assert(tokens@.map_values(|w: &str| w@).len() == tokens@.len());
    if tokens.len() != 2 {
        return None;
    }
    assert(tokens@.map_values(|w: &str| w@)[0] == tokens@[0]@);
    assert(tokens@.map_values(|w: &str| w@)[1] == tokens@[1]@);
    let i = match parse_positive(tokens[0]) {
        Some(i) => i,
        None => return None,
    };
    let j = match parse_positive(tokens[1]) {
        Some(j) => j,
        None => return None,
    };
    if i <= j {
        Some((i, j))
    } else {
        Some((j, i))
    }
}

/// Carries out the merge that a line of input asks for, or says why not;
/// a refused request leaves `seq` as it was.
pub fn merge_request<'a>(seq: &mut Vec<Constituent<'a>>, line: &str) -> (r: Result<(), MergeError>)
    ensures
        match indices_of(line@) {
            None => r == Err::<(), MergeError>(MergeError::Malformed) && final(seq)@ == old(seq)@,
            Some((i, j)) => match merged(old(seq)@, i, j) {
                Ok(s) => r is Ok && final(seq)@ == s,
                Err(e) => r == Err::<(), MergeError>(e) && final(seq)@ == old(seq)@,
            },
        },
{
    match parse_indices(line) {
        None => Err(MergeError::Malformed),
        Some((i, j)) => select_and_merge(seq, i, j),
    }
}

/// The words of a sequence of trees, left to right.
pub open spec fn row_frontier<'a>(s: Seq<Constituent<'a>>) -> Seq<Seq<char>>
    decreases s.len(),
{
    if s.len() == 0 {
        Seq::empty()
    } else {
        row_frontier(s.drop_last()) + frontier(s.last())
    }
}

/// The number of pairs in a sequence of trees.
pub open spec fn row_pairs<'a>(s: Seq<Constituent<'a>>) -> nat
    decreases s.len(),
{
    if s.len() == 0 {
        0
    } else {
        row_pairs(s.drop_last()) + pair_count(s.last())
    }
}

/// The sequence after a run of merge requests, each applied to what the
/// earlier ones left; a refused request leaves the sequence as it is.
pub open spec fn merge_all<'a>(s: Seq<Constituent<'a>>, reqs: Seq<(int, int)>) -> Seq<Constituent<'a>>
    decreases reqs.len(),
{
    if reqs.len() == 0 {
        s
    } else {
        let next = match merged(s, reqs[0].0, reqs[0].1) {
            Ok(t) => t,
            Err(_) => s,
        };
        merge_all(next, reqs.drop_first())
    }
}

/// How many requests of a run were carried out.
pub open spec fn accepted<'a>(s: Seq<Constituent<'a>>, reqs: Seq<(int, int)>) -> nat
    decreases reqs.len(),
{
    if reqs.len() == 0 {
        0
    } else {
        match merged(s, reqs[0].0, reqs[0].1) {
            Ok(t) => accepted(t, reqs.drop_first()) + 1,
            Err(_) => accepted(s, reqs.drop_first()),
        }
    }
}

proof fn lemma_row_concat<'a>(a: Seq<Constituent<'a>>, b: Seq<Constituent<'a>>)
    ensures
        row_frontier(a + b) == row_frontier(a) + row_frontier(b),
        row_pairs(a + b) == row_pairs(a) + row_pairs(b),
    decreases b.len(),
{
    if b.len() == 0 {
        assert(a + b =~= a);
        assert(row_frontier(a) + row_frontier(b) =~= row_frontier(a));
    } else {
        lemma_row_concat(a, b.drop_last());
        assert((a + b).drop_last() =~= a + b.drop_last());
        assert((a + b).last() == b.last());
        assert(row_frontier(a + b) =~= row_frontier(a) + row_frontier(b));
    }
}

proof fn lemma_row_single<'a>(c: Constituent<'a>)
    ensures
        row_frontier(seq![c]) == frontier(c),
        row_pairs(seq![c]) == pair_count(c),
{
    let e = Seq::<Constituent<'a>>::empty();
    assert(seq![c].drop_last() =~= e);
    assert(row_frontier(e) == Seq::<Seq<char>>::empty());
    assert(row_pairs(e) == 0);
    assert(row_frontier(seq![c]) =~= frontier(c));
}

/// A carried-out merge shortens the sequence by one, keeps its words in
/// order, and adds exactly one pair.
pub proof fn lemma_merge_step<'a>(s: Seq<Constituent<'a>>, i: int, j: int)
    requires
        merged(s, i, j) is Ok,
    ensures
        merged(s, i, j)->Ok_0.len() + 1 == s.len(),
        row_frontier(merged(s, i, j)->Ok_0) == row_frontier(s),
        row_pairs(merged(s, i, j)->Ok_0) == row_pairs(s) + 1,
{
    let lo = if i <= j { i } else { j };
    let pair = Constituent::Pair(Box::new(s[lo - 1]), Box::new(s[lo]));
    let front = s.take(lo - 1);
    let back = s.skip(lo + 1);
    assert(s =~= front + (seq![s[lo - 1]] + seq![s[lo]]) + back);
    assert(merged(s, i, j)->Ok_0 =~= front + seq![pair] + back);
    lemma_row_concat(front + (seq![s[lo - 1]] + seq![s[lo]]), back);
    lemma_row_concat(front, seq![s[lo - 1]] + seq![s[lo]]);
    lemma_row_concat(seq![s[lo - 1]], seq![s[lo]]);
    lemma_row_concat(front + seq![pair], back);
    lemma_row_concat(front, seq![pair]);
    lemma_row_single(s[lo - 1]);
    lemma_row_single(s[lo]);
    lemma_row_single(pair);
    assert(frontier(pair) == frontier(s[lo - 1]) + frontier(s[lo]));
    assert(row_frontier(merged(s, i, j)->Ok_0) =~= row_frontier(s));
}

/// Whatever the order of the requests, every carried-out merge removes one
/// root: a run over `n` trees with `n - 1` carried-out merges ends with one
/// tree, and no run empties a sequence that held a tree.
pub proof fn lemma_merge_count<'a>(s: Seq<Constituent<'a>>, reqs: Seq<(int, int)>)
    ensures
        merge_all(s, reqs).len() + accepted(s, reqs) == s.len(),
        s.len() >= 1 ==> merge_all(s, reqs).len() >= 1,
    decreases reqs.len(),
{
    if reqs.len() > 0 {
        match merged(s, reqs[0].0, reqs[0].1) {
            Ok(t) => {
                lemma_merge_step(s, reqs[0].0, reqs[0].1);
                lemma_merge_count(t, reqs.drop_first());
            },
            Err(_) => {
                lemma_merge_count(s, reqs.drop_first());
            },
        }
    }
}

/// A run of merges keeps the words in their order and adds one pair for
/// each carried-out merge.
pub proof fn lemma_merge_keeps_words<'a>(s: Seq<Constituent<'a>>, reqs: Seq<(int, int)>)
    ensures
        row_frontier(merge_all(s, reqs)) == row_frontier(s),
        row_pairs(merge_all(s, reqs)) == row_pairs(s) + accepted(s, reqs),
    decreases reqs.len(),
{
    if reqs.len() > 0 {
        match merged(s, reqs[0].0, reqs[0].1) {
            Ok(t) => {
                lemma_merge_step(s, reqs[0].0, reqs[0].1);
                lemma_merge_keeps_words(t, reqs.drop_first());
            },
            Err(_) => {
                lemma_merge_keeps_words(s, reqs.drop_first());
            },
        }
    }
}

/// A row of words.
pub open spec fn all_words<'a>(s: Seq<Constituent<'a>>) -> bool {
    forall|k: int| 0 <= k < s.len() ==> #[trigger] s[k] is Word
}

proof fn lemma_word_row<'a>(s: Seq<Constituent<'a>>)
    requires
        all_words(s),
    ensures
        row_pairs(s) == 0,
        row_frontier(s) == s.map_values(|c: Constituent<'a>| c->Word_0@),
    decreases s.len(),
{
    if s.len() > 0 {
        lemma_word_row(s.drop_last());
        assert(row_frontier(s) =~= s.map_values(|c: Constituent<'a>| c->Word_0@));
    }
}

/// When a run of merges over a row of `n` words ends with a single tree,
/// that tree holds the `n` words in the order they came and `n - 1` pairs.
pub proof fn lemma_finished_tree<'a>(s: Seq<Constituent<'a>>, reqs: Seq<(int, int)>)
    requires
        all_words(s),
        merge_all(s, reqs).len() == 1,
    ensures
        frontier(merge_all(s, reqs)[0]) == s.map_values(|c: Constituent<'a>| c->Word_0@),
        pair_count(merge_all(s, reqs)[0]) + 1 == s.len(),
{
    let t = merge_all(s, reqs);
    lemma_merge_count(s, reqs);
    lemma_merge_keeps_words(s, reqs);
    lemma_word_row(s);
    assert(t =~= seq![t[0]]);
    lemma_row_single(t[0]);
}

} // verus!
