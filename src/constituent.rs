use vstd::prelude::*;
use crate::text::{Separator, runs, split_runs};

verus! {

/// A node of an unannotated constituency tree: a word, or a pair of
/// constituents that each own their subtree.
#[derive(Debug, PartialEq, Eq)]
pub enum Constituent<'a> {
    Pair(Box<Constituent<'a>>, Box<Constituent<'a>>),
    Word(&'a str),
}

/// The bracketed text of a tree: a word as itself, a pair as `[L] [R]`.
pub open spec fn shown(c: Constituent) -> Seq<char>
    decreases c,
{
    match c {
        Constituent::Word(w) => w@,
        Constituent::Pair(l, r) => seq!['['] + shown(*l) + seq![']', ' ', '['] + shown(*r) + seq![']'],
    }
}

/// The words of a tree, left to right.
pub open spec fn frontier(c: Constituent) -> Seq<Seq<char>>
    decreases c,
{
    match c {
        Constituent::Word(w) => seq![w@],
        Constituent::Pair(l, r) => frontier(*l) + frontier(*r),
    }
}

/// The number of pairs in a tree.
pub open spec fn pair_count(c: Constituent) -> nat
    decreases c,
{
    match c {
        Constituent::Word(_) => 0,
        Constituent::Pair(l, r) => pair_count(*l) + pair_count(*r) + 1,
    }
}

/// The number of nodes in a tree, words and pairs together.
pub open spec fn node_count(c: Constituent) -> nat
    decreases c,
{
    match c {
        Constituent::Word(_) => 1,
        Constituent::Pair(l, r) => node_count(*l) + node_count(*r) + 1,
    }
}

/// Every tree has one word more than it has pairs.
pub proof fn lemma_words_and_pairs(c: Constituent)
    ensures
        frontier(c).len() == pair_count(c) + 1,
        node_count(c) == frontier(c).len() + pair_count(c),
        node_count(c) >= 1,
    decreases c,
{
    match c {
        Constituent::Word(_) => {},
        Constituent::Pair(l, r) => {
            lemma_words_and_pairs(*l);
            lemma_words_and_pairs(*r);
        },
    }
}

/// Whether no word of the tree holds a square bracket.
pub open spec fn bracket_free(c: Constituent) -> bool
    decreases c,
{
    match c {
        Constituent::Word(w) => forall|k: int| 0 <= k < w@.len() ==> #[trigger] w@[k] != '[' && w@[k] != ']',
        Constituent::Pair(l, r) => bracket_free(*l) && bracket_free(*r),
    }
}

/// Whether two trees have the same shape and the same words in the same places.
pub open spec fn same_tree(a: Constituent, b: Constituent) -> bool
    decreases a,
{
    match (a, b) {
        (Constituent::Word(x), Constituent::Word(y)) => x@ == y@,
        (Constituent::Pair(al, ar), Constituent::Pair(bl, br)) => same_tree(*al, *bl) && same_tree(*ar, *br),
        _ => false,
    }
}

/// Opening brackets minus closing brackets.
pub open spec fn depth(s: Seq<char>) -> int
    decreases s.len(),
{
    if s.len() == 0 {
        0
    } else {
        depth(s.drop_last()) + if s.last() == '[' {
            1int
        } else if s.last() == ']' {
            -1int
        } else {
            0int
        }
    }
}

/// Every prefix of `s` has depth at least `m`.
pub open spec fn prefixes_at_least(s: Seq<char>, m: int) -> bool {
    forall|i: int| 0 <= i <= s.len() ==> depth(#[trigger] s.take(i)) >= m
}

proof fn lemma_depth_concat(a: Seq<char>, b: Seq<char>)
    ensures
        depth(a + b) == depth(a) + depth(b),
    decreases b.len(),
{
    if b.len() == 0 {
        assert(a + b =~= a);
    } else {
        lemma_depth_concat(a, b.drop_last());
        assert((a + b).drop_last() =~= a + b.drop_last());
    }
}

proof fn lemma_prefixes_concat(a: Seq<char>, b: Seq<char>, m: int)
    requires
        prefixes_at_least(a, m),
        prefixes_at_least(b, m - depth(a)),
    ensures
        prefixes_at_least(a + b, m),
{
    assert forall|i: int| 0 <= i <= (a + b).len() implies depth(#[trigger] (a + b).take(i)) >= m by {
        if i <= a.len() {
            assert((a + b).take(i) =~= a.take(i));
        } else {
            assert((a + b).take(i) =~= a + b.take(i - a.len()));
            assert(depth(b.take(i - a.len())) >= m - depth(a));
            lemma_depth_concat(a, b.take(i - a.len()));
        }
    }
}

proof fn lemma_no_brackets_depth(s: Seq<char>)
    requires
        forall|k: int| 0 <= k < s.len() ==> #[trigger] s[k] != '[' && s[k] != ']',
    ensures
        depth(s) == 0,
        prefixes_at_least(s, 0),
    decreases s.len(),
{
    if s.len() > 0 {
        lemma_no_brackets_depth(s.drop_last());
    }
    assert forall|i: int| 0 <= i <= s.len() implies depth(#[trigger] s.take(i)) >= 0 by {
        if i < s.len() {
            assert(s.take(i) =~= s.drop_last().take(i));
        } else {
            assert(s.take(i) =~= s);
        }
    }
}

proof fn lemma_small_prefixes()
    ensures
        depth(seq!['[']) == 1,
        prefixes_at_least(seq!['['], 0),
        depth(seq![']']) == -1,
        prefixes_at_least(seq![']'], -1),
        depth(seq![']', ' ', '[']) == 0,
        prefixes_at_least(seq![']', ' ', '['], -1),
{
    let o = seq!['['];
    let c = seq![']'];
    let m = seq![']', ' ', '['];
    let e = Seq::<char>::empty();
    assert(o.drop_last() =~= e);
    assert(c.drop_last() =~= e);
    assert(m.drop_last() =~= seq![']', ' ']);
    assert(seq![']', ' '].drop_last() =~= c);
    assert(depth(e) == 0);
    assert(depth(o) == 1);
    assert(depth(c) == -1);
    assert(seq![']', ' '].last() == ' ');
    assert(depth(seq![']', ' ']) == -1);
    assert(m.last() == '[');
    assert forall|i: int| 0 <= i <= 1 implies depth(#[trigger] o.take(i)) >= 0 by {
        if i == 0 {
            assert(o.take(i) =~= e);
        } else {
            assert(o.take(i) =~= o);
        }
    }
    assert forall|i: int| 0 <= i <= 1 implies depth(#[trigger] c.take(i)) >= -1 by {
        if i == 0 {
            assert(c.take(i) =~= e);
        } else {
            assert(c.take(i) =~= c);
        }
    }
    assert forall|i: int| 0 <= i <= 3 implies depth(#[trigger] m.take(i)) >= -1 by {
        if i == 0 {
            assert(m.take(i) =~= e);
        } else if i == 1 {
            assert(m.take(i) =~= c);
        } else if i == 2 {
            assert(m.take(i) =~= seq![']', ' ']);
        } else {
            assert(m.take(i) =~= m);
        }
    }
}

/// The text of a bracket-free tree is balanced: no prefix closes more
/// brackets than it opens, and the whole opens as many as it closes.
proof fn lemma_shown_balanced(c: Constituent)
    requires
        bracket_free(c),
    ensures
        depth(shown(c)) == 0,
        prefixes_at_least(shown(c), 0),
    decreases c,
{
    match c {
        Constituent::Word(w) => {
            lemma_no_brackets_depth(w@);
        },
        Constituent::Pair(l, r) => {
            lemma_shown_balanced(*l);
            lemma_shown_balanced(*r);
            lemma_small_prefixes();
            let a = shown(*l);
            let b = shown(*r);
            let x1 = seq!['['] + a;
            let x2 = x1 + seq![']', ' ', '['];
            let x3 = x2 + b;
            lemma_depth_concat(seq!['['], a);
            lemma_prefixes_concat(seq!['['], a, 0);
            lemma_depth_concat(x1, seq![']', ' ', '[']);
            lemma_prefixes_concat(x1, seq![']', ' ', '['], 0);
            lemma_depth_concat(x2, b);
            lemma_prefixes_concat(x2, b, 0);
            lemma_depth_concat(x3, seq![']']);
            lemma_prefixes_concat(x3, seq![']'], 0);
        },
    }
}

/// The bracketed text gives the tree back: two trees whose words hold no
/// square brackets and whose texts are equal have the same shape and the
/// same words in the same places.
pub proof fn lemma_display_determines_shape(a: Constituent, b: Constituent)
    requires
        bracket_free(a),
        bracket_free(b),
        shown(a) == shown(b),
    ensures
        same_tree(a, b),
    decreases a,
{
    match (a, b) {
        (Constituent::Word(_), Constituent::Word(_)) => {},
        (Constituent::Word(w), Constituent::Pair(_, _)) => {
            assert(shown(b)[0] == '[');
            assert(w@[0] != '[');
        },
        (Constituent::Pair(_, _), Constituent::Word(w)) => {
            assert(shown(a)[0] == '[');
            assert(w@[0] != '[');
        },
        (Constituent::Pair(al, ar), Constituent::Pair(bl, br)) => {
            let s = shown(a);
            let a1 = shown(*al);
            let a2 = shown(*bl);
            let b1 = shown(*ar);
            let b2 = shown(*br);
            lemma_shown_balanced(*al);
            lemma_shown_balanced(*bl);
            lemma_small_prefixes();
            lemma_left_part_not_shorter(s, a1, b1, a2, b2);
            lemma_left_part_not_shorter(s, a2, b2, a1, b1);
            let n = a1.len() as int;
            assert(a1 =~= s.subrange(1, n + 1));
            assert(a2 =~= s.subrange(1, n + 1));
            assert(b1 =~= s.subrange(n + 4, s.len() - 1));
            assert(b2 =~= s.subrange(n + 4, s.len() - 1));
            lemma_display_determines_shape(*al, *bl);
            lemma_display_determines_shape(*ar, *br);
        },
    }
}

/// A pair's text cannot also be read with a longer left part: the bracket
/// that closes the shorter left part brings the depth back to zero, which
/// never happens inside a balanced left part.
proof fn lemma_left_part_not_shorter(s: Seq<char>, a1: Seq<char>, b1: Seq<char>, a2: Seq<char>, b2: Seq<char>)
    requires
        depth(a1) == 0,
        prefixes_at_least(a2, 0),
        s == seq!['['] + a1 + seq![']', ' ', '['] + b1 + seq![']'],
        s == seq!['['] + a2 + seq![']', ' ', '['] + b2 + seq![']'],
    ensures
        a1.len() >= a2.len(),
{
    if a1.len() < a2.len() {
        let n = a1.len() as int;
        lemma_small_prefixes();
        assert(s.take(n + 2) =~= seq!['['] + a1 + seq![']']);
        assert(s.take(n + 2) =~= seq!['['] + a2.take(n + 1));
        lemma_depth_concat(seq!['['], a1);
        lemma_depth_concat(seq!['['] + a1, seq![']']);
        lemma_depth_concat(seq!['['], a2.take(n + 1));
        assert(depth(a2.take(n + 1)) >= 0);
    }
}

impl<'a> Constituent<'a> {
    /// The bracketed text of this tree.
    pub fn display(&self) -> (r: String)
        ensures
            r@ == shown(*self),
        decreases *self,
    {
        match self {
            Constituent::Word(w) => String::from_str(w),
            Constituent::Pair(l, r) => {
                let left = l.display();
                let right = r.display();
                let mut s = String::from_str("[");
                s.append(left.as_str());
                s.append("] [");
                s.append(right.as_str());
                s.append("]");
                proof {
                    reveal_strlit("[");
                    reveal_strlit("] [");
                    reveal_strlit("]");
                }
                assert(s@ =~= shown(*self));
                s
            },
        }
    }
}

/// The words of a sentence as a row of leaves, in order: the maximal runs of
/// characters without white space.
pub fn leaves_of<'a>(sentence: &'a str) -> (r: Vec<Constituent<'a>>)
    ensures
        r@.len() == runs(sentence@, Separator::Whitespace).len(),
        forall|k: int|
            0 <= k < r@.len() ==> #[trigger] r@[k] is Word && r@[k]->Word_0@ == runs(
                sentence@,
                Separator::Whitespace,
            )[k],
{
    let words = split_runs(sentence, Separator::Whitespace);
    let ghost ws = words@.map_values(|w: &'a str| w@);
    let mut out: Vec<Constituent<'a>> = Vec::new();
    let mut i: usize = 0;
    while i < words.len()
        invariant
            i <= words@.len(),
            ws == words@.map_values(|w: &'a str| w@),
            ws == runs(sentence@, Separator::Whitespace),
            out@.len() == i,
            forall|k: int| 0 <= k < i ==> #[trigger] out@[k] is Word && out@[k]->Word_0@ == ws[k],
        decreases words@.len() - i,
    {
        out.push(Constituent::Word(words[i]));
        i = i + 1;
    }
    out
}

} // verus!
