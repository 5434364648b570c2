use vstd::prelude::*;
use crate::constituent::{Constituent, node_count, lemma_words_and_pairs};
use crate::mark::{Label, Mark, ConsistencyError, leaf_normal};

verus! {

/// A constituency tree in which every node carries a mark.
#[derive(Debug, PartialEq, Eq)]
pub enum AnnotatedConstituent<'a, M> {
    APair(M, Box<AnnotatedConstituent<'a, M>>, Box<AnnotatedConstituent<'a, M>>),
    AWord(M, &'a str),
}

pub open spec fn mark_of<'a, M>(a: AnnotatedConstituent<'a, M>) -> M {
    match a {
        AnnotatedConstituent::APair(m, _, _) => m,
        AnnotatedConstituent::AWord(m, _) => m,
    }
}

/// The unmarked tree underneath.
pub open spec fn shape<'a, M>(a: AnnotatedConstituent<'a, M>) -> Constituent<'a>
    decreases a,
{
    match a {
        AnnotatedConstituent::APair(_, l, r) => Constituent::Pair(Box::new(shape(*l)), Box::new(shape(*r))),
        AnnotatedConstituent::AWord(_, w) => Constituent::Word(w),
    }
}

/// The nodes of a tree in post-order: every node after both of its children.
pub open spec fn post_order<'a>(c: Constituent<'a>) -> Seq<Constituent<'a>>
    decreases c,
{
    match c {
        Constituent::Word(_) => seq![c],
        Constituent::Pair(l, r) => post_order(*l) + post_order(*r) + seq![c],
    }
}

/// The marks of a tree in post-order.
pub open spec fn marks_in_post_order<'a, M>(a: AnnotatedConstituent<'a, M>) -> Seq<M>
    decreases a,
{
    match a {
        AnnotatedConstituent::APair(m, l, r) => marks_in_post_order(*l) + marks_in_post_order(*r) + seq![m],
        AnnotatedConstituent::AWord(m, _) => seq![m],
    }
}

/// The tree `c` with the marks `ms` given to its nodes in post-order.
pub open spec fn annotated<'a, M>(c: Constituent<'a>, ms: Seq<M>) -> AnnotatedConstituent<'a, M>
    decreases c,
{
    match c {
        Constituent::Word(w) => AnnotatedConstituent::AWord(ms[ms.len() - 1], w),
        Constituent::Pair(l, r) => {
            let nl = node_count(*l) as int;
            let nr = node_count(*r) as int;
            AnnotatedConstituent::APair(
                ms[nl + nr],
                Box::new(annotated(*l, ms.take(nl))),
                Box::new(annotated(*r, ms.subrange(nl, nl + nr))),
            )
        },
    }
}

/// The text of a marked tree: `[m w]` for a word, `[m L R]` for a pair.
pub open spec fn ashown<'a, M: Label>(a: AnnotatedConstituent<'a, M>) -> Seq<char>
    decreases a,
{
    match a {
        AnnotatedConstituent::AWord(m, w) => seq!['['] + m.label_view() + seq![' '] + w@ + seq![']'],
        AnnotatedConstituent::APair(m, l, r) => seq!['['] + m.label_view() + seq![' '] + ashown(*l) + seq![' ']
            + ashown(*r) + seq![']'],
    }
}

impl<'a, M> AnnotatedConstituent<'a, M> {
    /// The mark on this node.
    pub fn mark(&self) -> (r: &M)
        ensures
            *r == mark_of(*self),
    {
        match self {
            AnnotatedConstituent::APair(m, _, _) => m,
            AnnotatedConstituent::AWord(m, _) => m,
        }
    }
}

impl<'a, M: Label> AnnotatedConstituent<'a, M> {
    /// The text of this marked tree.
    pub fn display(&self) -> (r: String)
        ensures
            r@ == ashown(*self),
        decreases *self,
    {
        match self {
            AnnotatedConstituent::AWord(m, w) => {
                let mut s = String::from_str("[");
                let label = m.label();
                s.append(label.as_str());
                s.append(" ");
                s.append(w);
                s.append("]");
                proof {
                    reveal_strlit("[");
                    reveal_strlit(" ");
                    reveal_strlit("]");
                }
                assert(s@ =~= ashown(*self));
                s
            },
            AnnotatedConstituent::APair(m, l, r) => {
                let mut s = String::from_str("[");
                let label = m.label();
                let left = l.display();
                let right = r.display();
                s.append(label.as_str());
                s.append(" ");
                s.append(left.as_str());
                s.append(" ");
                s.append(right.as_str());
                s.append("]");
                proof {
                    reveal_strlit("[");
                    reveal_strlit(" ");
                    reveal_strlit("]");
                }
                assert(s@ =~= ashown(*self));
                s
            },
        }
    }
}

/// What to show when asking for the mark of the next node of `c` in
/// post-order, given the marks `ms` of the nodes before it: `[? w]` for a
/// word, or `[? L R]` for a pair, with its two children already marked.
pub open spec fn prompt_text<'a, M: Label>(c: Constituent<'a>, ms: Seq<M>) -> Seq<char> {
    let k = ms.len() as int;
    let node = post_order(c)[k];
    let own = ms.subrange(k + 1 - node_count(node), k);
    match node {
        Constituent::Word(w) => seq!['[', '?', ' '] + w@ + seq![']'],
        Constituent::Pair(l, r) => {
            let nl = node_count(*l) as int;
            seq!['[', '?', ' '] + ashown(annotated(*l, own.take(nl))) + seq![' '] + ashown(
                annotated(*r, own.skip(nl)),
            ) + seq![']']
        },
    }
}

/// The text of `c` marked with `marks[off..]` in post-order, built without
/// taking the marks out of `marks`.
fn show_marked<'a, M: Label>(c: &Constituent<'a>, marks: &Vec<M>, off: usize) -> (r: String)
    requires
        off + node_count(*c) <= marks@.len(),
    ensures
        r@ == ashown(annotated(*c, marks@.subrange(off as int, off + node_count(*c)))),
    decreases *c,
{
    let ghost ms = marks@.subrange(off as int, off + node_count(*c));
    let len = marks.len();
    assert(off + node_count(*c) <= len);
    match c {
        Constituent::Word(w) => {
            let mut s = String::from_str("[");
            let label = marks[off].label();
            s.append(label.as_str());
            s.append(" ");
            s.append(w);
            s.append("]");
            proof {
                reveal_strlit("[");
                reveal_strlit(" ");
                reveal_strlit("]");
            }
            assert(ms[ms.len() - 1] == marks@[off as int]);
            assert(s@ =~= ashown(annotated(*c, ms)));
            s
        },
        Constituent::Pair(l, r) => {
            let nl = node_total(l);
            let nr = node_total(r);
            let label = marks[off + nl + nr].label();
            let left = show_marked(l, marks, off);
            let right = show_marked(r, marks, off + nl);
            let mut s = String::from_str("[");
            s.append(label.as_str());
            s.append(" ");
            s.append(left.as_str());
            s.append(" ");
            s.append(right.as_str());
            s.append("]");
            proof {
                reveal_strlit("[");
                reveal_strlit(" ");
                reveal_strlit("]");
                assert(ms.take(nl as int) =~= marks@.subrange(off as int, off + nl));
                assert(ms.subrange(nl as int, nl + nr) =~= marks@.subrange(off + nl, off + nl + nr));
                assert(ms[nl + nr] == marks@[off + nl + nr]);
            }
            assert(s@ =~= ashown(annotated(*c, ms)));
            s
        },
    }
}

fn prompt_from<'a, M: Label>(c: &Constituent<'a>, marks: &Vec<M>, off: usize, k: usize) -> (r: String)
    requires
        k < node_count(*c) <= usize::MAX,
        off + k <= marks@.len(),
    ensures
        r@ == prompt_text(*c, marks@.subrange(off as int, off + k)),
    decreases *c,
{
    let ghost ms = marks@.subrange(off as int, off + k);
    let len = marks.len();
    assert(off + k <= len);
    proof {
        lemma_post_order_len(*c);
    }
    match c {
        Constituent::Word(w) => {
            let mut s = String::from_str("[? ");
            s.append(w);
            s.append("]");
            proof {
                reveal_strlit("[? ");
                reveal_strlit("]");
            }
            assert(s@ =~= prompt_text(*c, ms));
            s
        },
        Constituent::Pair(l, r) => {
            proof {
                lemma_post_order_len(**l);
                lemma_post_order_len(**r);
            }
            let ghost pl = post_order(**l);
            let ghost pr = post_order(**r);
            let nl = node_total(l);
            if k < nl {
                let s = prompt_from(l, marks, off, k);
                assert(post_order(*c)[k as int] == pl[k as int]);
                return s;
            }
            let nr = node_total(r);
            if k < nl + nr {
                let s = prompt_from(r, marks, off + nl, k - nl);
                proof {
                    let j = k - nl;
                    let node = pr[j];
                    let ms2 = marks@.subrange(off + nl, off + k);
                    assert(post_order(*c)[k as int] == node);
                    assert(ms.subrange(k + 1 - node_count(node), k as int) =~= ms2.subrange(
                        j + 1 - node_count(node),
                        j,
                    ));
                }
                return s;
            }
            let left = show_marked(l, marks, off);
            let right = show_marked(r, marks, off + nl);
            let mut s = String::from_str("[? ");
            s.append(left.as_str());
            s.append(" ");
            s.append(right.as_str());
            s.append("]");
            proof {
                reveal_strlit("[? ");
                reveal_strlit(" ");
                reveal_strlit("]");
                let own = ms.subrange(0, k as int);
                assert(own =~= ms);
                assert(own.take(nl as int) =~= marks@.subrange(off as int, off + nl));
                assert(own.skip(nl as int) =~= marks@.subrange(off + nl, off + nl + nr));
            }
            assert(s@ =~= prompt_text(*c, ms));
            s
        },
    }
}

/// The question for the next node of `c` to be marked, in post-order, when
/// `marks` holds the marks given so far.
pub fn prompt_for<'a, M: Label>(c: &Constituent<'a>, marks: &Vec<M>) -> (r: String)
    requires
        marks@.len() < node_count(*c) <= usize::MAX,
    ensures
        r@ == prompt_text(*c, marks@),
{
    let r = prompt_from(c, marks, 0, marks.len());
    assert(marks@.subrange(0, marks@.len() as int) =~= marks@);
    r
}

/// The tree in the bracket notation of the qtree typesetting package: a word
/// as `[.m\\w ]`, a pair as `[.m L R ]`.
pub open spec fn qtree<'a, M: Label>(a: AnnotatedConstituent<'a, M>) -> Seq<char>
    decreases a,
{
    match a {
        AnnotatedConstituent::AWord(m, w) => seq!['[', '.'] + m.label_view() + seq!['\\', '\\'] + w@ + seq![' ', ']'],
        AnnotatedConstituent::APair(m, l, r) => seq!['[', '.'] + m.label_view() + seq![' '] + qtree(*l) + seq![' ']
            + qtree(*r) + seq![' ', ']'],
    }
}

/// Whether some pair of the tree is marked as a bare category.
pub open spec fn has_bare_pair<'a>(a: AnnotatedConstituent<'a, Mark>) -> bool
    decreases a,
{
    match a {
        AnnotatedConstituent::AWord(_, _) => false,
        AnnotatedConstituent::APair(m, l, r) => m is Bare || has_bare_pair(*l) || has_bare_pair(*r),
    }
}

/// The tree with every word's mark made the bare head of its category.
pub open spec fn leaves_normalized<'a>(a: AnnotatedConstituent<'a, Mark>) -> AnnotatedConstituent<'a, Mark>
    decreases a,
{
    match a {
        AnnotatedConstituent::AWord(m, w) => AnnotatedConstituent::AWord(leaf_normal(m), w),
        AnnotatedConstituent::APair(m, l, r) => AnnotatedConstituent::APair(
            m,
            Box::new(leaves_normalized(*l)),
            Box::new(leaves_normalized(*r)),
        ),
    }
}

impl<'a, M: Label> AnnotatedConstituent<'a, M> {
    /// This tree in qtree bracket notation.
    pub fn qtree_text(&self) -> (r: String)
        ensures
            r@ == qtree(*self),
        decreases *self,
    {
        let mut s = String::from_str("[.");
        match self {
            AnnotatedConstituent::AWord(m, w) => {
                let label = m.label();
                s.append(label.as_str());
                s.append("\\\\");
                s.append(w);
                s.append(" ]");
            },
            AnnotatedConstituent::APair(m, l, r) => {
                let label = m.label();
                let left = l.qtree_text();
                let right = r.qtree_text();
                s.append(label.as_str());
                s.append(" ");
                s.append(left.as_str());
                s.append(" ");
                s.append(right.as_str());
                s.append(" ]");
            },
        }
        proof {
            reveal_strlit("[.");
            reveal_strlit("\\\\");
            reveal_strlit(" ");
            reveal_strlit(" ]");
        }
        assert(s@ =~= qtree(*self));
        s
    }

    /// A standalone LaTeX document that draws this tree with tikz-qtree.
    pub fn latex_document(&self) -> (r: String)
        ensures
            r@ == "\\documentclass[12pt, margin=5mm]{standalone}\n\\usepackage{tikz-qtree,tikz-qtree-compat}\n\\tikzset{every tree node/.style={align=center,anchor=north}}\n\\begin{document}\n\n\\Tree "@
                + qtree(*self) + "\n\n\\end{document}\n"@,
    {
        let mut s = String::from_str(
            "\\documentclass[12pt, margin=5mm]{standalone}\n\\usepackage{tikz-qtree,tikz-qtree-compat}\n\\tikzset{every tree node/.style={align=center,anchor=north}}\n\\begin{document}\n\n\\Tree ",
        );
        let body = self.qtree_text();
        s.append(body.as_str());
        s.append("\n\n\\end{document}\n");
        s
    }
}

impl<'a> AnnotatedConstituent<'a, Mark> {
    /// Makes the marks of a whole tree consistent: every word becomes the
    /// bare head of its category, and a pair marked as a bare category is an
    /// error.
    pub fn normalize_marks(self) -> (r: Result<AnnotatedConstituent<'a, Mark>, ConsistencyError>)
        ensures
            r == if has_bare_pair(self) {
                Err::<AnnotatedConstituent<'a, Mark>, ConsistencyError>(ConsistencyError::BarePair)
            } else {
                Ok(leaves_normalized(self))
            },
        decreases self,
    {
        match self {
            AnnotatedConstituent::AWord(m, w) => Ok(AnnotatedConstituent::AWord(m.normalize_leaf(), w)),
            AnnotatedConstituent::APair(m, l, r) => {
                if let Mark::Bare(_) = m {
                    return Err(ConsistencyError::BarePair);
                }
                let left = match l.normalize_marks() {
                    Ok(t) => t,
                    Err(e) => return Err(e),
                };
                let right = match r.normalize_marks() {
                    Ok(t) => t,
                    Err(e) => return Err(e),
                };
                Ok(AnnotatedConstituent::APair(m, Box::new(left), Box::new(right)))
            },
        }
    }
}

/// The number of nodes of `c`.
pub fn node_total<'a>(c: &Constituent<'a>) -> (r: usize)
    requires
        node_count(*c) <= usize::MAX,
    ensures
        r == node_count(*c),
    decreases *c,
{
    match c {
        Constituent::Word(_) => 1,
        Constituent::Pair(l, r) => node_total(l) + node_total(r) + 1,
    }
}

fn annotate_from<'a, M>(c: Constituent<'a>, marks: &mut Vec<M>) -> (r: AnnotatedConstituent<'a, M>)
    requires
        node_count(c) <= old(marks)@.len(),
    ensures
        final(marks)@ == old(marks)@.take(old(marks)@.len() - node_count(c)),
        r == annotated(c, old(marks)@.skip(old(marks)@.len() - node_count(c))),
    decreases c,
{
    let ghost before = marks@;
    match c {
        Constituent::Word(w) => {
            let m = marks.pop().unwrap();
            AnnotatedConstituent::AWord(m, w)
        },
        Constituent::Pair(l, r) => {
            let ghost nl = node_count(*l) as int;
            let ghost nr = node_count(*r) as int;
            let ghost base = before.len() - nl - nr - 1;
            let m = marks.pop().unwrap();
            let right = annotate_from(*r, marks);
            let left = annotate_from(*l, marks);
            proof {
                let own = before.skip(base);
                assert(own.take(nl) =~= before.skip(base).take(nl));
                assert(before.drop_last().take(before.len() - 1 - nr).skip(base) =~= own.take(nl));
                assert(before.drop_last().skip(before.len() - 1 - nr) =~= own.subrange(nl, nl + nr));
                assert(marks@ =~= before.take(base));
            }
            AnnotatedConstituent::APair(m, Box::new(left), Box::new(right))
        },
    }
}

/// Gives the nodes of `c` the marks of `marks` in post-order: each node gets
/// its mark after all the nodes below it.
pub fn annotate<'a, M>(c: Constituent<'a>, marks: Vec<M>) -> (r: AnnotatedConstituent<'a, M>)
    requires
        marks@.len() == node_count(c),
    ensures
        r == annotated(c, marks@),
{
    let mut marks = marks;
    let ghost all = marks@;
    let r = annotate_from(c, &mut marks);
    assert(all.skip(0) =~= all);
    r
}

/// Annotation keeps the shape of the tree, and the marks read back in
/// post-order are the marks given, in the order they were given.
pub proof fn lemma_annotation_shape<'a, M>(c: Constituent<'a>, ms: Seq<M>)
    requires
        ms.len() == node_count(c),
    ensures
        shape(annotated(c, ms)) == c,
        marks_in_post_order(annotated(c, ms)) == ms,
    decreases c,
{
    match c {
        Constituent::Word(_) => {
            assert(ms =~= seq![ms[0]]);
        },
        Constituent::Pair(l, r) => {
            let nl = node_count(*l) as int;
            let nr = node_count(*r) as int;
            lemma_annotation_shape(*l, ms.take(nl));
            lemma_annotation_shape(*r, ms.subrange(nl, nl + nr));
            assert(ms =~= ms.take(nl) + ms.subrange(nl, nl + nr) + seq![ms[nl + nr]]);
        },
    }
}

proof fn lemma_post_order_len<'a>(c: Constituent<'a>)
    ensures
        post_order(c).len() == node_count(c),
        post_order(c).last() == c,
        forall|k: int| 0 <= k < post_order(c).len() ==> node_count(#[trigger] post_order(c)[k]) <= k + 1,
    decreases c,
{
    match c {
        Constituent::Word(_) => {},
        Constituent::Pair(l, r) => {
            lemma_post_order_len(*l);
            lemma_post_order_len(*r);
            let pl = post_order(*l);
            let pr = post_order(*r);
            assert forall|k: int| 0 <= k < post_order(c).len() implies node_count(#[trigger] post_order(c)[k]) <= k + 1 by {
                if k < pl.len() {
                    assert(post_order(c)[k] == pl[k]);
                } else if k < pl.len() + pr.len() {
                    assert(post_order(c)[k] == pr[k - pl.len()]);
                }
            }
        },
    }
}

/// In post-order a pair comes after both of its children: the node just
/// before it is its right child, and its left child comes just before the
/// right child's subtree.
pub proof fn lemma_children_first<'a>(c: Constituent<'a>, k: int)
    requires
        0 <= k < node_count(c),
        post_order(c)[k] is Pair,
    ensures
        ({
            let p = post_order(c)[k];
            let nr = node_count(*p->Pair_1) as int;
            &&& k - 1 - nr >= 0
            &&& post_order(c)[k - 1] == *p->Pair_1
            &&& post_order(c)[k - 1 - nr] == *p->Pair_0
        }),
    decreases c,
{
    lemma_post_order_len(c);
    match c {
        Constituent::Word(_) => {},
        Constituent::Pair(l, r) => {
            lemma_post_order_len(*l);
            lemma_post_order_len(*r);
            let pl = post_order(*l);
            let pr = post_order(*r);
            if k < pl.len() {
                assert(post_order(c)[k] == pl[k]);
                lemma_children_first(*l, k);
                let p = pl[k];
                let nr = node_count(*p->Pair_1) as int;
                assert(post_order(c)[k - 1] == pl[k - 1]);
                assert(post_order(c)[k - 1 - nr] == pl[k - 1 - nr]);
            } else if k < pl.len() + pr.len() {
                let j = k - pl.len();
                assert(post_order(c)[k] == pr[j]);
                lemma_children_first(*r, j);
                let p = pr[j];
                let nr = node_count(*p->Pair_1) as int;
                assert(post_order(c)[k - 1] == pr[j - 1]);
                assert(post_order(c)[k - 1 - nr] == pr[j - 1 - nr]);
            } else {
                lemma_words_and_pairs(*l);
                assert(post_order(c)[k - 1] == pr[pr.len() - 1]);
                assert(post_order(c)[k - 1 - pr.len()] == pl[pl.len() - 1]);
            }
        },
    }
}

} // verus!
