//! Annotates an expression tree for direct DFA construction. Every leaf
//! (character or empty string) receives a unique position in left-to-right
//! order, and every node is decorated with its nullability and with the sets
//! of positions that can match the first and the last character of a string
//! it accepts. A synthetic terminal leaf is appended after the whole
//! expression: a state of the later automaton accepts exactly when it holds
//! the terminal's position.

use vstd::prelude::*;
use crate::parser::ExpTree;
use crate::parser::Expression;
use crate::parser::expr_view;
use crate::parser::expr_views;
use crate::parser::lemma_expr_views;
use crate::pos_set::PosSet;
use crate::pos_set::merge;
use crate::pos_set::strictly_sorted;

verus! {

/// Represents the expression tree recursively.
#[derive(Debug, PartialEq)]
pub enum AnnotatedExpressionType {
    Char(char, usize),
    EmptyString(usize),
    /// Represents the end of the regular expression. This is only necessary
    /// for creating the DFA.
    Terminal(usize),
    Closure(Box<AnnotatedExpression>),
    Concatenation(Vec<AnnotatedExpression>),
    Choice(Vec<AnnotatedExpression>),
}

/// Represents an expression annotated as necessary for creating a DFA.
#[derive(Debug, PartialEq)]
pub struct AnnotatedExpression {
    /// The expression itself.
    pub expression: AnnotatedExpressionType,
    /// Represents whether this expression matches the empty string.
    pub is_nullable: bool,
    /// The leaf positions which could match the start of a string accepted
    /// by this expression.
    pub matches_start: PosSet,
    /// The leaf positions which could match the end of a string accepted by
    /// this expression.
    pub matches_end: PosSet,
}

/// Stores an expression and a vector of the leaves of that expression,
/// allowing indexed access by position.
#[derive(Debug)]
pub struct AnnotatedExpressionContext {
    pub expression: AnnotatedExpression,
    pub leaves: Vec<AnnotatedExpression>,
}

/// Raised if the number of leaf nodes exceeds the capacity of a position.
#[derive(Debug, PartialEq)]
pub struct NodeOverflowError {
    pub size: usize,
}

/// Raised if the input expression is invalid.
#[derive(Debug, PartialEq)]
pub struct InvalidExpressionError {}

/// Wraps all annotator-based errors.
#[derive(Debug, PartialEq)]
pub enum AnnotationError {
    NodeOverflow(NodeOverflowError),
    InvalidExpression(InvalidExpressionError),
}

/// The mathematical shape of an annotated node.
pub enum AnnKind {
    Char(char, usize),
    EmptyString(usize),
    Terminal(usize),
    Closure(Box<AnnTree>),
    Concatenation(Seq<AnnTree>),
    Choice(Seq<AnnTree>),
}

/// The mathematical shape of an annotated expression: its node shape, its
/// nullability, and its first and last position sets in canonical order.
pub struct AnnTree {
    pub kind: AnnKind,
    pub nullable: bool,
    pub first: Seq<usize>,
    pub last: Seq<usize>,
}

/// The view of each annotated expression of a sequence, in order.
pub open spec fn ann_views(s: Seq<AnnotatedExpression>) -> Seq<AnnTree>
    decreases s,
{
    if s.len() == 0 {
        Seq::empty()
    } else {
        seq![ann_view(s[0])] + ann_views(s.drop_first())
    }
}

/// The mathematical shape of an annotated expression.
pub open spec fn ann_view(a: AnnotatedExpression) -> AnnTree
    decreases a,
{
    AnnTree {
        kind: match a.expression {
            AnnotatedExpressionType::Char(c, i) => AnnKind::Char(c, i),
            AnnotatedExpressionType::EmptyString(i) => AnnKind::EmptyString(i),
            AnnotatedExpressionType::Terminal(i) => AnnKind::Terminal(i),
            AnnotatedExpressionType::Closure(b) => AnnKind::Closure(Box::new(ann_view(*b))),
            AnnotatedExpressionType::Concatenation(cs) => AnnKind::Concatenation(ann_views(cs@)),
            AnnotatedExpressionType::Choice(cs) => AnnKind::Choice(ann_views(cs@)),
        },
        nullable: a.is_nullable,
        first: a.matches_start@,
        last: a.matches_end@,
    }
}

/// `ann_views` maps each element to its view.
pub proof fn lemma_ann_views(s: Seq<AnnotatedExpression>)
    ensures
        ann_views(s).len() == s.len(),
        forall|i: int| 0 <= i < s.len() ==> ann_views(s)[i] == ann_view(s[i]),
    decreases s,
{
    if s.len() > 0 {
        lemma_ann_views(s.drop_first());
        assert(forall|i: int| 0 < i < s.len() ==> s.drop_first()[i - 1] == s[i]);
    }
}

/// Appending one node extends the sequence of views by its view.
pub proof fn lemma_ann_views_push(s: Seq<AnnotatedExpression>, a: AnnotatedExpression)
    ensures
        ann_views(s.push(a)) == ann_views(s).push(ann_view(a)),
{
    lemma_ann_views(s);
    lemma_ann_views(s.push(a));
    assert(forall|i: int| 0 <= i < s.len() ==> s.push(a)[i] == s[i]);
    assert(s.push(a)[s.len() as int] == a);
    assert(ann_views(s.push(a)) =~= ann_views(s).push(ann_view(a)));
}

/// The annotated leaf standing for `Char(c)` at position `pos`.
pub open spec fn char_leaf(c: char, pos: usize) -> AnnTree {
    AnnTree {
        kind: AnnKind::Char(c, pos),
        nullable: false,
        first: seq![pos],
        last: seq![pos],
    }
}

/// The annotated leaf standing for the empty string at position `pos`.
pub open spec fn empty_leaf(pos: usize) -> AnnTree {
    AnnTree {
        kind: AnnKind::EmptyString(pos),
        nullable: true,
        first: Seq::empty(),
        last: Seq::empty(),
    }
}

/// The synthetic terminal leaf at position `pos`.
pub open spec fn terminal_leaf(pos: usize) -> AnnTree {
    AnnTree {
        kind: AnnKind::Terminal(pos),
        nullable: false,
        first: seq![pos],
        last: seq![pos],
    }
}

/// Annotates the children of a choice left to right, threading the next free
/// position and accumulating nullability (any nullable child) and the unions
/// of the children's first and last position sets. Returns the annotated
/// children, the accumulators, the next free position, and the leaves added.
pub open spec fn spec_annotate_choice(
    es: Seq<ExpTree>,
    next: int,
    nul: bool,
    first: Seq<usize>,
    last: Seq<usize>,
) -> Result<(Seq<AnnTree>, bool, Seq<usize>, Seq<usize>, int, Seq<AnnTree>), AnnotationError>
    decreases es,
{
    if es.len() == 0 {
        Ok((Seq::empty(), nul, first, last, next, Seq::empty()))
    } else {
        match spec_annotate(es[0], next) {
            Err(e) => Err(e),
            Ok((child, n2, lv)) => {
                match spec_annotate_choice(
                    es.drop_first(),
                    n2,
                    nul || child.nullable,
                    merge(first, child.first),
                    merge(last, child.last),
                ) {
                    Err(e) => Err(e),
                    Ok((children, nul3, f3, l3, n3, lv3)) => Ok(
                        (seq![child] + children, nul3, f3, l3, n3, lv + lv3),
                    ),
                }
            },
        }
    }
}

/// Annotates the children of a concatenation left to right. `p` is the
/// all-nullable-so-far flag: the first position set accumulates a child's
/// first positions while the prefix before it is nullable; the last position
/// set accumulates a child's last positions when it is the final child or
/// the prefix through it is nullable, and resets otherwise.
pub open spec fn spec_annotate_concat(
    es: Seq<ExpTree>,
    next: int,
    p: bool,
    first: Seq<usize>,
    last: Seq<usize>,
) -> Result<(Seq<AnnTree>, bool, Seq<usize>, Seq<usize>, int, Seq<AnnTree>), AnnotationError>
    decreases es,
{
    if es.len() == 0 {
        Ok((Seq::empty(), p, first, last, next, Seq::empty()))
    } else {
        match spec_annotate(es[0], next) {
            Err(e) => Err(e),
            Ok((child, n2, lv)) => {
                let first2 = if p {
                    merge(first, child.first)
                } else {
                    first
                };
                let p2 = p && child.nullable;
                let last2 = if es.len() == 1 || p2 {
                    merge(last, child.last)
                } else {
                    Seq::empty()
                };
                match spec_annotate_concat(es.drop_first(), n2, p2, first2, last2) {
                    Err(e) => Err(e),
                    Ok((children, p3, f3, l3, n3, lv3)) => Ok(
                        (seq![child] + children, p3, f3, l3, n3, lv + lv3),
                    ),
                }
            },
        }
    }
}

/// Annotates an expression bottom-up, assigning positions from `next` on.
/// Returns the annotated tree, the next free position, and the leaves in
/// position order. Fails on a concatenation with no children, and on a
/// position that would not fit a `usize`.
pub open spec fn spec_annotate(e: ExpTree, next: int) -> Result<
    (AnnTree, int, Seq<AnnTree>),
    AnnotationError,
>
    decreases e,
{
    match e {
        ExpTree::Char(c) => {
            if next >= usize::MAX {
                Err(AnnotationError::NodeOverflow((NodeOverflowError { size: usize::MAX })))
            } else {
                Ok((char_leaf(c, next as usize), next + 1, seq![char_leaf(c, next as usize)]))
            }
        },
        ExpTree::EmptyString => {
            if next >= usize::MAX {
                Err(AnnotationError::NodeOverflow((NodeOverflowError { size: usize::MAX })))
            } else {
                Ok((empty_leaf(next as usize), next + 1, seq![empty_leaf(next as usize)]))
            }
        },
        ExpTree::Closure(b) => {
            match spec_annotate(*b, next) {
                Err(e) => Err(e),
                Ok((child, n2, lv)) => Ok(
                    (
                        AnnTree {
                            first: child.first,
                            last: child.first,
                            kind: AnnKind::Closure(Box::new(child)),
                            nullable: true,
                        },
                        n2,
                        lv,
                    ),
                ),
            }
        },
        ExpTree::Choice(es) => {
            match spec_annotate_choice(es, next, false, Seq::empty(), Seq::empty()) {
                Err(e) => Err(e),
                Ok((children, nul, f, l, n2, lv)) => Ok(
                    (
                        AnnTree { kind: AnnKind::Choice(children), nullable: nul, first: f, last: l },
                        n2,
                        lv,
                    ),
                ),
            }
        },
        ExpTree::Concatenation(es) => {
            if es.len() == 0 {
                Err(AnnotationError::InvalidExpression((InvalidExpressionError {  })))
            } else {
                match spec_annotate_concat(es, next, true, Seq::empty(), Seq::empty()) {
                    Err(e) => Err(e),
                    Ok((children, p, f, l, n2, lv)) => Ok(
                        (
                            AnnTree {
                                kind: AnnKind::Concatenation(children),
                                nullable: p,
                                first: f,
                                last: l,
                            },
                            n2,
                            lv,
                        ),
                    ),
                }
            }
        },
    }
}

/// Annotates a complete expression: positions start at zero, a terminal leaf
/// is appended at the next free position, and the original root and the
/// terminal are wrapped in a synthetic two-child concatenation whose first
/// and last position sets admit the terminal exactly as the concatenation
/// rule does.
pub open spec fn spec_annotate_ast(e: ExpTree) -> Result<(AnnTree, Seq<AnnTree>), AnnotationError> {
    match spec_annotate(e, 0) {
        Err(er) => Err(er),
        Ok((tree, n, leaves)) => {
            if n >= usize::MAX {
                Err(AnnotationError::NodeOverflow((NodeOverflowError { size: usize::MAX })))
            } else {
                let terminal = terminal_leaf(n as usize);
                let cs = if tree.nullable {
                    merge(merge(Seq::empty(), terminal.first), tree.first)
                } else {
                    merge(Seq::empty(), tree.first)
                };
                let ce = if tree.nullable {
                    merge(merge(Seq::empty(), tree.last), terminal.last)
                } else {
                    merge(Seq::empty(), terminal.last)
                };
                let root = AnnTree {
                    kind: AnnKind::Concatenation(seq![tree, terminal]),
                    nullable: false,
                    first: cs,
                    last: ce,
                };
                Ok((root, leaves.push(terminal)))
            }
        },
    }
}

/// All positions of `s` lie in `[lo, hi)`.
pub open spec fn pos_bounded(s: Seq<usize>, lo: int, hi: int) -> bool {
    forall|i: int| 0 <= i < s.len() ==> lo <= #[trigger] s[i] < hi
}

/// Well-formedness of a sequence of annotated trees, each over `[lo, hi)`.
pub open spec fn ann_trees_wf(s: Seq<AnnTree>, lo: int, hi: int) -> bool
    decreases s,
{
    if s.len() == 0 {
        true
    } else {
        ann_tree_wf(s[0], lo, hi) && ann_trees_wf(s.drop_first(), lo, hi)
    }
}

/// Well-formedness of an annotated tree: its first and last position sets
/// are canonical and, like every position in the tree, lie in `[lo, hi)`.
pub open spec fn ann_tree_wf(t: AnnTree, lo: int, hi: int) -> bool
    decreases t,
{
    &&& strictly_sorted(t.first)
    &&& strictly_sorted(t.last)
    &&& pos_bounded(t.first, lo, hi)
    &&& pos_bounded(t.last, lo, hi)
    &&& match t.kind {
        AnnKind::Char(_, i) => lo <= i < hi,
        AnnKind::EmptyString(i) => lo <= i < hi,
        AnnKind::Terminal(i) => lo <= i < hi,
        AnnKind::Closure(b) => ann_tree_wf(*b, lo, hi),
        AnnKind::Concatenation(cs) => ann_trees_wf(cs, lo, hi),
        AnnKind::Choice(cs) => ann_trees_wf(cs, lo, hi),
    }
}

/// Widening the position range keeps a tree well-formed.
pub proof fn lemma_ann_tree_wf_mono(t: AnnTree, lo: int, hi: int, lo2: int, hi2: int)
    requires
        ann_tree_wf(t, lo, hi),
        lo2 <= lo,
        hi <= hi2,
    ensures
        ann_tree_wf(t, lo2, hi2),
    decreases t,
{
    match t.kind {
        AnnKind::Closure(b) => {
            lemma_ann_tree_wf_mono(*b, lo, hi, lo2, hi2);
        },
        AnnKind::Concatenation(cs) => {
            lemma_ann_trees_wf_mono(cs, lo, hi, lo2, hi2);
        },
        AnnKind::Choice(cs) => {
            lemma_ann_trees_wf_mono(cs, lo, hi, lo2, hi2);
        },
        _ => {},
    }
}

/// Widening the position range keeps a sequence of trees well-formed.
pub proof fn lemma_ann_trees_wf_mono(s: Seq<AnnTree>, lo: int, hi: int, lo2: int, hi2: int)
    requires
        ann_trees_wf(s, lo, hi),
        lo2 <= lo,
        hi <= hi2,
    ensures
        ann_trees_wf(s, lo2, hi2),
    decreases s,
{
    if s.len() > 0 {
        lemma_ann_tree_wf_mono(s[0], lo, hi, lo2, hi2);
        lemma_ann_trees_wf_mono(s.drop_first(), lo, hi, lo2, hi2);
    }
}

/// A sequence of trees is well-formed when its head and its tail are.
pub proof fn lemma_ann_trees_wf_cons(t: AnnTree, s: Seq<AnnTree>, lo: int, hi: int)
    requires
        ann_tree_wf(t, lo, hi),
        ann_trees_wf(s, lo, hi),
    ensures
        ann_trees_wf(seq![t] + s, lo, hi),
{
    let c = seq![t] + s;
    assert(c[0] == t);
    assert(c.drop_first() =~= s);
}

/// The merge of two canonical bounded sequences is canonical and bounded.
pub proof fn lemma_merge_bounded(a: Seq<usize>, b: Seq<usize>, lo: int, hi: int)
    requires
        strictly_sorted(a),
        strictly_sorted(b),
        pos_bounded(a, lo, hi),
        pos_bounded(b, lo, hi),
    ensures
        strictly_sorted(merge(a, b)),
        pos_bounded(merge(a, b), lo, hi),
{
    crate::pos_set::lemma_merge(a, b);
    let m = merge(a, b);
    assert forall|i: int| 0 <= i < m.len() implies lo <= #[trigger] m[i] < hi by {
        assert(m.contains(m[i]));
        assert(a.contains(m[i]) || b.contains(m[i]));
        if a.contains(m[i]) {
            let j = choose|j: int| 0 <= j < a.len() && a[j] == m[i];
            assert(lo <= a[j] < hi);
        } else {
            let j = choose|j: int| 0 <= j < b.len() && b[j] == m[i];
            assert(lo <= b[j] < hi);
        }
    }
}

/// The annotated leaf at position `pos`: a character or empty-string leaf
/// with the decoration the leaf rules give it.
pub open spec fn is_leaf_at(t: AnnTree, pos: int) -> bool {
    0 <= pos < usize::MAX && ((exists|c: char| t == #[trigger] char_leaf(c, pos as usize)) || t == empty_leaf(
        pos as usize,
    ))
}

/// Annotating the children of a choice yields well-formed children over the
/// consumed position range, canonical bounded accumulators, and one leaf per
/// consumed position, in order.
pub proof fn lemma_spec_annotate_choice_wf(
    es: Seq<ExpTree>,
    next: int,
    nul: bool,
    first: Seq<usize>,
    last: Seq<usize>,
    lo: int,
)
    requires
        0 <= lo <= next <= usize::MAX,
        strictly_sorted(first),
        strictly_sorted(last),
        pos_bounded(first, lo, next),
        pos_bounded(last, lo, next),
    ensures
        match spec_annotate_choice(es, next, nul, first, last) {
            Ok((children, nul3, f3, l3, n3, lv3)) => {
                &&& next <= n3 <= usize::MAX
                &&& ann_trees_wf(children, next, n3)
                &&& strictly_sorted(f3)
                &&& strictly_sorted(l3)
                &&& pos_bounded(f3, lo, n3)
                &&& pos_bounded(l3, lo, n3)
                &&& lv3.len() == n3 - next
                &&& forall|k: int| 0 <= k < lv3.len() ==> is_leaf_at(lv3[k], next + k)
            },
            Err(_) => true,
        },
    decreases es,
{
    if es.len() == 0 {
    } else {
        lemma_spec_annotate_wf(es[0], next);
        match spec_annotate(es[0], next) {
            Err(_) => {},
            Ok((child, n2, lv)) => {
                lemma_merge_bounded(first, child.first, lo, n2);
                lemma_merge_bounded(last, child.last, lo, n2);
                lemma_spec_annotate_choice_wf(
                    es.drop_first(),
                    n2,
                    nul || child.nullable,
                    merge(first, child.first),
                    merge(last, child.last),
                    lo,
                );
                match spec_annotate_choice(
                    es.drop_first(),
                    n2,
                    nul || child.nullable,
                    merge(first, child.first),
                    merge(last, child.last),
                ) {
                    Err(_) => {},
                    Ok((children, nul3, f3, l3, n3, lv3)) => {
                        lemma_ann_tree_wf_mono(child, next, n2, next, n3);
                        lemma_ann_trees_wf_mono(children, n2, n3, next, n3);
                        lemma_ann_trees_wf_cons(child, children, next, n3);
                        assert(forall|k: int|
                            0 <= k < lv.len() ==> (lv + lv3)[k] == lv[k]);
                        assert(forall|k: int|
                            lv.len() <= k < lv.len() + lv3.len() ==> (lv + lv3)[k] == lv3[k - lv.len()]);
                    },
                }
            },
        }
    }
}

/// As [`lemma_spec_annotate_choice_wf`], for the children of a concatenation.
pub proof fn lemma_spec_annotate_concat_wf(
    es: Seq<ExpTree>,
    next: int,
    p: bool,
    first: Seq<usize>,
    last: Seq<usize>,
    lo: int,
)
    requires
        0 <= lo <= next <= usize::MAX,
        strictly_sorted(first),
        strictly_sorted(last),
        pos_bounded(first, lo, next),
        pos_bounded(last, lo, next),
    ensures
        match spec_annotate_concat(es, next, p, first, last) {
            Ok((children, p3, f3, l3, n3, lv3)) => {
                &&& next <= n3 <= usize::MAX
                &&& ann_trees_wf(children, next, n3)
                &&& strictly_sorted(f3)
                &&& strictly_sorted(l3)
                &&& pos_bounded(f3, lo, n3)
                &&& pos_bounded(l3, lo, n3)
                &&& lv3.len() == n3 - next
                &&& forall|k: int| 0 <= k < lv3.len() ==> is_leaf_at(lv3[k], next + k)
            },
            Err(_) => true,
        },
    decreases es,
{
    if es.len() == 0 {
    } else {
        lemma_spec_annotate_wf(es[0], next);
        match spec_annotate(es[0], next) {
            Err(_) => {},
            Ok((child, n2, lv)) => {
                let first2 = if p {
                    merge(first, child.first)
                } else {
                    first
                };
                let p2 = p && child.nullable;
                let last2 = if es.len() == 1 || p2 {
                    merge(last, child.last)
                } else {
                    Seq::empty()
                };
                lemma_merge_bounded(first, child.first, lo, n2);
                lemma_merge_bounded(last, child.last, lo, n2);
                lemma_spec_annotate_concat_wf(es.drop_first(), n2, p2, first2, last2, lo);
                match spec_annotate_concat(es.drop_first(), n2, p2, first2, last2) {
                    Err(_) => {},
                    Ok((children, p3, f3, l3, n3, lv3)) => {
                        lemma_ann_tree_wf_mono(child, next, n2, next, n3);
                        lemma_ann_trees_wf_mono(children, n2, n3, next, n3);
                        lemma_ann_trees_wf_cons(child, children, next, n3);
                        assert(forall|k: int|
                            0 <= k < lv.len() ==> (lv + lv3)[k] == lv[k]);
                        assert(forall|k: int|
                            lv.len() <= k < lv.len() + lv3.len() ==> (lv + lv3)[k] == lv3[k - lv.len()]);
                    },
                }
            },
        }
    }
}

/// A successful annotation consumes one position per leaf, yields a
/// well-formed tree over the consumed range, and returns exactly the leaves
/// of that range, in position order.
pub proof fn lemma_spec_annotate_wf(e: ExpTree, next: int)
    requires
        0 <= next <= usize::MAX,
    ensures
        match spec_annotate(e, next) {
            Ok((t, n2, lv)) => {
                &&& next <= n2 <= usize::MAX
                &&& ann_tree_wf(t, next, n2)
                &&& lv.len() == n2 - next
                &&& forall|k: int| 0 <= k < lv.len() ==> is_leaf_at(lv[k], next + k)
            },
            Err(_) => true,
        },
    decreases e,
{
    match e {
        ExpTree::Char(c) => {
            if next < usize::MAX {
                assert(is_leaf_at(char_leaf(c, next as usize), next));
            }
        },
        ExpTree::EmptyString => {},
        ExpTree::Closure(b) => {
            lemma_spec_annotate_wf(*b, next);
        },
        ExpTree::Choice(es) => {
            lemma_spec_annotate_choice_wf(es, next, false, Seq::empty(), Seq::empty(), next);
        },
        ExpTree::Concatenation(es) => {
            if es.len() > 0 {
                lemma_spec_annotate_concat_wf(es, next, true, Seq::empty(), Seq::empty(), next);
            }
        },
    }
}

/// Processing one child of a choice unfolds one step of
/// [`spec_annotate_choice`].
proof fn lemma_choice_step(
    evs: Seq<ExpTree>,
    i: int,
    n0: int,
    nul0: bool,
    s0: Seq<usize>,
    e0: Seq<usize>,
    child: AnnTree,
    n2: int,
    lvnew: Seq<AnnTree>,
)
    requires
        0 <= i < evs.len(),
        spec_annotate(evs[i], n0) == Ok::<(AnnTree, int, Seq<AnnTree>), AnnotationError>(
            (child, n2, lvnew),
        ),
    ensures
        spec_annotate_choice(evs.skip(i), n0, nul0, s0, e0) == (match spec_annotate_choice(
            evs.skip(i + 1),
            n2,
            nul0 || child.nullable,
            merge(s0, child.first),
            merge(e0, child.last),
        ) {
            Err(e) => Err::<
                (Seq<AnnTree>, bool, Seq<usize>, Seq<usize>, int, Seq<AnnTree>),
                AnnotationError,
            >(e),
            Ok((cs, nul, f, l, n, lv)) => Ok((seq![child] + cs, nul, f, l, n, lvnew + lv)),
        }),
{
    assert(evs.skip(i)[0] == evs[i]);
    assert(evs.skip(i).drop_first() =~= evs.skip(i + 1));
}

/// Processing one child of a concatenation unfolds one step of
/// [`spec_annotate_concat`].
proof fn lemma_concat_step(
    evs: Seq<ExpTree>,
    i: int,
    n0: int,
    p0: bool,
    s0: Seq<usize>,
    e0: Seq<usize>,
    child: AnnTree,
    n2: int,
    lvnew: Seq<AnnTree>,
)
    requires
        0 <= i < evs.len(),
        spec_annotate(evs[i], n0) == Ok::<(AnnTree, int, Seq<AnnTree>), AnnotationError>(
            (child, n2, lvnew),
        ),
    ensures
        spec_annotate_concat(evs.skip(i), n0, p0, s0, e0) == ({
            let first2 = if p0 {
                merge(s0, child.first)
            } else {
                s0
            };
            let p2 = p0 && child.nullable;
            let last2 = if i == evs.len() - 1 || p2 {
                merge(e0, child.last)
            } else {
                Seq::empty()
            };
            match spec_annotate_concat(evs.skip(i + 1), n2, p2, first2, last2) {
                Err(e) => Err::<
                    (Seq<AnnTree>, bool, Seq<usize>, Seq<usize>, int, Seq<AnnTree>),
                    AnnotationError,
                >(e),
                Ok((cs, p3, f, l, n, lv)) => Ok((seq![child] + cs, p3, f, l, n, lvnew + lv)),
            }
        }),
{
    assert(evs.skip(i)[0] == evs[i]);
    assert(evs.skip(i).drop_first() =~= evs.skip(i + 1));
    assert(evs.skip(i).len() == 1 <==> i == evs.len() - 1);
}

/// Recursively annotates an input expression, assigning positions from
/// `next_index` on and appending one entry per leaf to `leaves`. Returns the
/// annotated tree together with the extended leaf list and the next free
/// position.
#[verifier::rlimit(60)]
pub fn annotate_expression(
    expression: &Expression,
    next_index: usize,
    leaves: Vec<AnnotatedExpression>,
) -> (r: Result<(AnnotatedExpressionContext, usize), AnnotationError>)
    ensures
        ({
            let res = spec_annotate(expr_view(*expression), next_index as int);
            match r {
                Ok(p) => res is Ok && ann_view(p.0.expression) == res->Ok_0.0 && p.1 as int
                    == res->Ok_0.1 && ann_views(p.0.leaves@) == ann_views(leaves@) + res->Ok_0.2,
                Err(e) => res == Err::<(AnnTree, int, Seq<AnnTree>), AnnotationError>(e),
            }
        }),
    decreases *expression,
{
    match expression {
        Expression::Char(c) => {
            if next_index == usize::MAX {
                return Err(AnnotationError::NodeOverflow(NodeOverflowError { size: usize::MAX }));
            }
            let node = AnnotatedExpression {
                expression: AnnotatedExpressionType::Char(*c, next_index),
                is_nullable: false,
                matches_start: PosSet::singleton(next_index),
                matches_end: PosSet::singleton(next_index),
            };
            let leaf_copy = AnnotatedExpression {
                expression: AnnotatedExpressionType::Char(*c, next_index),
                is_nullable: false,
                matches_start: PosSet::singleton(next_index),
                matches_end: PosSet::singleton(next_index),
            };
            let ghost leaves0 = leaves@;
            let mut next_leaves = leaves;
            proof {
                lemma_ann_views_push(leaves0, leaf_copy);
                assert(ann_view(leaf_copy) == char_leaf(*c, next_index));
                assert(ann_view(node) == char_leaf(*c, next_index));
                assert(ann_views(leaves0).push(char_leaf(*c, next_index)) =~= ann_views(leaves0)
                    + seq![char_leaf(*c, next_index)]);
            }
            next_leaves.push(leaf_copy);
            Ok(
                (
                    AnnotatedExpressionContext { expression: node, leaves: next_leaves },
                    next_index + 1,
                ),
            )
        },
        Expression::EmptyString => {
            if next_index == usize::MAX {
                return Err(AnnotationError::NodeOverflow(NodeOverflowError { size: usize::MAX }));
            }
            let node = AnnotatedExpression {
                expression: AnnotatedExpressionType::EmptyString(next_index),
                is_nullable: true,
                matches_start: PosSet::empty(),
                matches_end: PosSet::empty(),
            };
            let leaf_copy = AnnotatedExpression {
                expression: AnnotatedExpressionType::EmptyString(next_index),
                is_nullable: true,
                matches_start: PosSet::empty(),
                matches_end: PosSet::empty(),
            };
            let ghost leaves0 = leaves@;
            let mut next_leaves = leaves;
            proof {
                lemma_ann_views_push(leaves0, leaf_copy);
                assert(ann_view(leaf_copy) == empty_leaf(next_index));
                assert(ann_view(node) == empty_leaf(next_index));
                assert(ann_views(leaves0).push(empty_leaf(next_index)) =~= ann_views(leaves0)
                    + seq![empty_leaf(next_index)]);
            }
            next_leaves.push(leaf_copy);
            Ok(
                (
                    AnnotatedExpressionContext { expression: node, leaves: next_leaves },
                    next_index + 1,
                ),
            )
        },
        Expression::Closure(sub_expression) => {
            match annotate_expression(sub_expression, next_index, leaves) {
                Err(e) => Err(e),
                Ok((internal, n2)) => {
                    let start_copy = internal.expression.matches_start.duplicate();
                    let end_copy = internal.expression.matches_start.duplicate();
                    let node = AnnotatedExpression {
                        expression: AnnotatedExpressionType::Closure(
                            Box::new(internal.expression),
                        ),
                        is_nullable: true,
                        matches_start: start_copy,
                        matches_end: end_copy,
                    };
                    Ok(
                        (
                            AnnotatedExpressionContext { expression: node, leaves: internal.leaves },
                            n2,
                        ),
                    )
                },
            }
        },
        Expression::Choice(sub_expressions) => {
            let ghost evs = expr_views(sub_expressions@);
            let ghost leaves0 = leaves@;
            let mut internal_expressions: Vec<AnnotatedExpression> = Vec::new();
            let mut is_nullable = false;
            let mut start_positions = PosSet::empty();
            let mut end_positions = PosSet::empty();
            let mut next_leaves = leaves;
            let mut next = next_index;
            let ghost mut lv_acc: Seq<AnnTree> = Seq::empty();
            let mut i: usize = 0;
            proof {
                assert(evs.skip(0) == evs);
                assert(ann_views(leaves0) + lv_acc =~= ann_views(leaves0));
                lemma_expr_views(sub_expressions@);
            }
            #[verifier::loop_isolation(false)]
            while i < sub_expressions.len()
                invariant
                    i <= sub_expressions@.len(),
                    evs == expr_views(sub_expressions@),
                    evs.len() == sub_expressions@.len(),
                    forall|k: int| 0 <= k < evs.len() ==> evs[k] == expr_view(sub_expressions@[k]),
                    start_positions.wf(),
                    end_positions.wf(),
                    ann_views(next_leaves@) == ann_views(leaves0) + lv_acc,
                    spec_annotate_choice(evs, next_index as int, false, Seq::empty(), Seq::empty())
                        == (match spec_annotate_choice(
                        evs.skip(i as int),
                        next as int,
                        is_nullable,
                        start_positions@,
                        end_positions@,
                    ) {
                        Err(e) => Err::<
                            (Seq<AnnTree>, bool, Seq<usize>, Seq<usize>, int, Seq<AnnTree>),
                            AnnotationError,
                        >(e),
                        Ok((cs, nul, f, l, n, lv)) => Ok(
                            (ann_views(internal_expressions@) + cs, nul, f, l, n, lv_acc + lv),
                        ),
                    }),
                decreases sub_expressions@.len() - i,
            {
                let ghost next0: int = next as int;
                let ghost nul0 = is_nullable;
                let ghost s0 = start_positions@;
                let ghost e0 = end_positions@;
                let ghost children0 = internal_expressions@;
                let ghost lv_acc0 = lv_acc;
                let ghost leaves_before = next_leaves@;
                match annotate_expression(&sub_expressions[i], next, next_leaves) {
                    Err(e) => {
                        proof {
                            lemma_choice_step_err(evs, i as int, next0, nul0, s0, e0, e);
                        }
                        return Err(e);
                    },
                    Ok((ctx, n2)) => {
                        let AnnotatedExpressionContext { expression: node, leaves: lv2 } = ctx;
                        let ghost child = ann_view(node);
                        let ghost lvnew = spec_annotate(evs[i as int], next0)->Ok_0.2;
                        proof {
                            lemma_spec_annotate_wf(evs[i as int], next0);
                        }
                        let new_start = start_positions.union(&node.matches_start);
                        let new_end = end_positions.union(&node.matches_end);
                        proof {
                            lemma_ann_views_push(children0, node);
                        }
                        is_nullable = is_nullable || node.is_nullable;
                        start_positions = new_start;
                        end_positions = new_end;
                        internal_expressions.push(node);
                        next_leaves = lv2;
                        next = n2;
                        i = i + 1;
                        proof {
                            lv_acc = lv_acc0 + lvnew;
                            lemma_choice_step(evs, i - 1, next0, nul0, s0, e0, child, n2 as int, lvnew);
                            assert(ann_views(next_leaves@) == (ann_views(leaves0) + lv_acc0)
                                + lvnew);
                            assert((ann_views(leaves0) + lv_acc0) + lvnew =~= ann_views(leaves0)
                                + lv_acc);
                            assert(child.nullable == node.is_nullable);
                            assert(child.first == node.matches_start@);
                            assert(child.last == node.matches_end@);
                            match spec_annotate_choice(
                                evs.skip(i as int),
                                n2 as int,
                                is_nullable,
                                start_positions@,
                                end_positions@,
                            ) {
                                Err(_) => {},
                                Ok((cs, nul, f, l, n, lv)) => {
                                    assert(ann_views(children0) + (seq![child] + cs)
                                        =~= ann_views(internal_expressions@) + cs);
                                    assert(lv_acc0 + (lvnew + lv) =~= lv_acc + lv);
                                },
                            }
                        }
                    },
                }
            }
            proof {
                assert(evs.skip(evs.len() as int) =~= Seq::<ExpTree>::empty());
                assert(ann_views(internal_expressions@) + Seq::<AnnTree>::empty()
                    =~= ann_views(internal_expressions@));
                assert(lv_acc + Seq::<AnnTree>::empty() =~= lv_acc);
            }
            let node = AnnotatedExpression {
                expression: AnnotatedExpressionType::Choice(internal_expressions),
                is_nullable,
                matches_start: start_positions,
                matches_end: end_positions,
            };
            Ok((AnnotatedExpressionContext { expression: node, leaves: next_leaves }, next))
        },
        Expression::Concatenation(sub_expressions) => {
            let l = sub_expressions.len();
            proof {
                lemma_expr_views(sub_expressions@);
            }
            if l == 0 {
                return Err(AnnotationError::InvalidExpression(InvalidExpressionError {  }));
            }
            let ghost evs = expr_views(sub_expressions@);
            let ghost leaves0 = leaves@;
            let mut internal_expressions: Vec<AnnotatedExpression> = Vec::new();
            let mut is_nullable = true;
            let mut start_positions = PosSet::empty();
            let mut end_positions = PosSet::empty();
            let mut next_leaves = leaves;
            let mut next = next_index;
            let ghost mut lv_acc: Seq<AnnTree> = Seq::empty();
            let mut i: usize = 0;
            proof {
                assert(evs.skip(0) == evs);
                assert(ann_views(leaves0) + lv_acc =~= ann_views(leaves0));
            }
            #[verifier::loop_isolation(false)]
            while i < sub_expressions.len()
                invariant
                    i <= sub_expressions@.len(),
                    l == sub_expressions@.len(),
                    evs == expr_views(sub_expressions@),
                    evs.len() == sub_expressions@.len(),
                    forall|k: int| 0 <= k < evs.len() ==> evs[k] == expr_view(sub_expressions@[k]),
                    i == 0 ==> is_nullable,
                    start_positions.wf(),
                    end_positions.wf(),
                    ann_views(next_leaves@) == ann_views(leaves0) + lv_acc,
                    spec_annotate_concat(evs, next_index as int, true, Seq::empty(), Seq::empty())
                        == (match spec_annotate_concat(
                        evs.skip(i as int),
                        next as int,
                        is_nullable,
                        start_positions@,
                        end_positions@,
                    ) {
                        Err(e) => Err::<
                            (Seq<AnnTree>, bool, Seq<usize>, Seq<usize>, int, Seq<AnnTree>),
                            AnnotationError,
                        >(e),
                        Ok((cs, p, f, l2, n, lv)) => Ok(
                            (ann_views(internal_expressions@) + cs, p, f, l2, n, lv_acc + lv),
                        ),
                    }),
                decreases sub_expressions@.len() - i,
            {
                let ghost next0: int = next as int;
                let ghost p0 = is_nullable;
                let ghost s0 = start_positions@;
                let ghost e0 = end_positions@;
                let ghost children0 = internal_expressions@;
                let ghost lv_acc0 = lv_acc;
                match annotate_expression(&sub_expressions[i], next, next_leaves) {
                    Err(e) => {
                        proof {
                            lemma_concat_step_err(evs, i as int, next0, p0, s0, e0, e);
                        }
                        return Err(e);
                    },
                    Ok((ctx, n2)) => {
                        let AnnotatedExpressionContext { expression: node, leaves: lv2 } = ctx;
                        let ghost child = ann_view(node);
                        let ghost lvnew = spec_annotate(evs[i as int], next0)->Ok_0.2;
                        proof {
                            lemma_spec_annotate_wf(evs[i as int], next0);
                        }
                        if i == 0 || is_nullable {
                            start_positions = start_positions.union(&node.matches_start);
                        }
                        is_nullable = is_nullable && node.is_nullable;
                        if i + 1 == l || is_nullable {
                            end_positions = end_positions.union(&node.matches_end);
                        } else {
                            end_positions = PosSet::empty();
                        }
                        proof {
                            lemma_ann_views_push(children0, node);
                        }
                        internal_expressions.push(node);
                        next_leaves = lv2;
                        next = n2;
                        i = i + 1;
                        proof {
                            lv_acc = lv_acc0 + lvnew;
                            lemma_concat_step(evs, i - 1, next0, p0, s0, e0, child, n2 as int, lvnew);
                            assert(ann_views(next_leaves@) == (ann_views(leaves0) + lv_acc0)
                                + lvnew);
                            assert((ann_views(leaves0) + lv_acc0) + lvnew =~= ann_views(leaves0)
                                + lv_acc);
                            assert(child.nullable == node.is_nullable);
                            assert(child.first == node.matches_start@);
                            assert(child.last == node.matches_end@);
                            assert(start_positions@ == if p0 {
                                merge(s0, child.first)
                            } else {
                                s0
                            });
                            assert(end_positions@ == if i - 1 == evs.len() - 1 || is_nullable {
                                merge(e0, child.last)
                            } else {
                                Seq::<usize>::empty()
                            });
                            match spec_annotate_concat(
                                evs.skip(i as int),
                                n2 as int,
                                is_nullable,
                                start_positions@,
                                end_positions@,
                            ) {
                                Err(_) => {},
                                Ok((cs, p, f, l2, n, lv)) => {
                                    assert(ann_views(children0) + (seq![child] + cs)
                                        =~= ann_views(internal_expressions@) + cs);
                                    assert(lv_acc0 + (lvnew + lv) =~= lv_acc + lv);
                                },
                            }
                        }
                    },
                }
            }
            proof {
                assert(evs.skip(evs.len() as int) =~= Seq::<ExpTree>::empty());
                assert(ann_views(internal_expressions@) + Seq::<AnnTree>::empty()
                    =~= ann_views(internal_expressions@));
                assert(lv_acc + Seq::<AnnTree>::empty() =~= lv_acc);
            }
            let node = AnnotatedExpression {
                expression: AnnotatedExpressionType::Concatenation(internal_expressions),
                is_nullable,
                matches_start: start_positions,
                matches_end: end_positions,
            };
            Ok((AnnotatedExpressionContext { expression: node, leaves: next_leaves }, next))
        },
    }
}

/// A failing child fails the whole choice with the same error.
proof fn lemma_choice_step_err(
    evs: Seq<ExpTree>,
    i: int,
    n0: int,
    nul0: bool,
    s0: Seq<usize>,
    e0: Seq<usize>,
    e: AnnotationError,
)
    requires
        0 <= i < evs.len(),
        spec_annotate(evs[i], n0) == Err::<(AnnTree, int, Seq<AnnTree>), AnnotationError>(e),
    ensures
        spec_annotate_choice(evs.skip(i), n0, nul0, s0, e0) == Err::<
            (Seq<AnnTree>, bool, Seq<usize>, Seq<usize>, int, Seq<AnnTree>),
            AnnotationError,
        >(e),
{
    assert(evs.skip(i)[0] == evs[i]);
}

/// A failing child fails the whole concatenation with the same error.
proof fn lemma_concat_step_err(
    evs: Seq<ExpTree>,
    i: int,
    n0: int,
    p0: bool,
    s0: Seq<usize>,
    e0: Seq<usize>,
    e: AnnotationError,
)
    requires
        0 <= i < evs.len(),
        spec_annotate(evs[i], n0) == Err::<(AnnTree, int, Seq<AnnTree>), AnnotationError>(e),
    ensures
        spec_annotate_concat(evs.skip(i), n0, p0, s0, e0) == Err::<
            (Seq<AnnTree>, bool, Seq<usize>, Seq<usize>, int, Seq<AnnTree>),
            AnnotationError,
        >(e),
{
    assert(evs.skip(i)[0] == evs[i]);
}

/// Annotates a complete input expression, appending the synthetic terminal
/// leaf and wrapping the root and the terminal in a two-child concatenation
/// whose decoration follows the concatenation rule.
pub fn annotate_ast(root_node: Expression) -> (r: Result<
    AnnotatedExpressionContext,
    AnnotationError,
>)
    ensures
        ({
            let res = spec_annotate_ast(expr_view(root_node));
            match r {
                Ok(ctx) => res is Ok && ann_view(ctx.expression) == res->Ok_0.0 && ann_views(
                    ctx.leaves@,
                ) == res->Ok_0.1,
                Err(e) => res == Err::<(AnnTree, Seq<AnnTree>), AnnotationError>(e),
            }
        }),
{
    let empty_leaves: Vec<AnnotatedExpression> = Vec::new();
    proof {
        assert(ann_views(empty_leaves@) == Seq::<AnnTree>::empty());
        lemma_spec_annotate_wf(expr_view(root_node), 0);
    }
    match annotate_expression(&root_node, 0, empty_leaves) {
        Err(e) => Err(e),
        Ok((ctx, n)) => {
            let AnnotatedExpressionContext { expression: orig, leaves: mut next_leaves } = ctx;
            let ghost tree = spec_annotate(expr_view(root_node), 0)->Ok_0.0;
            let ghost lv = spec_annotate(expr_view(root_node), 0)->Ok_0.2;
            proof {
                lemma_ann_views(next_leaves@);
                assert(ann_views(next_leaves@) =~= Seq::<AnnTree>::empty() + lv);
                assert(next_leaves@.len() == lv.len());
            }
            if next_leaves.len() == usize::MAX {
                return Err(AnnotationError::NodeOverflow(NodeOverflowError { size: usize::MAX }));
            }
            let tpos = next_leaves.len();
            let terminal = AnnotatedExpression {
                expression: AnnotatedExpressionType::Terminal(tpos),
                is_nullable: false,
                matches_start: PosSet::singleton(tpos),
                matches_end: PosSet::singleton(tpos),
            };
            let terminal_copy = AnnotatedExpression {
                expression: AnnotatedExpressionType::Terminal(tpos),
                is_nullable: false,
                matches_start: PosSet::singleton(tpos),
                matches_end: PosSet::singleton(tpos),
            };
            proof {
                assert(ann_view(terminal) == terminal_leaf(tpos));
                assert(ann_view(terminal_copy) == terminal_leaf(tpos));
                assert(strictly_sorted(orig.matches_start@) && strictly_sorted(orig.matches_end@))
                    by {
                    assert(ann_tree_wf(tree, 0, n as int));
                    assert(tree.first == orig.matches_start@);
                    assert(tree.last == orig.matches_end@);
                }
            }
            let mut combined_matches_start = PosSet::empty();
            let mut combined_matches_end = PosSet::empty();
            if orig.is_nullable {
                combined_matches_start = combined_matches_start.union(&terminal.matches_start);
                combined_matches_end = combined_matches_end.union(&orig.matches_end);
            }
            combined_matches_start = combined_matches_start.union(&orig.matches_start);
            combined_matches_end = combined_matches_end.union(&terminal.matches_end);
            let ghost leaves_before = next_leaves@;
            next_leaves.push(terminal_copy);
            proof {
                lemma_ann_views_push(leaves_before, terminal_copy);
            }
            let mut children: Vec<AnnotatedExpression> = Vec::new();
            children.push(orig);
            children.push(terminal);
            proof {
                assert(children@ =~= seq![children@[0], children@[1]]);
                assert(ann_views(children@) =~= seq![tree, terminal_leaf(tpos)]) by {
                    lemma_ann_views(children@);
                }
            }
            let combined_expression = AnnotatedExpression {
                expression: AnnotatedExpressionType::Concatenation(children),
                is_nullable: false,
                matches_start: combined_matches_start,
                matches_end: combined_matches_end,
            };
            Ok(
                AnnotatedExpressionContext {
                    expression: combined_expression,
                    leaves: next_leaves,
                },
            )
        },
    }
}

} // verus!