//! Generates a deterministic finite automaton from an annotated expression,
//! by follow-position computation and position-set subset construction, and
//! evaluates input strings against it.

use vstd::prelude::*;
use vstd::string::StrSliceExecFns;
use crate::annotator::AnnKind;
use crate::annotator::AnnTree;
use crate::annotator::AnnotatedExpression;
use crate::annotator::AnnotatedExpressionContext;
use crate::annotator::AnnotatedExpressionType;
use crate::annotator::ann_view;
use crate::annotator::ann_views;
use crate::annotator::ann_tree_wf;
use crate::annotator::ann_trees_wf;
use crate::annotator::pos_bounded;
use crate::pos_set::PosSet;
use crate::pos_set::merge;
use crate::pos_set::strictly_sorted;

verus! {

/// Represents a DFA. Its states are the numbers below `n_states`; a missing
/// transition entry means the automaton rejects any word that follows that
/// path.
#[derive(Debug, PartialEq)]
pub struct Dfa {
    /// The number of states in the DFA. The states of the DFA are thus
    /// the numbers below `n_states`.
    pub n_states: usize,
    /// The starting state of the DFA.
    pub start_state: usize,
    /// The accepting states, in increasing order. If, after consuming an
    /// input string, the DFA is at an accepting state, then it accepts the
    /// input string, otherwise it rejects it.
    pub accepting_states: Vec<usize>,
    /// The transition function, one row per state: the row of a state lists
    /// the characters it steps on, each with the target state.
    pub transition_function: Vec<Vec<(char, usize)>>,
}

/// The rows of a transition table, as sequences.
pub open spec fn rows_view(rows: Seq<Vec<(char, usize)>>) -> Seq<Seq<(char, usize)>> {
    Seq::new(rows.len(), |i: int| rows[i]@)
}

/// The first target that a row maps `c` to, if any.
pub open spec fn row_lookup(row: Seq<(char, usize)>, c: char) -> Option<usize>
    decreases row.len(),
{
    if row.len() == 0 {
        None
    } else if row[0].0 == c {
        Some(row[0].1)
    } else {
        row_lookup(row.drop_first(), c)
    }
}

impl Dfa {
    /// The state reached from `state` on character `c`, if any.
    pub open spec fn spec_transition(&self, state: usize, c: char) -> Option<usize> {
        if state < self.transition_function@.len() {
            row_lookup(self.transition_function@[state as int]@, c)
        } else {
            None
        }
    }

    /// Whether the automaton, started at `state`, accepts the string `s`:
    /// it steps through the transition table one character at a time,
    /// rejects as soon as a transition is missing, and otherwise accepts
    /// exactly when the final state is accepting.
    pub open spec fn spec_run(&self, state: usize, s: Seq<char>) -> bool
        decreases s.len(),
    {
        if s.len() == 0 {
            self.accepting_states@.contains(state)
        } else {
            match self.spec_transition(state, s[0]) {
                Some(t) => self.spec_run(t, s.drop_first()),
                None => false,
            }
        }
    }

    /// Whether the automaton accepts the string `s` from its start state.
    pub open spec fn spec_accepts(&self, s: Seq<char>) -> bool {
        self.spec_run(self.start_state, s)
    }

    /// Simulates the transition table over the input string. The result is a
    /// function of the automaton and the characters of the input alone, so
    /// repeated calls on the same input return the same value.
    pub fn evaluate(&self, input: &str) -> (r: bool)
        ensures
            r == self.spec_accepts(input@),
    {
        let chars = crate::lexer::str_chars(input);
        let ghost s = input@;
        let mut state = self.start_state;
        let mut i: usize = 0;
        proof {
            assert(s.skip(0) == s);
        }
        while i < chars.len()
            invariant
                i <= chars.len(),
                chars@ == s,
                s == input@,
                self.spec_accepts(input@) == self.spec_run(state, s.skip(i as int)),
            decreases chars.len() - i,
        {
            let ghost rest = s.skip(i as int);
            proof {
                assert(rest[0] == s[i as int]);
                assert(rest.drop_first() =~= s.skip(i + 1));
            }
            match self.transition(state, chars[i]) {
                Some(t) => {
                    state = t;
                },
                None => {
                    proof {
                        assert(!self.spec_run(state, rest));
                    }
                    return false;
                },
            }
            i = i + 1;
        }
        proof {
            assert(s.skip(s.len() as int) =~= Seq::<char>::empty());
        }
        self.is_accepting(state)
    }

    /// Looks up the transition from `state` on `c` in the table.
    pub fn transition(&self, state: usize, c: char) -> (r: Option<usize>)
        ensures
            r == self.spec_transition(state, c),
    {
        if state >= self.transition_function.len() {
            return None;
        }
        let row = &self.transition_function[state];
        let mut j: usize = 0;
        proof {
            assert(row@.skip(0) == row@);
        }
        while j < row.len()
            invariant
                j <= row@.len(),
                row@ == self.transition_function@[state as int]@,
                state < self.transition_function@.len(),
                row_lookup(row@, c) == row_lookup(row@.skip(j as int), c),
            decreases row@.len() - j,
        {
            let ghost rest = row@.skip(j as int);
            proof {
                assert(rest[0] == row@[j as int]);
                assert(rest.drop_first() =~= row@.skip(j + 1));
            }
            let (rc, rt) = row[j];
            if rc == c {
                return Some(rt);
            }
            j = j + 1;
        }
        proof {
            assert(row@.skip(row@.len() as int) =~= Seq::<(char, usize)>::empty());
        }
        None
    }

    /// Whether `state` is an accepting state.
    pub fn is_accepting(&self, state: usize) -> (r: bool)
        ensures
            r == self.accepting_states@.contains(state),
    {
        let mut j: usize = 0;
        while j < self.accepting_states.len()
            invariant
                j <= self.accepting_states@.len(),
                forall|k: int| 0 <= k < j ==> self.accepting_states@[k] != state,
            decreases self.accepting_states@.len() - j,
        {
            if self.accepting_states[j] == state {
                return true;
            }
            j = j + 1;
        }
        false
    }
}

/// The views of a table of position sets.
pub open spec fn table_view(t: Seq<PosSet>) -> Seq<Seq<usize>> {
    Seq::new(t.len(), |i: int| t[i]@)
}

/// Adds `firsts` into the table entry of every position in `ends`, in order.
pub open spec fn add_follow(
    table: Seq<Seq<usize>>,
    ends: Seq<usize>,
    firsts: Seq<usize>,
) -> Seq<Seq<usize>>
    decreases ends.len(),
{
    if ends.len() == 0 {
        table
    } else {
        let j = ends[0];
        let t2 = if j < table.len() {
            table.update(j as int, merge(table[j as int], firsts))
        } else {
            table
        };
        add_follow(t2, ends.drop_first(), firsts)
    }
}

/// The right-to-left sweep over the children of a concatenation: each
/// child's last positions see the accumulated first positions of the
/// children after it, where the accumulator resets at each non-nullable
/// child.
pub open spec fn concat_follow(
    cs: Seq<AnnTree>,
    table: Seq<Seq<usize>>,
    acc: Seq<usize>,
) -> Seq<Seq<usize>>
    decreases cs.len(),
{
    if cs.len() == 0 {
        table
    } else {
        let c = cs.last();
        let t2 = add_follow(table, c.last, acc);
        let acc2 = if c.nullable {
            acc
        } else {
            Seq::empty()
        };
        concat_follow(cs.drop_last(), t2, merge(acc2, c.first))
    }
}

/// The follow positions contributed by every node of a sequence of trees,
/// left to right.
pub open spec fn follow_trees(cs: Seq<AnnTree>, table: Seq<Seq<usize>>) -> Seq<Seq<usize>>
    decreases cs,
{
    if cs.len() == 0 {
        table
    } else {
        follow_trees(cs.drop_first(), follow_tree(cs[0], table))
    }
}

/// The follow positions contributed by a tree, added into `table`: a closure
/// lets its child's last positions loop back to the child's first positions,
/// and a concatenation runs the right-to-left sweep after its children.
pub open spec fn follow_tree(t: AnnTree, table: Seq<Seq<usize>>) -> Seq<Seq<usize>>
    decreases t,
{
    match t.kind {
        AnnKind::Closure(b) => add_follow(follow_tree(*b, table), b.last, b.first),
        AnnKind::Choice(cs) => follow_trees(cs, table),
        AnnKind::Concatenation(cs) => concat_follow(cs, follow_trees(cs, table), Seq::empty()),
        _ => table,
    }
}

/// All entries of a follow table are canonical and bounded by `n`.
pub open spec fn table_wf(table: Seq<Seq<usize>>, n: int) -> bool {
    forall|i: int| 0 <= i < table.len() ==> strictly_sorted(#[trigger] table[i]) && pos_bounded(
        table[i],
        0,
        n,
    )
}

/// `add_follow` keeps the table's length, its canonical form and its bounds.
pub proof fn lemma_add_follow_wf(
    table: Seq<Seq<usize>>,
    ends: Seq<usize>,
    firsts: Seq<usize>,
    n: int,
)
    requires
        table_wf(table, n),
        strictly_sorted(firsts),
        pos_bounded(firsts, 0, n),
    ensures
        add_follow(table, ends, firsts).len() == table.len(),
        table_wf(add_follow(table, ends, firsts), n),
    decreases ends.len(),
{
    if ends.len() > 0 {
        let j = ends[0];
        if j < table.len() {
            crate::annotator::lemma_merge_bounded(table[j as int], firsts, 0, n);
            let t2 = table.update(j as int, merge(table[j as int], firsts));
            assert(table_wf(t2, n)) by {
                assert(forall|i: int| 0 <= i < t2.len() && i != j ==> t2[i] == table[i]);
            }
            lemma_add_follow_wf(t2, ends.drop_first(), firsts, n);
        } else {
            lemma_add_follow_wf(table, ends.drop_first(), firsts, n);
        }
    }
}

/// `concat_follow` keeps the table's length, its canonical form and its
/// bounds.
pub proof fn lemma_concat_follow_wf(
    cs: Seq<AnnTree>,
    table: Seq<Seq<usize>>,
    acc: Seq<usize>,
    n: int,
)
    requires
        table_wf(table, n),
        strictly_sorted(acc),
        pos_bounded(acc, 0, n),
        ann_trees_wf(cs, 0, n),
    ensures
        concat_follow(cs, table, acc).len() == table.len(),
        table_wf(concat_follow(cs, table, acc), n),
    decreases cs.len(),
{
    if cs.len() > 0 {
        let c = cs.last();
        assert(ann_tree_wf(c, 0, n)) by {
            lemma_ann_trees_wf_index(cs, 0, n, cs.len() - 1);
        }
        lemma_add_follow_wf(table, c.last, acc, n);
        let t2 = add_follow(table, c.last, acc);
        let acc2 = if c.nullable {
            acc
        } else {
            Seq::<usize>::empty()
        };
        crate::annotator::lemma_merge_bounded(acc2, c.first, 0, n);
        assert(ann_trees_wf(cs.drop_last(), 0, n)) by {
            lemma_ann_trees_wf_drop_last(cs, 0, n);
        }
        lemma_concat_follow_wf(cs.drop_last(), t2, merge(acc2, c.first), n);
    }
}

/// Every element of a well-formed sequence of trees is well-formed.
pub proof fn lemma_ann_trees_wf_index(cs: Seq<AnnTree>, lo: int, hi: int, i: int)
    requires
        ann_trees_wf(cs, lo, hi),
        0 <= i < cs.len(),
    ensures
        ann_tree_wf(cs[i], lo, hi),
    decreases cs.len(),
{
    if i > 0 {
        lemma_ann_trees_wf_index(cs.drop_first(), lo, hi, i - 1);
        assert(cs.drop_first()[i - 1] == cs[i]);
    }
}

/// A prefix of a well-formed sequence of trees is well-formed.
pub proof fn lemma_ann_trees_wf_drop_last(cs: Seq<AnnTree>, lo: int, hi: int)
    requires
        ann_trees_wf(cs, lo, hi),
        cs.len() > 0,
    ensures
        ann_trees_wf(cs.drop_last(), lo, hi),
    decreases cs.len(),
{
    if cs.len() > 1 {
        lemma_ann_trees_wf_drop_last(cs.drop_first(), lo, hi);
        assert(cs.drop_first().drop_last() =~= cs.drop_last().drop_first());
        assert(cs.drop_last()[0] == cs[0]);
    } else {
        assert(cs.drop_last() =~= Seq::<AnnTree>::empty());
    }
}

/// `follow_tree` keeps the table's length, its canonical form and its
/// bounds, and so does `follow_trees`.
pub proof fn lemma_follow_tree_wf(t: AnnTree, table: Seq<Seq<usize>>, n: int)
    requires
        table_wf(table, n),
        ann_tree_wf(t, 0, n),
    ensures
        follow_tree(t, table).len() == table.len(),
        table_wf(follow_tree(t, table), n),
    decreases t, 1int,
{
    match t.kind {
        AnnKind::Closure(b) => {
            lemma_follow_tree_wf(*b, table, n);
            lemma_add_follow_wf(follow_tree(*b, table), b.last, b.first, n);
        },
        AnnKind::Choice(cs) => {
            lemma_follow_trees_wf(cs, table, n);
        },
        AnnKind::Concatenation(cs) => {
            lemma_follow_trees_wf(cs, table, n);
            lemma_concat_follow_wf(cs, follow_trees(cs, table), Seq::empty(), n);
        },
        _ => {},
    }
}

/// See [`lemma_follow_tree_wf`].
pub proof fn lemma_follow_trees_wf(cs: Seq<AnnTree>, table: Seq<Seq<usize>>, n: int)
    requires
        table_wf(table, n),
        ann_trees_wf(cs, 0, n),
    ensures
        follow_trees(cs, table).len() == table.len(),
        table_wf(follow_trees(cs, table), n),
    decreases cs, 0int,
{
    if cs.len() > 0 {
        lemma_follow_tree_wf(cs[0], table, n);
        lemma_follow_trees_wf(cs.drop_first(), follow_tree(cs[0], table), n);
    }
}

/// Adds `firsts` into the table entry of every position of `ends`.
fn add_follow_exec(matches_next: &mut Vec<PosSet>, ends: &PosSet, firsts: &PosSet)
    requires
        table_wf(table_view(old(matches_next)@), old(matches_next)@.len() as int),
        firsts.wf(),
        pos_bounded(firsts@, 0, old(matches_next)@.len() as int),
        pos_bounded(ends@, 0, old(matches_next)@.len() as int),
    ensures
        ({
            let mn = final(matches_next)@;
            mn.len() == old(matches_next)@.len() && table_wf(table_view(mn), mn.len() as int)
                && table_view(mn) == add_follow(table_view(old(matches_next)@), ends@, firsts@)
        }),
{
    let mut idx: usize = 0;
    proof {
        assert(ends@.skip(0) == ends@);
    }
    while idx < ends.len()
        invariant
            idx <= ends@.len(),
            matches_next@.len() == old(matches_next)@.len(),
            table_wf(table_view(matches_next@), matches_next@.len() as int),
            firsts.wf(),
            pos_bounded(firsts@, 0, matches_next@.len() as int),
            pos_bounded(ends@, 0, matches_next@.len() as int),
            add_follow(table_view(old(matches_next)@), ends@, firsts@) == add_follow(
                table_view(matches_next@),
                ends@.skip(idx as int),
                firsts@,
            ),
        decreases ends@.len() - idx,
    {
        let ghost rest = ends@.skip(idx as int);
        let ghost tv0 = table_view(matches_next@);
        proof {
            assert(rest[0] == ends@[idx as int]);
            assert(rest.drop_first() =~= ends@.skip(idx + 1));
        }
        let j = ends.get(idx);
        proof {
            assert(tv0[j as int] == matches_next@[j as int]@);
            assert(strictly_sorted(tv0[j as int]));
        }
        let merged = matches_next[j].union(firsts);
        matches_next.set(j, merged);
        proof {
            assert(table_view(matches_next@) =~= tv0.update(
                j as int,
                merge(tv0[j as int], firsts@),
            ));
            crate::annotator::lemma_merge_bounded(tv0[j as int], firsts@, 0, matches_next@.len() as int);
            assert(table_wf(table_view(matches_next@), matches_next@.len() as int)) by {
                assert(forall|k: int|
                    0 <= k < matches_next@.len() && k != j ==> table_view(matches_next@)[k] == tv0[k]);
            }
        }
        idx = idx + 1;
    }
    proof {
        assert(ends@.skip(ends@.len() as int) =~= Seq::<usize>::empty());
    }
}

/// `matches_next[i]` accumulates the positions which can match the first
/// character of the string remaining after matching the leaf at position
/// `i`. Walks the annotated tree once, mirroring [`follow_tree`].
pub fn calculate_matches_next(expression: &AnnotatedExpression, matches_next: &mut Vec<PosSet>)
    requires
        table_wf(table_view(old(matches_next)@), old(matches_next)@.len() as int),
        ann_tree_wf(ann_view(*expression), 0, old(matches_next)@.len() as int),
    ensures
        ({
            let mn = final(matches_next)@;
            mn.len() == old(matches_next)@.len() && table_wf(table_view(mn), mn.len() as int)
                && table_view(mn) == follow_tree(
                ann_view(*expression),
                table_view(old(matches_next)@),
            )
        }),
    decreases *expression,
{
    let ghost n = old(matches_next)@.len() as int;
    let ghost t = ann_view(*expression);
    match &expression.expression {
        AnnotatedExpressionType::Concatenation(sub_expressions) => {
            let ghost cs = ann_views(sub_expressions@);
            proof {
                crate::annotator::lemma_ann_views(sub_expressions@);
                assert(cs.skip(0) == cs);
            }
            let ghost t0 = table_view(matches_next@);
            let mut i: usize = 0;
            #[verifier::loop_isolation(false)]
            while i < sub_expressions.len()
                invariant
                    i <= sub_expressions@.len(),
                    matches_next@.len() == n,
                    follow_trees(cs, t0) == follow_trees(
                        cs.skip(i as int),
                        table_view(matches_next@),
                    ),
                    table_wf(table_view(matches_next@), n),
                decreases sub_expressions@.len() - i,
            {
                let ghost rest = cs.skip(i as int);
                proof {
                    assert(rest[0] == cs[i as int]);
                    assert(rest.drop_first() =~= cs.skip(i + 1));
                    lemma_ann_trees_wf_index(cs, 0, n, i as int);
                }
                calculate_matches_next(&sub_expressions[i], matches_next);
                proof {
                    lemma_follow_tree_wf(cs[i as int], table_view(matches_next@), n);
                }
                i = i + 1;
            }
            proof {
                assert(cs.skip(cs.len() as int) =~= Seq::<AnnTree>::empty());
            }
            let mut global_matches_start = PosSet::empty();
            let mut k: usize = sub_expressions.len();
            let ghost t1 = table_view(matches_next@);
            proof {
                assert(cs.take(cs.len() as int) =~= cs);
            }
            #[verifier::loop_isolation(false)]
            while k > 0
                invariant
                    k <= sub_expressions@.len(),
                    matches_next@.len() == n,
                    table_wf(table_view(matches_next@), n),
                    global_matches_start.wf(),
                    pos_bounded(global_matches_start@, 0, n),
                    concat_follow(cs, t1, Seq::empty()) == concat_follow(
                        cs.take(k as int),
                        table_view(matches_next@),
                        global_matches_start@,
                    ),
                decreases k,
            {
                k = k - 1;
                let ghost prefix = cs.take(k + 1);
                proof {
                    assert(prefix.last() == cs[k as int]);
                    assert(prefix.drop_last() =~= cs.take(k as int));
                    lemma_ann_trees_wf_index(cs, 0, n, k as int);
                }
                let prev_expression = &sub_expressions[k];
                let ghost g0 = global_matches_start@;
                proof {
                    assert(cs[k as int] == ann_view(sub_expressions@[k as int]));
                    assert(cs[k as int].last == sub_expressions@[k as int].matches_end@);
                    assert(cs[k as int].first == sub_expressions@[k as int].matches_start@);
                    assert(cs[k as int].nullable == sub_expressions@[k as int].is_nullable);
                }
                add_follow_exec(matches_next, &prev_expression.matches_end, &global_matches_start);
                if !prev_expression.is_nullable {
                    global_matches_start = PosSet::empty();
                }
                let ghost acc2 = global_matches_start@;
                global_matches_start = global_matches_start.union(&prev_expression.matches_start);
                proof {
                    crate::annotator::lemma_merge_bounded(acc2, cs[k as int].first, 0, n);
                    assert(global_matches_start@ == merge(acc2, cs[k as int].first));
                }
            }
            proof {
                assert(cs.take(0) =~= Seq::<AnnTree>::empty());
            }
        },
        AnnotatedExpressionType::Closure(sub_expression) => {
            calculate_matches_next(sub_expression, matches_next);
            add_follow_exec(
                matches_next,
                &sub_expression.matches_end,
                &sub_expression.matches_start,
            );
        },
        AnnotatedExpressionType::Choice(sub_expressions) => {
            let ghost cs = ann_views(sub_expressions@);
            proof {
                crate::annotator::lemma_ann_views(sub_expressions@);
                assert(cs.skip(0) == cs);
            }
            let ghost t0 = table_view(matches_next@);
            let mut i: usize = 0;
            #[verifier::loop_isolation(false)]
            while i < sub_expressions.len()
                invariant
                    i <= sub_expressions@.len(),
                    matches_next@.len() == n,
                    follow_trees(cs, t0) == follow_trees(
                        cs.skip(i as int),
                        table_view(matches_next@),
                    ),
                    table_wf(table_view(matches_next@), n),
                decreases sub_expressions@.len() - i,
            {
                let ghost rest = cs.skip(i as int);
                proof {
                    assert(rest[0] == cs[i as int]);
                    assert(rest.drop_first() =~= cs.skip(i + 1));
                    lemma_ann_trees_wf_index(cs, 0, n, i as int);
                }
                calculate_matches_next(&sub_expressions[i], matches_next);
                proof {
                    lemma_follow_tree_wf(cs[i as int], table_view(matches_next@), n);
                }
                i = i + 1;
            }
            proof {
                assert(cs.skip(cs.len() as int) =~= Seq::<AnnTree>::empty());
            }
        },
        _ => {},
    }
}

/// The character a leaf matches, if it is a character leaf.
pub open spec fn leaf_char(t: AnnTree) -> Option<char> {
    match t.kind {
        AnnKind::Char(c, _) => Some(c),
        _ => None,
    }
}

/// The character of each leaf of the table, by position.
pub open spec fn kinds_of(leaves: Seq<AnnTree>) -> Seq<Option<char>> {
    Seq::new(leaves.len(), |i: int| leaf_char(leaves[i]))
}

/// Each leaf of the table stores its own position.
pub open spec fn leaves_positioned(leaves: Seq<AnnTree>) -> bool {
    forall|k: int| 0 <= k < leaves.len() ==> (match (#[trigger] leaves[k]).kind {
        AnnKind::Char(_, i) => i == k,
        AnnKind::EmptyString(i) => i == k,
        AnnKind::Terminal(i) => i == k,
        _ => false,
    })
}

/// Merges a target set into the group of character `c`, or appends a new
/// group for `c` at the end.
pub open spec fn add_to_group(
    gs: Seq<(char, Seq<usize>)>,
    c: char,
    t: Seq<usize>,
) -> Seq<(char, Seq<usize>)>
    decreases gs.len(),
{
    if gs.len() == 0 {
        seq![(c, t)]
    } else if gs[0].0 == c {
        seq![(c, merge(gs[0].1, t))] + gs.drop_first()
    } else {
        seq![gs[0]] + add_to_group(gs.drop_first(), c, t)
    }
}

/// Groups the character-labelled positions of a state by character, in order
/// of first occurrence over the positions in increasing order; the target of
/// a group is the union of the follow sets of its positions. A position
/// whose leaf has no character, or whose follow set is empty, contributes
/// nothing.
pub open spec fn groups_of(
    state: Seq<usize>,
    kinds: Seq<Option<char>>,
    follow: Seq<Seq<usize>>,
) -> Seq<(char, Seq<usize>)>
    decreases state.len(),
{
    if state.len() == 0 {
        Seq::empty()
    } else {
        let g = groups_of(state.drop_last(), kinds, follow);
        let p = state.last();
        if p < kinds.len() && kinds[p as int] is Some && p < follow.len() && follow[p as int].len()
            > 0 {
            add_to_group(g, kinds[p as int]->Some_0, follow[p as int])
        } else {
            g
        }
    }
}

/// The index of the first state equal to `t`, or one past the end if none.
pub open spec fn find_state(states: Seq<Seq<usize>>, t: Seq<usize>) -> int
    decreases states.len(),
{
    if states.len() == 0 {
        0
    } else if states[0] == t {
        0
    } else {
        1 + find_state(states.drop_first(), t)
    }
}

/// The discovered states, the accepting states, and the transition rows of
/// the automaton under construction, together with how many states have been
/// expanded so far.
pub struct SubsetState {
    pub states: Seq<Seq<usize>>,
    pub processed: int,
    pub accepting: Seq<usize>,
    pub rows: Seq<Seq<(char, usize)>>,
}

/// Records the transitions of one expanded state, group by group: a target
/// already discovered reuses its id; a new target takes the next id, is
/// marked accepting exactly when it holds the terminal position, and joins
/// the queue of states to expand.
pub open spec fn add_groups(
    states: Seq<Seq<usize>>,
    accepting: Seq<usize>,
    row: Seq<(char, usize)>,
    gs: Seq<(char, Seq<usize>)>,
    term: usize,
) -> (Seq<Seq<usize>>, Seq<usize>, Seq<(char, usize)>)
    decreases gs.len(),
{
    if gs.len() == 0 {
        (states, accepting, row)
    } else {
        let (c, t) = gs[0];
        let idx = find_state(states, t);
        if idx < states.len() {
            add_groups(states, accepting, row.push((c, idx as usize)), gs.drop_first(), term)
        } else {
            let nid = states.len() as usize;
            let accepting2 = if t.contains(term) {
                accepting.push(nid)
            } else {
                accepting
            };
            add_groups(states.push(t), accepting2, row.push((c, nid)), gs.drop_first(), term)
        }
    }
}

/// Expands the next unexpanded state, if any: groups its positions by
/// character, records its transition row, and queues the new targets.
pub open spec fn sc_step(
    st: SubsetState,
    kinds: Seq<Option<char>>,
    follow: Seq<Seq<usize>>,
    term: usize,
) -> SubsetState {
    if st.processed < 0 || st.processed >= st.states.len() {
        st
    } else {
        let gs = groups_of(st.states[st.processed], kinds, follow);
        let (states2, accepting2, row) = add_groups(st.states, st.accepting, Seq::empty(), gs, term);
        SubsetState {
            states: states2,
            processed: st.processed + 1,
            accepting: accepting2,
            rows: st.rows.push(row),
        }
    }
}

/// The construction after `k` expansion steps from `init`.
pub open spec fn sc_iter(
    k: nat,
    init: SubsetState,
    kinds: Seq<Option<char>>,
    follow: Seq<Seq<usize>>,
    term: usize,
) -> SubsetState
    decreases k,
{
    if k == 0 {
        init
    } else {
        sc_step(sc_iter((k - 1) as nat, init, kinds, follow, term), kinds, follow, term)
    }
}

/// The construction's starting point: one discovered state, the first
/// position set of the augmented root, accepting exactly when it holds the
/// terminal position.
pub open spec fn sc_init(start: Seq<usize>, term: usize) -> SubsetState {
    SubsetState {
        states: seq![start],
        processed: 0,
        accepting: if start.contains(term) {
            seq![0usize]
        } else {
            Seq::empty()
        },
        rows: Seq::empty(),
    }
}

/// The construction is finished: every discovered state is expanded.
pub open spec fn sc_done(st: SubsetState) -> bool {
    st.processed >= st.states.len()
}

/// The follow table of an annotated expression over `n` positions: what
/// [`calculate_matches_next`] fills, starting from empty entries.
pub open spec fn follow_table(t: AnnTree, n: nat) -> Seq<Seq<usize>> {
    follow_tree(t, Seq::new(n, |i: int| Seq::<usize>::empty()))
}

/// The automaton `d` is the outcome of the subset construction after `k`
/// steps for the annotated context with root view `root` and leaf views
/// `leaves`: the construction is finished, and `d` carries over its states,
/// accepting set and transition rows.
pub open spec fn subset_outcome(d: Dfa, root: AnnTree, leaves: Seq<AnnTree>, k: nat) -> bool {
    let init = sc_init(root.first, (leaves.len() - 1) as usize);
    let st = sc_iter(
        k,
        init,
        kinds_of(leaves),
        follow_table(root, leaves.len()),
        (leaves.len() - 1) as usize,
    );
    sc_done(st) && d.n_states == st.states.len() && d.start_state == 0 && d.accepting_states@
        == st.accepting && rows_view(d.transition_function@) == st.rows
}

/// See [`subset_outcome`].
pub open spec fn generated_from(d: Dfa, root: AnnTree, leaves: Seq<AnnTree>) -> bool {
    exists|k: nat| #[trigger] subset_outcome(d, root, leaves, k)
}

/// The characteristic number of a canonical position set: the sum of one
/// power of two per position.
pub open spec fn encode(s: Seq<usize>) -> nat
    decreases s.len(),
{
    if s.len() == 0 {
        0
    } else {
        encode(s.drop_last()) + vstd::arithmetic::power2::pow2(s.last() as nat)
    }
}

/// The characteristic number of a canonical set over `[0, n)` is below
/// two to the `n`.
pub proof fn lemma_encode_bound(s: Seq<usize>, n: nat)
    requires
        strictly_sorted(s),
        pos_bounded(s, 0, n as int),
    ensures
        encode(s) < vstd::arithmetic::power2::pow2(n),
    decreases s.len(),
{
    vstd::arithmetic::power2::lemma_pow2_pos(n);
    if s.len() > 0 {
        let last = s.last() as nat;
        let dl = s.drop_last();
        assert(strictly_sorted(dl) && pos_bounded(dl, 0, last as int)) by {
            assert(forall|i: int| 0 <= i < dl.len() ==> #[trigger] dl[i] == s[i]);
            assert(forall|i: int| 0 <= i < dl.len() ==> #[trigger] s[i] < s[s.len() - 1]);
        }
        lemma_encode_bound(dl, last);
        assert(encode(s) < vstd::arithmetic::power2::pow2(last) + vstd::arithmetic::power2::pow2(
            last,
        ));
        assert(vstd::arithmetic::power2::pow2(last) + vstd::arithmetic::power2::pow2(last)
            == vstd::arithmetic::power2::pow2(last + 1)) by {
            vstd::arithmetic::power2::lemma_pow2_unfold(last + 1);
        }
        if last + 1 < n {
            vstd::arithmetic::power2::lemma_pow2_strictly_increases(last + 1, n);
        }
    }
}

/// Two different canonical position sets have different characteristic
/// numbers.
pub proof fn lemma_encode_injective(a: Seq<usize>, b: Seq<usize>)
    requires
        strictly_sorted(a),
        strictly_sorted(b),
        a != b,
    ensures
        encode(a) != encode(b),
    decreases a.len() + b.len(),
{
    if a.len() == 0 || b.len() == 0 {
        if a.len() == 0 && b.len() == 0 {
            assert(a =~= b);
        } else if a.len() == 0 {
            vstd::arithmetic::power2::lemma_pow2_pos(b.last() as nat);
        } else {
            vstd::arithmetic::power2::lemma_pow2_pos(a.last() as nat);
        }
    } else if a.last() == b.last() {
        let da = a.drop_last();
        let db = b.drop_last();
        assert(strictly_sorted(da) && strictly_sorted(db)) by {
            assert(forall|i: int| 0 <= i < da.len() ==> #[trigger] da[i] == a[i]);
            assert(forall|i: int| 0 <= i < db.len() ==> #[trigger] db[i] == b[i]);
        }
        assert(da != db) by {
            if da == db {
                assert(a =~= da.push(a.last()));
                assert(b =~= db.push(b.last()));
            }
        }
        lemma_encode_injective(da, db);
    } else if a.last() < b.last() {
        lemma_encode_less(a, b);
    } else {
        lemma_encode_less(b, a);
    }
}

/// A canonical set whose greatest position is below another set's greatest
/// position has the smaller characteristic number.
proof fn lemma_encode_less(a: Seq<usize>, b: Seq<usize>)
    requires
        strictly_sorted(a),
        strictly_sorted(b),
        a.len() > 0,
        b.len() > 0,
        a.last() < b.last(),
    ensures
        encode(a) < encode(b),
{
    let la = a.last() as nat;
    let lb = b.last() as nat;
    assert(pos_bounded(a, 0, la as int + 1)) by {
        assert(forall|i: int| 0 <= i < a.len() - 1 ==> #[trigger] a[i] < a[a.len() - 1]);
    }
    lemma_encode_bound(a, la + 1);
    vstd::arithmetic::power2::lemma_pow2_pos(lb);
    if la + 1 < lb {
        vstd::arithmetic::power2::lemma_pow2_strictly_increases(la + 1, lb);
    }
    assert(encode(b) >= vstd::arithmetic::power2::pow2(lb));
}

/// Pairwise different canonical position sets over `[0, n)` number at most
/// two to the `n`: there are no more subsets of the positions.
pub proof fn lemma_states_bounded(states: Seq<Seq<usize>>, n: nat)
    requires
        forall|i: int| 0 <= i < states.len() ==> strictly_sorted(#[trigger] states[i]) && pos_bounded(
            states[i],
            0,
            n as int,
        ),
        forall|i: int, j: int| 0 <= i < j < states.len() ==> states[i] != states[j],
    ensures
        states.len() <= vstd::arithmetic::power2::pow2(n),
{
    let codes = Seq::new(states.len(), |i: int| encode(states[i]) as int);
    assert(codes.no_duplicates()) by {
        assert forall|i: int, j: int|
            0 <= i < codes.len() && 0 <= j < codes.len() && i != j implies codes[i] != codes[j] by {
            if i < j {
                lemma_encode_injective(states[i], states[j]);
            } else {
                lemma_encode_injective(states[j], states[i]);
            }
        }
    }
    codes.unique_seq_to_set();
    let bound = vstd::arithmetic::power2::pow2(n) as int;
    let range = vstd::set_lib::set_int_range(0, bound);
    vstd::set_lib::lemma_int_range(0, bound);
    assert(codes.to_set().subset_of(range)) by {
        assert forall|x: int| codes.to_set().contains(x) implies range.contains(x) by {
            let i = choose|i: int| 0 <= i < codes.len() && codes[i] == x;
            lemma_encode_bound(states[i], n);
        }
    }
    vstd::set_lib::lemma_len_subset(codes.to_set(), range);
}

/// The views of a list of groups.
pub open spec fn group_views(gs: Seq<(char, PosSet)>) -> Seq<(char, Seq<usize>)> {
    Seq::new(gs.len(), |i: int| (gs[i].0, gs[i].1@))
}

/// When the first group of character `c` stands at `i`, merging into it
/// rewrites exactly that entry.
proof fn lemma_add_to_group_found(gs: Seq<(char, Seq<usize>)>, c: char, t: Seq<usize>, i: int)
    requires
        0 <= i < gs.len(),
        gs[i].0 == c,
        forall|k: int| 0 <= k < i ==> gs[k].0 != c,
    ensures
        add_to_group(gs, c, t) == gs.update(i, (c, merge(gs[i].1, t))),
    decreases i,
{
    if i == 0 {
        assert(add_to_group(gs, c, t) == seq![(c, merge(gs[0].1, t))] + gs.drop_first());
        assert(seq![(c, merge(gs[0].1, t))] + gs.drop_first() =~= gs.update(
            0,
            (c, merge(gs[0].1, t)),
        ));
    } else {
        let tail = gs.drop_first();
        assert(forall|k: int| 0 <= k < i - 1 ==> #[trigger] tail[k].0 == gs[k + 1].0);
        assert(tail[i - 1] == gs[i]);
        lemma_add_to_group_found(tail, c, t, i - 1);
        assert(add_to_group(gs, c, t) == seq![gs[0]] + tail.update(i - 1, (c, merge(gs[i].1, t))));
        assert(seq![gs[0]] + tail.update(i - 1, (c, merge(gs[i].1, t))) =~= gs.update(
            i,
            (c, merge(gs[i].1, t)),
        ));
    }
}

/// When no group has character `c`, a new group is appended at the end.
proof fn lemma_add_to_group_missing(gs: Seq<(char, Seq<usize>)>, c: char, t: Seq<usize>)
    requires
        forall|k: int| 0 <= k < gs.len() ==> gs[k].0 != c,
    ensures
        add_to_group(gs, c, t) == gs.push((c, t)),
    decreases gs.len(),
{
    if gs.len() == 0 {
        assert(add_to_group(gs, c, t) =~= gs.push((c, t)));
    } else {
        let tail = gs.drop_first();
        assert(forall|k: int| 0 <= k < tail.len() ==> #[trigger] tail[k].0 == gs[k + 1].0);
        lemma_add_to_group_missing(tail, c, t);
        assert(seq![gs[0]] + tail.push((c, t)) =~= gs.push((c, t)));
    }
}

/// Merges the follow set `fp` into the group of character `c`, or appends a
/// new group for `c`.
fn add_to_group_exec(groups: &mut Vec<(char, PosSet)>, c: char, fp: &PosSet, Ghost(n): Ghost<int>)
    requires
        fp.wf(),
        pos_bounded(fp@, 0, n),
        forall|k: int| 0 <= k < old(groups)@.len() ==> (#[trigger] old(groups)@[k]).1.wf()
            && pos_bounded(old(groups)@[k].1@, 0, n) && old(groups)@[k].1@.len() > 0,
        fp@.len() > 0,
    ensures
        ({
            let gv = final(groups)@;
            group_views(gv) == add_to_group(group_views(old(groups)@), c, fp@) && (forall|k: int|
                0 <= k < gv.len() ==> (#[trigger] gv[k]).1.wf() && pos_bounded(gv[k].1@, 0, n)
                    && gv[k].1@.len() > 0)
        }),
{
    let ghost gv0 = group_views(groups@);
    let mut k: usize = 0;
    #[verifier::loop_isolation(false)]
    while k < groups.len()
        invariant
            k <= groups@.len(),
            groups@ == old(groups)@,
            forall|j: int| 0 <= j < k ==> group_views(groups@)[j].0 != c,
        decreases groups@.len() - k,
    {
        if groups[k].0 == c {
            let merged = groups[k].1.union(fp);
            proof {
                crate::pos_set::lemma_merge(groups@[k as int].1@, fp@);
                crate::annotator::lemma_merge_bounded(groups@[k as int].1@, fp@, 0, n);
                lemma_add_to_group_found(gv0, c, fp@, k as int);
            }
            groups.set(k, (c, merged));
            proof {
                assert(group_views(groups@) =~= gv0.update(
                    k as int,
                    (c, merge(gv0[k as int].1, fp@)),
                ));
            }
            return ;
        }
        k = k + 1;
    }
    proof {
        lemma_add_to_group_missing(gv0, c, fp@);
    }
    let dup = fp.duplicate();
    groups.push((c, dup));
    proof {
        assert(group_views(groups@) =~= gv0.push((c, fp@)));
    }
}

/// The first index of a state, its presence, and its absence, as
/// [`find_state`] reports them.
proof fn lemma_find_state_props(states: Seq<Seq<usize>>, t: Seq<usize>)
    ensures
        0 <= find_state(states, t) <= states.len(),
        find_state(states, t) < states.len() ==> states[find_state(states, t)] == t,
        find_state(states, t) == states.len() ==> forall|k: int|
            0 <= k < states.len() ==> states[k] != t,
        forall|k: int| 0 <= k < find_state(states, t) ==> states[k] != t,
    decreases states.len(),
{
    if states.len() == 0 {
    } else if states[0] == t {
        assert(find_state(states, t) == 0);
    } else {
        let tail = states.drop_first();
        lemma_find_state_props(tail, t);
        assert(find_state(states, t) == 1 + find_state(tail, t));
        assert(forall|k: int| 0 <= k < tail.len() ==> #[trigger] tail[k] == states[k + 1]);
        let f = find_state(states, t);
        assert(0 <= f <= states.len());
        if f < states.len() {
            assert(states[f] == tail[f - 1]);
        }
        assert(forall|k: int| 0 < k < f ==> states[k] == tail[k - 1]);
    }
}

/// Finds the first discovered state equal to `t`, returning its index, or
/// the number of states when there is none.
fn find_state_exec(states: &Vec<PosSet>, t: &PosSet) -> (r: usize)
    ensures
        r == find_state(table_view(states@), t@),
{
    let ghost sv = table_view(states@);
    let mut k: usize = 0;
    proof {
        assert(sv.skip(0) == sv);
    }
    while k < states.len()
        invariant
            k <= states@.len(),
            sv == table_view(states@),
            find_state(sv, t@) == k + find_state(sv.skip(k as int), t@),
        decreases states@.len() - k,
    {
        let ghost rest = sv.skip(k as int);
        proof {
            assert(rest[0] == sv[k as int]);
            assert(rest.drop_first() =~= sv.skip(k + 1));
        }
        if states[k].same_as(t) {
            proof {
                assert(find_state(rest, t@) == 0);
            }
            return k;
        }
        k = k + 1;
    }
    proof {
        assert(sv.skip(sv.len() as int) =~= Seq::<Seq<usize>>::empty());
    }
    states.len()
}

/// Generates a DFA from an input annotated expression with leaf context, by
/// subset construction over position sets: state zero is the root's first
/// position set, and states are expanded first-discovered-first until none
/// remain unexpanded.
#[verifier::rlimit(100)]
pub fn generate_dfa(expression: AnnotatedExpressionContext) -> (d: Dfa)
    requires
        expression.leaves@.len() >= 1,
        ann_tree_wf(ann_view(expression.expression), 0, expression.leaves@.len() as int),
        leaves_positioned(ann_views(expression.leaves@)),
    ensures
        generated_from(d, ann_view(expression.expression), ann_views(expression.leaves@)),
        d.transition_function@.len() == d.n_states,
        d.start_state == 0,
        d.n_states >= 1,
{
    let n = expression.leaves.len();
    let ghost root = ann_view(expression.expression);
    let ghost lvs = ann_views(expression.leaves@);
    let ghost kinds = kinds_of(lvs);
    let term = n - 1;
    proof {
        crate::annotator::lemma_ann_views(expression.leaves@);
    }
    let mut matches_next: Vec<PosSet> = Vec::new();
    while matches_next.len() < n
        invariant
            matches_next@.len() <= n,
            forall|k: int| 0 <= k < matches_next@.len() ==> (#[trigger] matches_next@[k])@
                == Seq::<usize>::empty(),
        decreases n - matches_next.len(),
    {
        matches_next.push(PosSet::empty());
    }
    proof {
        assert(table_view(matches_next@) =~= Seq::new(n as nat, |i: int| Seq::<usize>::empty()));
        assert(table_wf(table_view(matches_next@), n as int));
    }
    calculate_matches_next(&expression.expression, &mut matches_next);
    let ghost follow = follow_table(root, n as nat);
    proof {
        assert(table_view(matches_next@) == follow);
        assert(table_wf(follow, n as int));
    }
    let ghost init = sc_init(root.first, term);
    let initial_state = expression.expression.matches_start.duplicate();
    let start_accepting = initial_state.contains(term);
    let mut states: Vec<PosSet> = Vec::new();
    states.push(initial_state);
    let mut accepting: Vec<usize> = Vec::new();
    if start_accepting {
        accepting.push(0);
    }
    let mut rows: Vec<Vec<(char, usize)>> = Vec::new();
    let mut processed: usize = 0;
    let ghost mut steps: nat = 0;
    proof {
        vstd::arithmetic::power2::lemma_pow2_pos(n as nat);
        assert(table_view(states@) =~= seq![root.first]);
        if root.first.contains(term) {
            assert(accepting@ =~= seq![0usize]);
        } else {
            assert(accepting@ =~= Seq::<usize>::empty());
        }
        assert(rows_view(rows@) =~= Seq::<Seq<(char, usize)>>::empty());
        assert(sc_iter(steps, init, kinds, follow, term) == init);
    }
    #[verifier::loop_isolation(false)]
    while processed < states.len()
        invariant
            1 <= states@.len(),
            processed <= states@.len(),
            matches_next@.len() == n,
            table_view(matches_next@) == follow,
            forall|i: int| 0 <= i < states@.len() ==> strictly_sorted((#[trigger] states@[i])@)
                && pos_bounded(states@[i]@, 0, n as int),
            forall|i: int, j: int| 0 <= i < j < states@.len() ==> states@[i]@ != states@[j]@,
            states@.len() <= vstd::arithmetic::power2::pow2(n as nat),
            ({
                let st = sc_iter(steps, init, kinds, follow, term);
                st.states == table_view(states@) && st.processed == processed as int
                    && st.accepting == accepting@ && st.rows == rows_view(rows@)
            }),
        decreases vstd::arithmetic::power2::pow2(n as nat) - processed,
    {
        let ghost st = sc_iter(steps, init, kinds, follow, term);
        let current = states[processed].duplicate();
        proof {
            assert(current@ == st.states[processed as int]);
            assert(current@.take(0) =~= Seq::<usize>::empty());
        }
        let mut groups: Vec<(char, PosSet)> = Vec::new();
        let mut idx: usize = 0;
        #[verifier::loop_isolation(false)]
        while idx < current.len()
            invariant
                idx <= current@.len(),
                group_views(groups@) == groups_of(current@.take(idx as int), kinds, follow),
                forall|k: int| 0 <= k < groups@.len() ==> (#[trigger] groups@[k]).1.wf()
                    && pos_bounded(groups@[k].1@, 0, n as int) && groups@[k].1@.len() > 0,
            decreases current@.len() - idx,
        {
            let ghost prefix = current@.take(idx + 1);
            proof {
                assert(prefix.last() == current@[idx as int]);
                assert(prefix.drop_last() =~= current@.take(idx as int));
            }
            let p = current.get(idx);
            proof {
                assert(p < n);
                assert(lvs[p as int] == ann_view(expression.leaves@[p as int]));
                assert(kinds[p as int] == leaf_char(lvs[p as int]));
                assert(follow[p as int] == matches_next@[p as int]@);
            }
            match &expression.leaves[p].expression {
                AnnotatedExpressionType::Char(c, i) => {
                    proof {
                        assert(lvs[p as int].kind == AnnKind::Char(*c, *i));
                        assert(*i == p);
                        assert(kinds[p as int] == Some(*c));
                    }
                    let fp = &matches_next[*i];
                    if !fp.is_empty() {
                        add_to_group_exec(&mut groups, *c, fp, Ghost(n as int));
                    }
                },
                AnnotatedExpressionType::EmptyString(_) => {
                    proof {
                        assert(kinds[p as int] is None);
                    }
                },
                AnnotatedExpressionType::Terminal(_) => {
                    proof {
                        assert(kinds[p as int] is None);
                    }
                },
                _ => {
                    proof {
                        assert(kinds[p as int] is None);
                    }
                },
            }
            idx = idx + 1;
        }
        proof {
            assert(current@.take(current@.len() as int) =~= current@);
        }
        let ghost gvs = group_views(groups@);
        let mut row: Vec<(char, usize)> = Vec::new();
        let mut gidx: usize = 0;
        proof {
            assert(gvs.skip(0) == gvs);
        }
        #[verifier::loop_isolation(false)]
        while gidx < groups.len()
            invariant
                gidx <= groups@.len(),
                group_views(groups@) == gvs,
                forall|i: int| 0 <= i < states@.len() ==> strictly_sorted(
                    (#[trigger] states@[i])@,
                ) && pos_bounded(states@[i]@, 0, n as int),
                forall|i: int, j: int| 0 <= i < j < states@.len() ==> states@[i]@ != states@[j]@,
                states@.len() <= vstd::arithmetic::power2::pow2(n as nat),
                states@.len() >= st.states.len(),
                add_groups(st.states, st.accepting, Seq::empty(), gvs, term) == add_groups(
                    table_view(states@),
                    accepting@,
                    row@,
                    gvs.skip(gidx as int),
                    term,
                ),
            decreases groups@.len() - gidx,
        {
            let ghost rest = gvs.skip(gidx as int);
            proof {
                assert(rest[0] == gvs[gidx as int]);
                assert(rest.drop_first() =~= gvs.skip(gidx + 1));
                assert(gvs[gidx as int].1 == groups@[gidx as int].1@);
            }
            let c = groups[gidx].0;
            let fi = find_state_exec(&states, &groups[gidx].1);
            proof {
                lemma_find_state_props(table_view(states@), gvs[gidx as int].1);
            }
            let ghost row0 = row@;
            if fi < states.len() {
                row.push((c, fi));
                proof {
                    assert(row@ =~= row0.push((c, fi)));
                }
            } else {
                let nid = states.len();
                let tdup = groups[gidx].1.duplicate();
                if tdup.contains(term) {
                    accepting.push(nid);
                }
                let ghost sv0 = table_view(states@);
                states.push(tdup);
                row.push((c, nid));
                proof {
                    assert(row@ =~= row0.push((c, nid)));
                    assert(table_view(states@) =~= sv0.push(gvs[gidx as int].1));
                    assert(forall|i: int, j: int|
                        0 <= i < j < states@.len() ==> states@[i]@ != states@[j]@) by {
                        assert(forall|i: int|
                            0 <= i < sv0.len() ==> sv0[i] != gvs[gidx as int].1);
                        assert(forall|i: int|
                            0 <= i < sv0.len() ==> (#[trigger] states@[i])@ == sv0[i]);
                        assert(states@[states@.len() - 1]@ == gvs[gidx as int].1);
                    }
                    lemma_states_bounded(table_view(states@), n as nat);
                }
            }
            gidx = gidx + 1;
        }
        proof {
            assert(gvs.skip(gvs.len() as int) =~= Seq::<(char, Seq<usize>)>::empty());
        }
        let ghost rows0 = rows@;
        rows.push(row);
        processed = processed + 1;
        proof {
            let st2 = sc_step(st, kinds, follow, term);
            assert(st2.states == table_view(states@));
            assert(st2.accepting == accepting@);
            assert(st2.rows =~= rows_view(rows@)) by {
                assert(rows_view(rows@) =~= rows_view(rows0).push(rows@[rows@.len() - 1]@));
            }
            steps = steps + 1;
            assert(sc_iter(steps, init, kinds, follow, term) == st2);
        }
    }
    let d = Dfa {
        n_states: states.len(),
        start_state: 0,
        accepting_states: accepting,
        transition_function: rows,
    };
    proof {
        assert(subset_outcome(d, root, lvs, steps)) by {
            let st = sc_iter(steps, init, kinds, follow, term);
            assert(sc_done(st));
            assert(d.accepting_states@ == st.accepting);
            assert(rows_view(d.transition_function@) == st.rows);
        }
        assert(rows_view(d.transition_function@).len() == d.transition_function@.len());
        assert(d.transition_function@.len() == d.n_states) by {
            lemma_sc_iter_rows(steps, init, kinds, follow, term);
        }
    }
    d
}

/// Every finished construction has one transition row per expanded state.
proof fn lemma_sc_iter_rows(
    k: nat,
    init: SubsetState,
    kinds: Seq<Option<char>>,
    follow: Seq<Seq<usize>>,
    term: usize,
)
    requires
        init.rows.len() == init.processed == 0,
    ensures
        sc_iter(k, init, kinds, follow, term).rows.len() == sc_iter(
            k,
            init,
            kinds,
            follow,
            term,
        ).processed,
        0 <= sc_iter(k, init, kinds, follow, term).processed <= sc_iter(
            k,
            init,
            kinds,
            follow,
            term,
        ).states.len(),
    decreases k,
{
    if k > 0 {
        lemma_sc_iter_rows((k - 1) as nat, init, kinds, follow, term);
        lemma_add_groups_grows(init, kinds, follow, term, (k - 1) as nat);
    }
}

/// Applying the groups of a state never removes states.
proof fn lemma_add_groups_len(
    states: Seq<Seq<usize>>,
    accepting: Seq<usize>,
    row: Seq<(char, usize)>,
    gs: Seq<(char, Seq<usize>)>,
    term: usize,
)
    ensures
        add_groups(states, accepting, row, gs, term).0.len() >= states.len(),
    decreases gs.len(),
{
    if gs.len() > 0 {
        let (c, t) = gs[0];
        let idx = find_state(states, t);
        if idx < states.len() {
            lemma_add_groups_len(states, accepting, row.push((c, idx as usize)), gs.drop_first(), term);
        } else {
            let nid = states.len() as usize;
            let accepting2 = if t.contains(term) {
                accepting.push(nid)
            } else {
                accepting
            };
            lemma_add_groups_len(states.push(t), accepting2, row.push((c, nid)), gs.drop_first(), term);
        }
    }
}

/// One step keeps the processed count within the discovered states.
proof fn lemma_add_groups_grows(
    init: SubsetState,
    kinds: Seq<Option<char>>,
    follow: Seq<Seq<usize>>,
    term: usize,
    k: nat,
)
    requires
        0 <= sc_iter(k, init, kinds, follow, term).processed <= sc_iter(
            k,
            init,
            kinds,
            follow,
            term,
        ).states.len(),
    ensures
        0 <= sc_iter(k + 1, init, kinds, follow, term).processed <= sc_iter(
            k + 1,
            init,
            kinds,
            follow,
            term,
        ).states.len(),
        sc_iter(k + 1, init, kinds, follow, term).rows.len() == sc_iter(
            k,
            init,
            kinds,
            follow,
            term,
        ).rows.len() + (if sc_done(sc_iter(k, init, kinds, follow, term)) {
            0int
        } else {
            1int
        }),
        sc_iter(k + 1, init, kinds, follow, term).processed == sc_iter(
            k,
            init,
            kinds,
            follow,
            term,
        ).processed + (if sc_done(sc_iter(k, init, kinds, follow, term)) {
            0int
        } else {
            1int
        }),
{
    let st = sc_iter(k, init, kinds, follow, term);
    assert(sc_iter(k + 1, init, kinds, follow, term) == sc_step(st, kinds, follow, term));
    if !(st.processed < 0 || st.processed >= st.states.len()) {
        let gs = groups_of(st.states[st.processed], kinds, follow);
        lemma_add_groups_len(st.states, st.accepting, Seq::empty(), gs, term);
    }
}

/// A successfully annotated complete expression has at least the terminal
/// leaf, is well-formed over its leaf count, and stores each leaf at its own
/// position.
pub proof fn lemma_spec_annotate_ast_wf(e: crate::parser::ExpTree)
    ensures
        match crate::annotator::spec_annotate_ast(e) {
            Ok((root, lvs)) => {
                &&& 1 <= lvs.len() <= usize::MAX
                &&& ann_tree_wf(root, 0, lvs.len() as int)
                &&& leaves_positioned(lvs)
                &&& root.kind matches AnnKind::Concatenation(_)
            },
            Err(_) => true,
        },
{
    crate::annotator::lemma_spec_annotate_wf(e, 0);
    match crate::annotator::spec_annotate(e, 0) {
        Err(_) => {},
        Ok((tree, n, leaves)) => {
            if n < usize::MAX {
                let tpos = n as usize;
                let terminal = crate::annotator::terminal_leaf(tpos);
                let lvs = leaves.push(terminal);
                assert(leaves_positioned(lvs)) by {
                    assert(forall|k: int| 0 <= k < leaves.len() ==> #[trigger] lvs[k] == leaves[k]);
                    assert(lvs[n as int] == terminal);
                    assert forall|k: int|
                        0 <= k < lvs.len() implies (match (#[trigger] lvs[k]).kind {
                        AnnKind::Char(_, i) => i == k,
                        AnnKind::EmptyString(i) => i == k,
                        AnnKind::Terminal(i) => i == k,
                        _ => false,
                    }) by {
                        if k < leaves.len() {
                            assert(crate::annotator::is_leaf_at(leaves[k], k));
                            if exists|c: char|
                                leaves[k] == #[trigger] crate::annotator::char_leaf(
                                    c,
                                    k as usize,
                                ) {
                                let c = choose|c: char|
                                    leaves[k] == #[trigger] crate::annotator::char_leaf(
                                        c,
                                        k as usize,
                                    );
                                assert(lvs[k].kind == AnnKind::Char(c, k as usize));
                            } else {
                                assert(leaves[k] == crate::annotator::empty_leaf(k as usize));
                            }
                        }
                    }
                }
                let root = crate::annotator::spec_annotate_ast(e)->Ok_0.0;
                assert(ann_tree_wf(root, 0, lvs.len() as int)) by {
                    crate::annotator::lemma_ann_tree_wf_mono(tree, 0, n, 0, n + 1);
                    assert(ann_tree_wf(terminal, 0, n + 1)) by {
                        assert(terminal.first == seq![tpos] && terminal.last == seq![tpos]);
                        assert(seq![tpos][0] == tpos);
                        assert(pos_bounded(seq![tpos], 0, n + 1));
                    }
                    assert(ann_trees_wf(Seq::<AnnTree>::empty(), 0, n + 1));
                    assert(ann_trees_wf(seq![terminal], 0, n + 1)) by {
                        assert(seq![terminal][0] == terminal);
                        assert(seq![terminal].drop_first() =~= Seq::<AnnTree>::empty());
                        assert(ann_trees_wf(seq![terminal].drop_first(), 0, n + 1));
                    }
                    assert(ann_trees_wf(seq![tree, terminal], 0, n + 1)) by {
                        assert(seq![tree, terminal][0] == tree);
                        assert(seq![tree, terminal].drop_first() =~= seq![terminal]);
                        assert(ann_trees_wf(seq![tree, terminal].drop_first(), 0, n + 1));
                    }
                    assert(strictly_sorted(terminal.first) && pos_bounded(
                        terminal.first,
                        0,
                        n + 1,
                    ));
                    if tree.nullable {
                        crate::annotator::lemma_merge_bounded(Seq::empty(), terminal.first, 0, n + 1);
                        crate::annotator::lemma_merge_bounded(
                            merge(Seq::empty(), terminal.first),
                            tree.first,
                            0,
                            n + 1,
                        );
                        crate::annotator::lemma_merge_bounded(Seq::empty(), tree.last, 0, n + 1);
                        crate::annotator::lemma_merge_bounded(
                            merge(Seq::empty(), tree.last),
                            terminal.last,
                            0,
                            n + 1,
                        );
                    } else {
                        crate::annotator::lemma_merge_bounded(Seq::empty(), tree.first, 0, n + 1);
                        crate::annotator::lemma_merge_bounded(Seq::empty(), terminal.last, 0, n + 1);
                    }
                }
            }
        },
    }
}

/// Once the construction is finished, further steps change nothing.
pub proof fn lemma_sc_iter_stable(
    k1: nat,
    k2: nat,
    init: SubsetState,
    kinds: Seq<Option<char>>,
    follow: Seq<Seq<usize>>,
    term: usize,
)
    requires
        k1 <= k2,
        sc_done(sc_iter(k1, init, kinds, follow, term)),
    ensures
        sc_iter(k2, init, kinds, follow, term) == sc_iter(k1, init, kinds, follow, term),
    decreases k2,
{
    if k2 > k1 {
        lemma_sc_iter_stable(k1, (k2 - 1) as nat, init, kinds, follow, term);
        let st = sc_iter((k2 - 1) as nat, init, kinds, follow, term);
        assert(sc_step(st, kinds, follow, term) == st);
    }
}

/// Two automata with the same accepting set and the same transition rows
/// accept the same strings from any state.
pub proof fn lemma_run_congruent(d1: Dfa, d2: Dfa, state: usize, s: Seq<char>)
    requires
        d1.accepting_states@ == d2.accepting_states@,
        rows_view(d1.transition_function@) == rows_view(d2.transition_function@),
    ensures
        d1.spec_run(state, s) == d2.spec_run(state, s),
    decreases s.len(),
{
    assert(d1.transition_function@.len() == d2.transition_function@.len()) by {
        assert(rows_view(d1.transition_function@).len() == d1.transition_function@.len());
        assert(rows_view(d2.transition_function@).len() == d2.transition_function@.len());
    }
    if s.len() > 0 {
        if state < d1.transition_function@.len() {
            assert(d1.transition_function@[state as int]@ == rows_view(
                d1.transition_function@,
            )[state as int]);
            assert(d2.transition_function@[state as int]@ == rows_view(
                d2.transition_function@,
            )[state as int]);
            assert(d1.spec_transition(state, s[0]) == d2.spec_transition(state, s[0]));
            match d1.spec_transition(state, s[0]) {
                Some(t) => {
                    lemma_run_congruent(d1, d2, t, s.drop_first());
                },
                None => {},
            }
        }
    }
}

/// The language of a generated automaton is a function of the annotated
/// expression alone: two automata generated from the same annotated context
/// accept exactly the same strings, whatever their internal step counts.
pub proof fn lemma_language_deterministic(
    d1: Dfa,
    d2: Dfa,
    root: AnnTree,
    leaves: Seq<AnnTree>,
    s: Seq<char>,
)
    requires
        generated_from(d1, root, leaves),
        generated_from(d2, root, leaves),
    ensures
        d1.spec_accepts(s) == d2.spec_accepts(s),
{
    let init = sc_init(root.first, (leaves.len() - 1) as usize);
    let kinds = kinds_of(leaves);
    let follow = follow_table(root, leaves.len());
    let term = (leaves.len() - 1) as usize;
    let k1 = choose|k: nat| subset_outcome(d1, root, leaves, k);
    let k2 = choose|k: nat| subset_outcome(d2, root, leaves, k);
    if k1 <= k2 {
        lemma_sc_iter_stable(k1, k2, init, kinds, follow, term);
    } else {
        lemma_sc_iter_stable(k2, k1, init, kinds, follow, term);
    }
    assert(d1.accepting_states@ == d2.accepting_states@);
    assert(rows_view(d1.transition_function@) == rows_view(d2.transition_function@));
    lemma_run_congruent(d1, d2, 0, s);
}

/// Some recorded transition row targets state `sid`.
pub open spec fn state_is_target(rows: Seq<Seq<(char, usize)>>, sid: int) -> bool {
    exists|r: int, j: int|
        0 <= r < rows.len() && 0 <= j < rows[r].len() && ((#[trigger] rows[r][j]).1 as int) == sid
}

/// The row under construction targets state `sid`.
pub open spec fn row_has_target(row: Seq<(char, usize)>, sid: int) -> bool {
    exists|j: int| 0 <= j < row.len() && ((#[trigger] row[j]).1 as int) == sid
}

/// Everything the construction's states, rows and accepting set promise at
/// every step: one row per expanded state, row targets within the discovered
/// states, accepting states within the discovered states, and every state
/// but the first recorded as the target of some transition.
pub open spec fn sc_inv(st: SubsetState) -> bool {
    &&& 0 <= st.processed <= st.states.len()
    &&& st.rows.len() == st.processed
    &&& forall|i: int| 0 <= i < st.accepting.len() ==> (#[trigger] st.accepting[i]) < st.states.len()
    &&& forall|r: int, j: int|
        0 <= r < st.rows.len() && 0 <= j < st.rows[r].len() ==> ((#[trigger] st.rows[r][j]).1
            as int) < st.states.len()
    &&& forall|sid: int|
        1 <= sid < st.states.len() ==> #[trigger] state_is_target(st.rows, sid)
}

/// Applying groups preserves the construction's promises, extended to the
/// row being built: new states are targets of the new row.
proof fn lemma_add_groups_inv(
    states: Seq<Seq<usize>>,
    accepting: Seq<usize>,
    row: Seq<(char, usize)>,
    gs: Seq<(char, Seq<usize>)>,
    term: usize,
)
    requires
        forall|i: int| 0 <= i < accepting.len() ==> (#[trigger] accepting[i]) < states.len(),
        forall|j: int| 0 <= j < row.len() ==> ((#[trigger] row[j]).1 as int) < states.len(),
    ensures
        ({
            let (states2, accepting2, row2) = add_groups(states, accepting, row, gs, term);
            &&& states2.len() >= states.len()
            &&& forall|i: int|
                0 <= i < accepting2.len() ==> (#[trigger] accepting2[i]) < states2.len()
            &&& forall|j: int| 0 <= j < row2.len() ==> ((#[trigger] row2[j]).1 as int) < states2.len()
            &&& states2.len() <= usize::MAX ==> forall|sid: int|
                states.len() <= sid < states2.len() ==> #[trigger] row_has_target(row2, sid)
            &&& forall|j: int| 0 <= j < row.len() ==> row2[j] == row[j]
            &&& row2.len() >= row.len()
        }),
    decreases gs.len(),
{
    if gs.len() > 0 {
        let (c, t) = gs[0];
        let idx = find_state(states, t);
        lemma_find_state_props(states, t);
        if idx < states.len() {
            assert(((idx as usize) as int) < states.len()) by {
                if idx > usize::MAX {
                    assert(((idx as usize) as int) <= usize::MAX);
                }
            }
            lemma_add_groups_inv(states, accepting, row.push((c, idx as usize)), gs.drop_first(), term);
        } else {
            let nid = states.len() as usize;
            let accepting2 = if t.contains(term) {
                accepting.push(nid)
            } else {
                accepting
            };
            assert(((nid as usize) as int) <= states.len()) by {
                if states.len() > usize::MAX {
                    assert((nid as int) <= usize::MAX);
                }
            }
            lemma_add_groups_inv(
                states.push(t),
                accepting2,
                row.push((c, nid)),
                gs.drop_first(),
                term,
            );
            let (states3, accepting3, row3) = add_groups(
                states.push(t),
                accepting2,
                row.push((c, nid)),
                gs.drop_first(),
                term,
            );
            assert(row3[row.len() as int] == (c, nid));
            if states3.len() <= usize::MAX {
                assert(nid as int == states.len());
                assert(row_has_target(row3, nid as int));
            }
        }
    }
}

/// Each construction step preserves the promises of [`sc_inv`].
proof fn lemma_sc_step_inv(
    st: SubsetState,
    kinds: Seq<Option<char>>,
    follow: Seq<Seq<usize>>,
    term: usize,
)
    requires
        sc_inv(st),
        sc_step(st, kinds, follow, term).states.len() <= usize::MAX,
    ensures
        sc_inv(sc_step(st, kinds, follow, term)),
{
    if 0 <= st.processed < st.states.len() {
        let gs = groups_of(st.states[st.processed], kinds, follow);
        lemma_add_groups_inv(st.states, st.accepting, Seq::empty(), gs, term);
        let (states2, accepting2, row2) = add_groups(st.states, st.accepting, Seq::empty(), gs, term);
        let st2 = sc_step(st, kinds, follow, term);
        assert(st2.rows == st.rows.push(row2));
        assert forall|sid: int| 1 <= sid < st2.states.len() implies #[trigger] state_is_target(
            st2.rows,
            sid,
        ) by {
            if sid < st.states.len() {
                assert(state_is_target(st.rows, sid));
                let (r, j) = choose|r: int, j: int|
                    0 <= r < st.rows.len() && 0 <= j < st.rows[r].len() && ((#[trigger] st.rows[r][j]).1
                        as int) == sid;
                assert(st2.rows[r] == st.rows[r]);
                assert((st2.rows[r][j].1 as int) == sid);
            } else {
                assert(row_has_target(row2, sid));
                let j = choose|j: int|
                    0 <= j < row2.len() && ((#[trigger] row2[j]).1 as int) == sid;
                assert(st2.rows[st.rows.len() as int] == row2);
                assert((st2.rows[st.rows.len() as int][j].1 as int) == sid);
            }
        }
        assert forall|r: int, j: int|
            0 <= r < st2.rows.len() && 0 <= j < st2.rows[r].len() implies ((#[trigger] st2.rows[r][j]).1
                as int) < st2.states.len() by {
            if r < st.rows.len() {
                assert(st2.rows[r] == st.rows[r]);
            } else {
                assert(st2.rows[r] == row2);
            }
        }
    }
}

/// The promises of [`sc_inv`] hold after any number of steps.
proof fn lemma_sc_iter_inv(
    k: nat,
    init: SubsetState,
    kinds: Seq<Option<char>>,
    follow: Seq<Seq<usize>>,
    term: usize,
)
    requires
        sc_inv(init),
        forall|j: nat| j <= k ==> #[trigger] sc_iter(j, init, kinds, follow, term).states.len()
            <= usize::MAX,
    ensures
        sc_inv(sc_iter(k, init, kinds, follow, term)),
    decreases k,
{
    if k > 0 {
        lemma_sc_iter_inv((k - 1) as nat, init, kinds, follow, term);
        assert(sc_iter(k, init, kinds, follow, term).states.len() <= usize::MAX);
        lemma_sc_step_inv(sc_iter((k - 1) as nat, init, kinds, follow, term), kinds, follow, term);
    }
}

/// The structural invariant of every generated automaton: the start state is
/// state zero, there is one transition row per state, accepting states and
/// transition targets name existing states, and every state other than the
/// start state is the target of some recorded transition, so no state is
/// unreachable by construction.
pub proof fn lemma_generated_dfa_structure(d: Dfa, root: AnnTree, leaves: Seq<AnnTree>)
    requires
        generated_from(d, root, leaves),
        d.n_states <= usize::MAX,
    ensures
        d.start_state == 0,
        rows_view(d.transition_function@).len() == d.n_states,
        forall|i: int| 0 <= i < d.accepting_states@.len() ==> (#[trigger] d.accepting_states@[i])
            < d.n_states,
        forall|r: int, j: int|
            0 <= r < d.transition_function@.len() && 0 <= j < d.transition_function@[r]@.len()
                ==> ((#[trigger] d.transition_function@[r]@[j]).1 as int) < d.n_states,
        forall|sid: int|
            1 <= sid < d.n_states ==> #[trigger] state_is_target(
                rows_view(d.transition_function@),
                sid,
            ),
{
    let init = sc_init(root.first, (leaves.len() - 1) as usize);
    let kinds = kinds_of(leaves);
    let follow = follow_table(root, leaves.len());
    let term = (leaves.len() - 1) as usize;
    let k = choose|k: nat| subset_outcome(d, root, leaves, k);
    let st = sc_iter(k, init, kinds, follow, term);
    assert(sc_inv(init)) by {
        assert(init.states.len() == 1);
        if root.first.contains(term) {
            assert(init.accepting == seq![0usize]);
            assert(init.accepting[0] == 0usize);
        }
    }
    assert forall|j: nat| j <= k implies #[trigger] sc_iter(
        j,
        init,
        kinds,
        follow,
        term,
    ).states.len() <= usize::MAX by {
        lemma_sc_states_monotone(j, k, init, kinds, follow, term);
    }
    lemma_sc_iter_inv(k, init, kinds, follow, term);
    assert(st.rows.len() == st.states.len());
    assert(rows_view(d.transition_function@).len() == d.transition_function@.len());
    assert forall|r: int, j: int|
        0 <= r < d.transition_function@.len() && 0 <= j < d.transition_function@[r]@.len()
            implies ((#[trigger] d.transition_function@[r]@[j]).1 as int) < d.n_states by {
        assert(d.transition_function@[r]@ == rows_view(d.transition_function@)[r]);
        assert((st.rows[r][j].1 as int) < st.states.len());
    }

}

/// The discovered states only grow with the step count.
proof fn lemma_sc_states_monotone(
    k1: nat,
    k2: nat,
    init: SubsetState,
    kinds: Seq<Option<char>>,
    follow: Seq<Seq<usize>>,
    term: usize,
)
    requires
        k1 <= k2,
    ensures
        sc_iter(k1, init, kinds, follow, term).states.len() <= sc_iter(
            k2,
            init,
            kinds,
            follow,
            term,
        ).states.len(),
    decreases k2,
{
    if k2 > k1 {
        lemma_sc_states_monotone(k1, (k2 - 1) as nat, init, kinds, follow, term);
        let st = sc_iter((k2 - 1) as nat, init, kinds, follow, term);
        if 0 <= st.processed < st.states.len() {
            let gs = groups_of(st.states[st.processed], kinds, follow);
            lemma_add_groups_len(st.states, st.accepting, Seq::empty(), gs, term);
        }
    }
}

} // verus!
