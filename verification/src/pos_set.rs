//! Sets of leaf positions, kept in a canonical form: a strictly increasing
//! vector of `usize`. Two position sets hold the same positions exactly when
//! their vectors are equal, which makes deduplication during subset
//! construction a plain vector comparison.

use vstd::prelude::*;

verus! {

/// The canonical layout of a position set: strictly increasing, hence
/// duplicate-free.
pub open spec fn strictly_sorted(s: Seq<usize>) -> bool {
    forall|i: int, j: int| 0 <= i < j < s.len() ==> s[i] < s[j]
}

/// Merge of two strictly increasing sequences, dropping duplicates.
/// On canonical sequences this is exactly set union.
pub open spec fn merge(a: Seq<usize>, b: Seq<usize>) -> Seq<usize>
    decreases a.len() + b.len(),
{
    if a.len() == 0 {
        b
    } else if b.len() == 0 {
        a
    } else if a[0] < b[0] {
        seq![a[0]] + merge(a.drop_first(), b)
    } else if b[0] < a[0] {
        seq![b[0]] + merge(a, b.drop_first())
    } else {
        seq![a[0]] + merge(a.drop_first(), b.drop_first())
    }
}

/// On strictly sorted inputs, `merge` is the set union: the result is
/// strictly sorted, contains exactly the elements of both inputs, and its
/// head is the least element of either input.
pub proof fn lemma_merge(a: Seq<usize>, b: Seq<usize>)
    requires
        strictly_sorted(a),
        strictly_sorted(b),
    ensures
        strictly_sorted(merge(a, b)),
        forall|p: usize| merge(a, b).contains(p) <==> a.contains(p) || b.contains(p),
        merge(a, b).len() <= a.len() + b.len(),
        merge(a, b).len() == 0 ==> a.len() == 0 && b.len() == 0,
        a.len() > 0 && b.len() > 0 ==> merge(a, b)[0] == if a[0] < b[0] {
            a[0]
        } else {
            b[0]
        },
        a.len() > 0 && b.len() == 0 ==> merge(a, b)[0] == a[0],
        a.len() == 0 && b.len() > 0 ==> merge(a, b)[0] == b[0],
    decreases a.len() + b.len(),
{
    if a.len() == 0 || b.len() == 0 {
    } else {
        let at = a.drop_first();
        let bt = b.drop_first();
        assert(strictly_sorted(at)) by {
            assert(forall|i: int, j: int|
                0 <= i < j < at.len() ==> at[i] == a[i + 1] && at[j] == a[j + 1]);
        }
        assert(strictly_sorted(bt)) by {
            assert(forall|i: int, j: int|
                0 <= i < j < bt.len() ==> bt[i] == b[i + 1] && bt[j] == b[j + 1]);
        }
        assert(forall|p: usize| at.contains(p) || a[0] == p <==> a.contains(p)) by {
            assert(forall|i: int| 1 <= i < a.len() ==> at[i - 1] == a[i]);
            assert(forall|i: int| 0 <= i < at.len() ==> at[i] == a[i + 1]);
        }
        assert(forall|p: usize| bt.contains(p) || b[0] == p <==> b.contains(p)) by {
            assert(forall|i: int| 1 <= i < b.len() ==> bt[i - 1] == b[i]);
            assert(forall|i: int| 0 <= i < bt.len() ==> bt[i] == b[i + 1]);
        }
        if a[0] < b[0] {
            lemma_merge(at, b);
            let m = merge(at, b);
            let r = seq![a[0]] + m;
            assert(forall|i: int| 0 <= i < m.len() ==> r[i + 1] == m[i]);
            assert(strictly_sorted(r)) by {
                if m.len() > 0 {
                    assert(a[0] < m[0]) by {
                        if at.len() > 0 {
                            assert(a[0] < at[0]);
                        }
                    }
                    assert(forall|i: int| 0 <= i < m.len() ==> m[0] <= #[trigger] m[i]);
                }
            }
            assert(forall|p: usize| r.contains(p) <==> p == a[0] || m.contains(p)) by {
                assert(forall|i: int| 0 <= i < m.len() ==> r[i + 1] == m[i]);
                assert(forall|i: int| 0 < i < r.len() ==> m[i - 1] == r[i]);
                assert(r[0] == a[0]);
            }
        } else if b[0] < a[0] {
            lemma_merge(a, bt);
            let m = merge(a, bt);
            let r = seq![b[0]] + m;
            assert(forall|i: int| 0 <= i < m.len() ==> r[i + 1] == m[i]);
            assert(strictly_sorted(r)) by {
                if m.len() > 0 {
                    assert(b[0] < m[0]) by {
                        if bt.len() > 0 {
                            assert(b[0] < bt[0]);
                        }
                    }
                    assert(forall|i: int| 0 <= i < m.len() ==> m[0] <= #[trigger] m[i]);
                }
            }
            assert(forall|p: usize| r.contains(p) <==> p == b[0] || m.contains(p)) by {
                assert(forall|i: int| 0 < i < r.len() ==> m[i - 1] == r[i]);
                assert(r[0] == b[0]);
            }
        } else {
            lemma_merge(at, bt);
            let m = merge(at, bt);
            let r = seq![a[0]] + m;
            assert(forall|i: int| 0 <= i < m.len() ==> r[i + 1] == m[i]);
            assert(strictly_sorted(r)) by {
                if m.len() > 0 {
                    assert(a[0] < m[0]) by {
                        if at.len() > 0 {
                            assert(a[0] < at[0]);
                        }
                        if bt.len() > 0 {
                            assert(b[0] < bt[0]);
                        }
                    }
                    assert(forall|i: int| 0 <= i < m.len() ==> m[0] <= #[trigger] m[i]);
                }
            }
            assert(forall|p: usize| r.contains(p) <==> p == a[0] || m.contains(p)) by {
                assert(forall|i: int| 0 < i < r.len() ==> m[i - 1] == r[i]);
                assert(r[0] == a[0]);
            }
        }
    }
}

/// One left step of the merging loop: taking the head of the first remainder
/// commits it as the next element of the merge.
proof fn lemma_union_step_left(a: Seq<usize>, b: Seq<usize>, ra: Seq<usize>, rb: Seq<usize>, i: int, j: int)
    requires
        0 < i <= a.len(),
        0 <= j <= b.len(),
        ra == a.skip(i - 1),
        rb == b.skip(j),
        rb.len() > 0 ==> a[i - 1] < rb[0],
    ensures
        merge(ra, rb) == seq![a[i - 1]] + merge(a.skip(i), rb),
{
    assert(ra.len() > 0);
    assert(ra[0] == a[i - 1]);
    assert(ra.drop_first() =~= a.skip(i));
    if rb.len() == 0 {
        assert(merge(ra, rb) == ra);
        if a.skip(i).len() == 0 {
            assert(merge(a.skip(i), rb) == rb);
            assert(rb =~= a.skip(i));
        }
        assert(merge(a.skip(i), rb) == a.skip(i));
        assert(ra =~= seq![ra[0]] + ra.drop_first());
    } else {
        assert(merge(ra, rb) == seq![ra[0]] + merge(ra.drop_first(), rb));
    }
}

/// One right step of the merging loop, symmetric to the left step.
proof fn lemma_union_step_right(a: Seq<usize>, b: Seq<usize>, ra: Seq<usize>, rb: Seq<usize>, i: int, j: int)
    requires
        0 <= i <= a.len(),
        0 < j <= b.len(),
        ra == a.skip(i),
        rb == b.skip(j - 1),
        ra.len() > 0 ==> b[j - 1] < ra[0],
    ensures
        merge(ra, rb) == seq![b[j - 1]] + merge(ra, b.skip(j)),
{
    assert(rb.len() > 0);
    assert(rb[0] == b[j - 1]);
    assert(rb.drop_first() =~= b.skip(j));
    if ra.len() == 0 {
        assert(merge(ra, rb) == rb);
        if b.skip(j).len() == 0 {
            assert(merge(ra, b.skip(j)) =~= b.skip(j));
        }
        assert(merge(ra, b.skip(j)) == b.skip(j));
        assert(rb =~= seq![rb[0]] + rb.drop_first());
    } else {
        assert(merge(ra, rb) == seq![rb[0]] + merge(ra, rb.drop_first()));
    }
}

/// One step of the merging loop on equal heads: the shared head is committed
/// once and both remainders advance.
proof fn lemma_union_step_both(a: Seq<usize>, b: Seq<usize>, ra: Seq<usize>, rb: Seq<usize>, i: int, j: int)
    requires
        0 < i <= a.len(),
        0 < j <= b.len(),
        ra == a.skip(i - 1),
        rb == b.skip(j - 1),
        a[i - 1] == b[j - 1],
    ensures
        merge(ra, rb) == seq![a[i - 1]] + merge(a.skip(i), b.skip(j)),
{
    assert(ra.len() > 0 && rb.len() > 0);
    assert(ra[0] == a[i - 1] && rb[0] == b[j - 1]);
    assert(ra.drop_first() =~= a.skip(i));
    assert(rb.drop_first() =~= b.skip(j));
    assert(merge(ra, rb) == seq![ra[0]] + merge(ra.drop_first(), rb.drop_first()));
}

/// A finite set of leaf positions in canonical form.
#[derive(Debug, PartialEq, Eq)]
pub struct PosSet {
    elems: Vec<usize>,
}

impl View for PosSet {
    type V = Seq<usize>;

    closed spec fn view(&self) -> Seq<usize> {
        self.elems@
    }
}

impl PosSet {
    /// Canonical form holds.
    pub open spec fn wf(&self) -> bool {
        strictly_sorted(self@)
    }

    /// The set with no positions.
    pub fn empty() -> (r: PosSet)
        ensures
            r@ == Seq::<usize>::empty(),
            r.wf(),
    {
        PosSet { elems: Vec::new() }
    }

    /// The set holding exactly `p`.
    pub fn singleton(p: usize) -> (r: PosSet)
        ensures
            r@ == seq![p],
            r.wf(),
    {
        let mut elems: Vec<usize> = Vec::new();
        elems.push(p);
        PosSet { elems }
    }

    /// Union of two position sets.
    pub fn union(&self, other: &PosSet) -> (r: PosSet)
        requires
            self.wf(),
            other.wf(),
        ensures
            r@ == merge(self@, other@),
            r.wf(),
            forall|p: usize| r@.contains(p) <==> self@.contains(p) || other@.contains(p),
    {
        let a = &self.elems;
        let b = &other.elems;
        let mut r: Vec<usize> = Vec::new();
        let mut i: usize = 0;
        let mut j: usize = 0;
        proof {
            assert(a@.skip(0) == a@);
            assert(b@.skip(0) == b@);
        }
        while i < a.len() || j < b.len()
            invariant
                i <= a.len(),
                j <= b.len(),
                merge(a@, b@) == r@ + merge(a@.skip(i as int), b@.skip(j as int)),
            decreases a.len() - i + b.len() - j,
        {
            let ghost ra = a@.skip(i as int);
            let ghost rb = b@.skip(j as int);
            let ghost r0 = r@;
            if i < a.len() && (j >= b.len() || a[i] < b[j]) {
                r.push(a[i]);
                i = i + 1;
                proof {
                    lemma_union_step_left(a@, b@, ra, rb, i as int, j as int);
                    assert(r@ =~= r0 + seq![ra[0]]);
                    assert((r0 + seq![ra[0]]) + merge(a@.skip(i as int), rb) =~= r0 + (seq![
                        ra[0],
                    ] + merge(a@.skip(i as int), rb)));
                }
            } else if j < b.len() && (i >= a.len() || b[j] < a[i]) {
                r.push(b[j]);
                j = j + 1;
                proof {
                    lemma_union_step_right(a@, b@, ra, rb, i as int, j as int);
                    assert(r@ =~= r0 + seq![rb[0]]);
                    assert((r0 + seq![rb[0]]) + merge(ra, b@.skip(j as int)) =~= r0 + (seq![
                        rb[0],
                    ] + merge(ra, b@.skip(j as int))));
                }
            } else {
                r.push(a[i]);
                i = i + 1;
                j = j + 1;
                proof {
                    lemma_union_step_both(a@, b@, ra, rb, i as int, j as int);
                    assert(r@ =~= r0 + seq![ra[0]]);
                    assert((r0 + seq![ra[0]]) + merge(a@.skip(i as int), b@.skip(j as int)) =~= r0
                        + (seq![ra[0]] + merge(a@.skip(i as int), b@.skip(j as int))));
                }
            }
        }
        proof {
            assert(a@.skip(a@.len() as int) =~= Seq::<usize>::empty());
            assert(b@.skip(b@.len() as int) =~= Seq::<usize>::empty());
            assert(merge(Seq::<usize>::empty(), Seq::<usize>::empty()) =~= Seq::<usize>::empty());
            assert(r@ + Seq::<usize>::empty() =~= r@);
            lemma_merge(a@, b@);
        }
        PosSet { elems: r }
    }

    /// Membership test.
    pub fn contains(&self, p: usize) -> (r: bool)
        ensures
            r == self@.contains(p),
    {
        let mut i: usize = 0;
        while i < self.elems.len()
            invariant
                i <= self.elems.len(),
                forall|k: int| 0 <= k < i ==> self@[k] != p,
            decreases self.elems.len() - i,
        {
            if self.elems[i] == p {
                return true;
            }
            i = i + 1;
        }
        false
    }

    /// True when the set has no positions.
    pub fn is_empty(&self) -> (r: bool)
        ensures
            r == (self@.len() == 0),
    {
        self.elems.len() == 0
    }

    /// The number of positions held.
    pub fn len(&self) -> (r: usize)
        ensures
            r == self@.len(),
    {
        self.elems.len()
    }

    /// The position at rank `i` in increasing order.
    pub fn get(&self, i: usize) -> (r: usize)
        requires
            i < self@.len(),
        ensures
            r == self@[i as int],
    {
        self.elems[i]
    }

    /// A copy with the same positions.
    pub fn duplicate(&self) -> (r: PosSet)
        ensures
            r@ == self@,
    {
        let mut elems: Vec<usize> = Vec::new();
        let mut i: usize = 0;
        while i < self.elems.len()
            invariant
                i <= self.elems.len(),
                elems@ == self@.take(i as int),
            decreases self.elems.len() - i,
        {
            elems.push(self.elems[i]);
            i = i + 1;
            proof {
                assert(elems@ =~= self@.take(i as int));
            }
        }
        proof {
            assert(self@.take(self@.len() as int) =~= self@);
        }
        PosSet { elems }
    }

    /// Whether two sets hold the same positions; on canonical forms this is
    /// plain vector equality.
    pub fn same_as(&self, other: &PosSet) -> (r: bool)
        ensures
            r == (self@ == other@),
    {
        if self.elems.len() != other.elems.len() {
            proof {
                assert(self@ != other@);
            }
            return false;
        }
        let mut i: usize = 0;
        while i < self.elems.len()
            invariant
                i <= self.elems.len(),
                self.elems.len() == other.elems.len(),
                forall|k: int| 0 <= k < i ==> self@[k] == other@[k],
            decreases self.elems.len() - i,
        {
            if self.elems[i] != other.elems[i] {
                proof {
                    assert(self@[i as int] != other@[i as int]);
                }
                return false;
            }
            i = i + 1;
        }
        proof {
            assert(self@ =~= other@);
        }
        true
    }

    /// Builds a set from arbitrary elements, via repeated union.
    pub fn from_elems(v: &Vec<usize>) -> (r: PosSet)
        ensures
            r.wf(),
            forall|p: usize| r@.contains(p) <==> v@.contains(p),
    {
        let mut r = PosSet::empty();
        let mut i: usize = 0;
        while i < v.len()
            invariant
                i <= v.len(),
                r.wf(),
                forall|p: usize| r@.contains(p) <==> v@.take(i as int).contains(p),
            decreases v.len() - i,
        {
            let ghost old_r = r@;
            let s = PosSet::singleton(v[i]);
            let r2 = r.union(&s);
            proof {
                assert(forall|p: usize| s@.contains(p) <==> p == v@[i as int]) by {
                    assert(s@[0] == v@[i as int]);
                    assert(s@.len() == 1);
                    assert(forall|k: int| 0 <= k < s@.len() ==> #[trigger] s@[k] == s@[0]);
                }
                let t0 = v@.take(i as int);
                let t1 = v@.take(i + 1);
                assert(t1 =~= t0 + seq![v@[i as int]]);
                assert(forall|p: usize| t1.contains(p) <==> t0.contains(p) || p == v@[i as int])
                    by {
                    assert(forall|k: int| 0 <= k < t0.len() ==> t1[k] == t0[k]);
                    assert(t1[i as int] == v@[i as int]);
                    assert(forall|p: usize| t0.contains(p) ==> t1.contains(p));
                    assert(t1.contains(v@[i as int]));
                    assert(forall|k: int|
                        0 <= k < t1.len() && k != i ==> t0.contains(t1[k]) || t1[k] == t0[k]);
                }
            }
            r = r2;
            i = i + 1;
        }
        proof {
            assert(v@.take(v@.len() as int) =~= v@);
        }
        r
    }
}

} // verus!
