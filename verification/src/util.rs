//! The 3-smooth numbers (those of the form 2^a * 3^b), produced in
//! non-decreasing order by merging the doubles and the triples of the values
//! produced so far.
use vstd::prelude::*;

verus! {

/// `n` is a positive integer with no prime factor other than 2 and 3.
pub open spec fn is_smooth(n: int) -> bool
    decreases n,
{
    if n <= 0 {
        false
    } else if n == 1 {
        true
    } else if n % 2 == 0 {
        is_smooth(n / 2)
    } else if n % 3 == 0 {
        is_smooth(n / 3)
    } else {
        false
    }
}

/// The state of the merge: the values so far, and for each factor the index
/// of the value whose multiple is the next candidate.
pub struct MergeState {
    pub values: Seq<int>,
    pub i2: int,
    pub i3: int,
}

/// The state before anything has been produced.
pub open spec fn merge_start() -> MergeState {
    MergeState { values: seq![1int], i2: 0, i3: 0 }
}

/// The smaller of the next double and the next triple, the double on a tie.
pub open spec fn merge_candidate(st: MergeState) -> int {
    let n2 = 2 * st.values[st.i2];
    let n3 = 3 * st.values[st.i3];
    if n2 <= n3 {
        n2
    } else {
        n3
    }
}

/// One step of the merge: the candidate is appended, and the index that
/// gave it moves on.
pub open spec fn merge_step(st: MergeState) -> MergeState {
    let n2 = 2 * st.values[st.i2];
    let n3 = 3 * st.values[st.i3];
    if n2 <= n3 {
        MergeState { values: st.values.push(n2), i2: st.i2 + 1, i3: st.i3 }
    } else {
        MergeState { values: st.values.push(n3), i2: st.i2, i3: st.i3 + 1 }
    }
}

/// The state after `k` values have been produced.
pub open spec fn merge_state(k: nat) -> MergeState
    decreases k,
{
    if k == 0 {
        merge_start()
    } else {
        merge_step(merge_state((k - 1) as nat))
    }
}

/// The `k`-th value produced (counting from 0).
pub open spec fn smooth_value(k: nat) -> int {
    merge_state(k).values[k as int]
}

/// The step after `k` values have been produced computes its double and its
/// triple within `usize`.
pub open spec fn merge_step_fits(k: nat) -> bool {
    let st = merge_state(k);
    &&& 2 * st.values[st.i2] <= usize::MAX
    &&& 3 * st.values[st.i3] <= usize::MAX
}

/// What holds of every state of the merge.
pub open spec fn merge_inv(st: MergeState) -> bool {
    let s = st.values;
    let last = s.last();
    &&& s.len() >= 1
    &&& s[0] == 1
    &&& 0 <= st.i2 < s.len()
    &&& 0 <= st.i3 < s.len()
    &&& forall|i: int, j: int| 0 <= i <= j < s.len() ==> s[i] <= s[j]
    &&& forall|i: int| 0 <= i < s.len() ==> #[trigger] is_smooth(s[i])
    &&& forall|j: int| 0 <= j < st.i2 ==> 2 * #[trigger] s[j] <= last
    &&& forall|j: int| 0 <= j < st.i3 ==> 3 * #[trigger] s[j] <= last
    &&& 2 * s[st.i2] >= last
    &&& 3 * s[st.i3] >= last
    &&& forall|m: int| #[trigger] is_smooth(m) && m <= last ==> s.contains(m)
}

proof fn lemma_smooth_pos(n: int)
    requires
        is_smooth(n),
    ensures
        n >= 1,
{
}

proof fn lemma_smooth_double(n: int)
    requires
        is_smooth(n),
    ensures
        is_smooth(2 * n),
{
    lemma_smooth_pos(n);
    assert((2 * n) % 2 == 0);
    assert((2 * n) / 2 == n);
}

proof fn lemma_smooth_triple(n: int)
    requires
        is_smooth(n),
    ensures
        is_smooth(3 * n),
    decreases n,
{
    lemma_smooth_pos(n);
    if n == 1 {
        assert(3int % 2 != 0);
        assert(3int % 3 == 0);
        assert(3int / 3 == 1);
    } else if n % 2 == 0 {
        lemma_smooth_triple(n / 2);
        assert((3 * n) % 2 == 0);
        assert((3 * n) / 2 == 3 * (n / 2));
    } else {
        assert(n % 3 == 0);
        assert((3 * n) % 2 != 0);
        assert((3 * n) % 3 == 0);
        assert((3 * n) / 3 == n);
    }
}

/// A 3-smooth number beyond the last value is at least the next candidate.
proof fn lemma_smooth_beyond_last(st: MergeState, m: int)
    requires
        merge_inv(st),
        is_smooth(m),
        m > st.values.last(),
    ensures
        m >= merge_candidate(st),
    decreases m,
{
    let s = st.values;
    let last = s.last();
    assert(is_smooth(s[s.len() - 1]));
    lemma_smooth_pos(last);
    assert(s[0] <= s[st.i2]);
    assert(s[0] <= s[st.i3]);
    if m % 2 == 0 {
        let h = m / 2;
        assert(is_smooth(h));
        if h <= last {
            assert(s.contains(h));
            let j = choose|j: int| 0 <= j < s.len() && s[j] == h;
            if j < st.i2 {
                assert(2 * s[j] <= last);
            } else {
                assert(s[st.i2] <= s[j]);
            }
        } else {
            lemma_smooth_beyond_last(st, h);
        }
    } else {
        assert(m % 3 == 0);
        let h = m / 3;
        assert(is_smooth(h));
        if h <= last {
            assert(s.contains(h));
            let j = choose|j: int| 0 <= j < s.len() && s[j] == h;
            if j < st.i3 {
                assert(3 * s[j] <= last);
            } else {
                assert(s[st.i3] <= s[j]);
            }
        } else {
            lemma_smooth_beyond_last(st, h);
        }
    }
}

proof fn lemma_merge_step_inv(st: MergeState)
    requires
        merge_inv(st),
    ensures
        merge_inv(merge_step(st)),
        merge_step(st).values == st.values.push(merge_candidate(st)),
{
    let s = st.values;
    let last = s.last();
    let p = merge_candidate(st);
    let nx = merge_step(st);
    let t = nx.values;
    assert(t == s.push(p));
    assert(is_smooth(s[st.i2]));
    assert(is_smooth(s[st.i3]));
    lemma_smooth_double(s[st.i2]);
    lemma_smooth_triple(s[st.i3]);
    assert(p >= last);
    assert(t.last() == p);
    assert forall|i: int, j: int| 0 <= i <= j < t.len() implies t[i] <= t[j] by {
        if j == t.len() - 1 {
            assert(s[i] <= last || i == j);
        }
    }
    assert forall|i: int| 0 <= i < t.len() implies #[trigger] is_smooth(t[i]) by {
        if i < s.len() {
            assert(t[i] == s[i]);
        }
    }
    assert forall|j: int| 0 <= j < nx.i2 implies 2 * #[trigger] t[j] <= t.last() by {
        if j < st.i2 {
            assert(t[j] == s[j]);
        }
    }
    assert forall|j: int| 0 <= j < nx.i3 implies 3 * #[trigger] t[j] <= t.last() by {
        if j < st.i3 {
            assert(t[j] == s[j]);
        }
    }
    if nx.i2 == st.i2 + 1 && nx.i2 < s.len() {
        assert(s[st.i2] <= s[nx.i2]);
    }
    if nx.i3 == st.i3 + 1 && nx.i3 < s.len() {
        assert(s[st.i3] <= s[nx.i3]);
    }
    assert forall|m: int| #[trigger] is_smooth(m) && m <= t.last() implies t.contains(m) by {
        if m <= last {
            assert(s.contains(m));
            let j = choose|j: int| 0 <= j < s.len() && s[j] == m;
            assert(t[j] == m);
        } else if m < p {
            lemma_smooth_beyond_last(st, m);
        } else {
            assert(t[t.len() - 1] == m);
        }
    }
}

/// Every state of the merge keeps the invariant and holds `k + 1` values.
pub proof fn lemma_merge_state_inv(k: nat)
    ensures
        merge_inv(merge_state(k)),
        merge_state(k).values.len() == k + 1,
    decreases k,
{
    if k == 0 {
        let st = merge_start();
        assert(st.values.last() == 1);
        assert forall|m: int| #[trigger] is_smooth(m) && m <= st.values.last() implies st.values.contains(m) by {
            lemma_smooth_pos(m);
            assert(st.values[0] == m);
        }
    } else {
        lemma_merge_state_inv((k - 1) as nat);
        lemma_merge_step_inv(merge_state((k - 1) as nat));
    }
}

/// Later states only append: the values of state `k` start those of state
/// `k2` for `k <= k2`.
pub proof fn lemma_merge_state_prefix(k: nat, k2: nat)
    requires
        k <= k2,
    ensures
        merge_state(k2).values.subrange(0, k as int + 1) == merge_state(k).values,
    decreases k2 - k,
{
    lemma_merge_state_inv(k);
    lemma_merge_state_inv(k2);
    if k < k2 {
        lemma_merge_state_prefix(k, (k2 - 1) as nat);
        lemma_merge_state_inv((k2 - 1) as nat);
        lemma_merge_step_inv(merge_state((k2 - 1) as nat));
        assert(merge_state(k2).values.subrange(0, k as int + 1) =~= merge_state((k2 - 1) as nat).values.subrange(
            0,
            k as int + 1,
        ));
    } else {
        assert(merge_state(k2).values.subrange(0, k as int + 1) =~= merge_state(k).values);
    }
}

/// The value at index `j` of state `k` is the `j`-th value produced.
pub proof fn lemma_merge_state_index(k: nat, j: nat)
    requires
        j <= k,
    ensures
        merge_state(k).values[j as int] == smooth_value(j),
{
    lemma_merge_state_prefix(j, k);
    lemma_merge_state_inv(j);
    lemma_merge_state_inv(k);
    assert(merge_state(k).values.subrange(0, j as int + 1)[j as int] == merge_state(k).values[j as int]);
}

/// Every value produced is 3-smooth.
pub proof fn lemma_smooth_value_is_smooth(k: nat)
    ensures
        is_smooth(smooth_value(k)),
{
    lemma_merge_state_inv(k);
}

/// The values are produced in non-decreasing order.
pub proof fn lemma_smooth_values_sorted(i: nat, j: nat)
    requires
        i <= j,
    ensures
        smooth_value(i) <= smooth_value(j),
{
    lemma_merge_state_inv(j);
    lemma_merge_state_index(j, i);
}

/// No 3-smooth number is skipped: every one up to the `k`-th value produced
/// is among the first `k + 1` values.
pub proof fn lemma_smooth_none_skipped(k: nat, m: int)
    requires
        is_smooth(m),
        m <= smooth_value(k),
    ensures
        exists|j: nat| j <= k && smooth_value(j) == m,
{
    lemma_merge_state_inv(k);
    let s = merge_state(k).values;
    assert(s.contains(m));
    let j = choose|j: int| 0 <= j < s.len() && s[j] == m;
    lemma_merge_state_index(k, j as nat);
    assert(smooth_value(j as nat) == m);
}

/// `pos` is the first index at which the `k`-th value was produced.
pub open spec fn first_occurrence(k: nat, pos: nat) -> bool {
    &&& pos <= k
    &&& smooth_value(pos) == smooth_value(k)
    &&& forall|j: nat| j < pos ==> #[trigger] smooth_value(j) < smooth_value(pos)
}

/// How many more copies of the `k`-th value (first produced at `pos`) the
/// merge can still produce, counted twice over.
pub open spec fn merge_slack(k: nat, pos: nat) -> int {
    2 * pos - merge_state(k).i2 - merge_state(k).i3
}

/// Each step either produces a larger value, or a copy of the same value
/// while using up slack; so every bound is eventually passed.
pub proof fn lemma_merge_progress(k: nat, pos: nat)
    requires
        first_occurrence(k, pos),
    ensures
        merge_slack(k, pos) >= 0,
        smooth_value(k + 1) >= smooth_value(k),
        smooth_value(k + 1) > smooth_value(k) ==> first_occurrence(k + 1, k + 1),
        smooth_value(k + 1) == smooth_value(k) ==> first_occurrence(k + 1, pos) && 0 <= merge_slack(
            k + 1,
            pos,
        ) < merge_slack(k, pos),
{
    let k1 = (k + 1) as nat;
    lemma_merge_state_inv(k);
    lemma_merge_state_inv(k1);
    lemma_merge_step_inv(merge_state(k));
    let st = merge_state(k);
    let st1 = merge_state(k1);
    assert(st1 == merge_step(st));
    lemma_merge_state_index(k, k);
    lemma_merge_state_index(k, pos);
    lemma_merge_state_index(k1, k);
    lemma_merge_state_index(k1, k1);
    lemma_merge_state_index(k1, pos);
    lemma_smooth_value_is_smooth(pos);
    lemma_smooth_pos(smooth_value(pos));
    // neither index passes the first copy of the last value
    if st.i2 > pos {
        assert(2 * st.values[pos as int] <= st.values.last());
    }
    if st.i3 > pos {
        assert(3 * st.values[pos as int] <= st.values.last());
    }
    assert(st1.values[k1 as int] >= st1.values[k as int]);
    if smooth_value(k1) > smooth_value(k) {
        assert forall|j: nat| j < k1 implies #[trigger] smooth_value(j) < smooth_value(k1) by {
            lemma_smooth_values_sorted(j, k);
        }
    } else {
        if st1.i2 > pos {
            assert(2 * st1.values[pos as int] <= st1.values.last());
        }
        if st1.i3 > pos {
            assert(3 * st1.values[pos as int] <= st1.values.last());
        }
    }
}

proof fn lemma_merge_reaches(m: int, k: nat, pos: nat)
    requires
        first_occurrence(k, pos),
    ensures
        exists|k2: nat| k <= k2 && smooth_value(k2) >= m,
    decreases
            (if smooth_value(k) < m { m - smooth_value(k) } else { 0 }),
            merge_slack(k, pos),
{
    if smooth_value(k) < m {
        lemma_merge_progress(k, pos);
        let k1 = (k + 1) as nat;
        if smooth_value(k1) > smooth_value(k) {
            lemma_merge_reaches(m, k1, k1);
        } else {
            lemma_merge_reaches(m, k1, pos);
        }
    }
}

/// Every 3-smooth number is produced: for each there is a `k` at which
/// it is the `k`-th value.
pub proof fn lemma_smooth_all_produced(m: int)
    requires
        is_smooth(m),
    ensures
        exists|k: nat| smooth_value(k) == m,
{
    lemma_merge_state_inv(0);
    lemma_merge_state_index(0, 0);
    assert(first_occurrence(0, 0));
    lemma_merge_reaches(m, 0, 0);
    let k2 = choose|k2: nat| 0 <= k2 && smooth_value(k2) >= m;
    lemma_smooth_none_skipped(k2, m);
}

/// An iterator over the 3-smooth numbers, in non-decreasing order (a number
/// that is both a double and a triple of earlier values comes more than once).
pub struct ThreeSmooth {
    s: Vec<usize>,
    i2: usize,
    i3: usize,
}

impl ThreeSmooth {
    /// How many values have been produced.
    pub closed spec fn count(&self) -> nat {
        (self.s@.len() - 1) as nat
    }

    /// The iterator's state is the merge state after `count()` values.
    pub closed spec fn wf(&self) -> bool {
        let st = merge_state(self.count());
        &&& self.s@.len() >= 1
        &&& self.s@.len() == st.values.len()
        &&& forall|i: int| 0 <= i < self.s@.len() ==> self.s@[i] as int == #[trigger] st.values[i]
        &&& self.i2 as int == st.i2
        &&& self.i3 as int == st.i3
    }

    pub fn new() -> (r: Self)
        ensures
            r.wf(),
            r.count() == 0,
    {
        let r = ThreeSmooth { s: vec![1], i2: 0, i3: 0 };
        proof {
            assert(merge_state(0) == merge_start());
        }
        r
    }

    /// Produces the next 3-smooth number.
    pub fn next(&mut self) -> (r: Option<usize>)
        requires
            old(self).wf(),
            merge_step_fits(old(self).count()),
        ensures
            final(self).wf(),
            final(self).count() == old(self).count() + 1,
            r matches Some(v) && v == smooth_value(old(self).count()),
    {
        let ghost k = self.count();
        proof {
            lemma_merge_state_inv(k);
        }
        let current = self.s[self.s.len() - 1];
        let n2 = 2 * self.s[self.i2];
        let n3 = 3 * self.s[self.i3];
        if n2 <= n3 {
            self.s.push(n2);
            self.i2 = self.i2 + 1;
        } else {
            self.s.push(n3);
            self.i3 = self.i3 + 1;
        }
        proof {
            lemma_merge_state_inv(k + 1);
            assert(merge_state(k + 1) == merge_step(merge_state(k)));
            assert(self.count() == k + 1);
        }
        Some(current)
    }
}

} // verus!
