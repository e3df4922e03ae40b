//! Enumeration of all orderings of a set of stops.
//!
//! The generator mutates a single working buffer in place, one swap per
//! emitted ordering, and hands out a snapshot of the buffer each time it is
//! advanced.  A counter array steers the swaps; its mixed-radix reading
//! (digit `i` runs from `0` to `i`) counts the emitted orderings, which is
//! how the generator's contract pins the total at `n!`.

use vstd::prelude::*;
use crate::RouteError;

verus! {

/// The largest intermediate set the generator enumerates.  Beyond this the
/// factorial number of orderings is no longer reasonable to walk.
pub const MAX_INTERMEDIATE: usize = 10;

/// The factorial of `n` as a mathematical value.
pub open spec fn fact(n: nat) -> nat
    decreases n,
{
    if n == 0 {
        1
    } else {
        n * fact((n - 1) as nat)
    }
}

/// Factorial never falls below 1.
pub proof fn lemma_fact_pos(n: nat)
    ensures
        fact(n) >= 1,
    decreases n,
{
    if n > 0 {
        lemma_fact_pos((n - 1) as nat);
        assert(n * fact((n - 1) as nat) >= 1) by (nonlinear_arith)
            requires
                n >= 1,
                fact((n - 1) as nat) >= 1,
        ;
    }
}

/// Factorial grows monotonically.
pub proof fn lemma_fact_mono(a: nat, b: nat)
    requires
        a <= b,
    ensures
        fact(a) <= fact(b),
    decreases b,
{
    if a < b {
        lemma_fact_mono(a, (b - 1) as nat);
        lemma_fact_pos((b - 1) as nat);
        assert(fact(b) == b * fact((b - 1) as nat));
        assert(b * fact((b - 1) as nat) >= 1 * fact((b - 1) as nat)) by (nonlinear_arith)
            requires
                b >= 1,
                fact((b - 1) as nat) >= 1,
        ;
    }
}

/// The largest argument for which the factorial fits an `isize` on every
/// supported word size: `12! == 479001600` stays below `2^31 - 1`.
pub proof fn lemma_fact_12()
    ensures
        fact(12) == 479001600,
{
    reveal_with_fuel(fact, 13);
}

/// The factorial of `num`, by the same recursion the mathematical
/// definition uses.  Arguments above 12 are excluded so that the result
/// fits an `isize` even on 32-bit targets; negative arguments have no
/// factorial and are excluded as well.
pub fn factorial(num: isize) -> (r: isize)
    requires
        0 <= num <= 12,
    ensures
        r == fact(num as nat),
    decreases num,
{
    if num == 0 || num == 1 {
        proof {
            reveal_with_fuel(fact, 3);
        }
        1
    } else {
        let prev = factorial(num - 1);
        proof {
            lemma_fact_mono(num as nat, 12);
            lemma_fact_12();
            lemma_fact_pos((num - 1) as nat);
            assert(fact(num as nat) == num * fact((num - 1) as nat));
            assert(prev * num == num * prev) by (nonlinear_arith);
        }
        prev * num
    }
}

/// The positions `0, 1, .., n - 1` in order: the ordering the generator
/// starts from, and the reference ordering its outputs are permutations of.
pub open spec fn ident_seq(n: nat) -> Seq<usize> {
    Seq::new(n, |i: int| i as usize)
}

/// The mixed-radix reading of the counter digits `c[1], .., c[k - 1]`,
/// where digit `i` weighs `i!`.  With digit `i` bounded by `i` this
/// numbers the counter states `0` through `k! - 1`.
pub open spec fn rank_to(c: Seq<usize>, k: int) -> nat
    decreases k,
{
    if k <= 1 {
        0
    } else {
        rank_to(c, k - 1) + (c[k - 1] as nat) * fact((k - 1) as nat)
    }
}

/// The factorial of 0 and of 1 is 1.
proof fn lemma_fact_unit(k: int)
    requires
        0 <= k <= 1,
    ensures
        fact(k as nat) == 1,
{
    reveal_with_fuel(fact, 2);
}

/// A counter with zeroes everywhere reads as rank 0.
proof fn lemma_rank_zero(c: Seq<usize>, k: int)
    requires
        0 <= k <= c.len(),
        forall|j: int| 1 <= j < k ==> c[j] == 0,
    ensures
        rank_to(c, k) == 0,
    decreases k,
{
    if k > 1 {
        lemma_rank_zero(c, k - 1);
    }
}

/// A counter with every digit at its bound reads as the last rank,
/// `k! - 1`.
proof fn lemma_rank_max(c: Seq<usize>, k: int)
    requires
        0 <= k <= c.len(),
        forall|j: int| 1 <= j < k ==> c[j] == j,
    ensures
        rank_to(c, k) == fact(k as nat) - 1,
    decreases k,
{
    if k <= 1 {
        lemma_fact_unit(k);
        assert(rank_to(c, k) == 0);
    } else {
        lemma_rank_max(c, k - 1);
        assert(c[k - 1] == k - 1);
        let f = fact((k - 1) as nat) as int;
        assert(rank_to(c, k) == rank_to(c, k - 1) + (c[k - 1] as nat) * fact((k - 1) as nat));
        assert((c[k - 1] as nat) * fact((k - 1) as nat) == (k - 1) * f);
        assert((f - 1) + (k - 1) * f == k * f - 1) by (nonlinear_arith);
        assert(fact(k as nat) == k * fact((k - 1) as nat));
    }
}

/// No counter within its digit bounds reads past rank `k! - 1`.
proof fn lemma_rank_bound(c: Seq<usize>, k: int)
    requires
        0 <= k <= c.len(),
        forall|j: int| 1 <= j < k ==> c[j] <= j,
    ensures
        rank_to(c, k) <= fact(k as nat) - 1,
    decreases k,
{
    if k <= 1 {
        lemma_fact_unit(k);
    } else {
        lemma_rank_bound(c, k - 1);
        lemma_fact_pos((k - 1) as nat);
        assert(c[k - 1] <= k - 1);
        let f = fact((k - 1) as nat) as int;
        let d = c[k - 1] as int;
        assert(rank_to(c, k) == rank_to(c, k - 1) + (c[k - 1] as nat) * fact((k - 1) as nat));
        assert((c[k - 1] as nat) * fact((k - 1) as nat) == d * f);
        assert(fact(k as nat) == k * fact((k - 1) as nat));
        assert(d * f <= (k - 1) * f) by (nonlinear_arith)
            requires
                0 <= d <= k - 1,
                f >= 1,
        ;
        assert((f - 1) + (k - 1) * f == k * f - 1) by (nonlinear_arith);
    }
}

/// The counter move the generator makes reads as one step of counting:
/// digits `1 .. i` fall from their bounds back to zero, digit `i` goes up
/// by one, digits above `i` stand still; the rank goes up by exactly one.
proof fn lemma_rank_increment(c1: Seq<usize>, c2: Seq<usize>, i: int, k: int)
    requires
        0 < i < k,
        k <= c1.len(),
        c2.len() == c1.len(),
        forall|j: int| 1 <= j < i ==> c1[j] == j,
        forall|j: int| 1 <= j < i ==> c2[j] == 0,
        c2[i] == c1[i] + 1,
        forall|j: int| i < j < k ==> c2[j] == c1[j],
    ensures
        rank_to(c2, k) == rank_to(c1, k) + 1,
    decreases k,
{
    if k == i + 1 {
        lemma_rank_zero(c2, i);
        lemma_rank_max(c1, i);
        lemma_fact_pos(i as nat);
        let f = fact(i as nat) as int;
        let d = c1[i] as int;
        assert(rank_to(c2, k) == rank_to(c2, i) + (c2[i] as nat) * fact(i as nat));
        assert(rank_to(c1, k) == rank_to(c1, i) + (c1[i] as nat) * fact(i as nat));
        assert(c2[i] as int == d + 1);
        assert((c2[i] as nat) * fact(i as nat) == (d + 1) * f);
        assert((c1[i] as nat) * fact(i as nat) == d * f);
        assert((d + 1) * f == d * f + f) by (nonlinear_arith);
    } else {
        lemma_rank_increment(c1, c2, i, k - 1);
    }
}

/// Swapping two positions of a sequence leaves its multiset of elements
/// unchanged.
proof fn lemma_swap_multiset(s: Seq<usize>, i: int, j: int)
    requires
        0 <= i < s.len(),
        0 <= j < s.len(),
        i != j,
    ensures
        s.update(j, s[i]).update(i, s[j]).to_multiset() == s.to_multiset(),
{
    broadcast use vstd::multiset::group_multiset_axioms;
    broadcast use vstd::seq_lib::group_to_multiset_ensures;

    let s1 = s.update(j, s[i]);
    assert(s.contains(s[i]));
    assert(s.contains(s[j]));
    assert(s1.contains(s1[i]));
    vstd::seq_lib::to_multiset_update(s, j, s[i]);
    vstd::seq_lib::to_multiset_update(s1, i, s[j]);
    assert(s1[i] == s[i]);
    assert(s1.update(i, s[j]).to_multiset() =~= s.to_multiset());
}

/// Every ordering of the positions `0 .. k - 1` has length `k` and every
/// entry below `k`.
pub proof fn lemma_perm_index_bound(q: Seq<usize>, k: nat)
    requires
        q.to_multiset() == ident_seq(k).to_multiset(),
    ensures
        q.len() == k,
        forall|t: int| 0 <= t < q.len() ==> (#[trigger] q[t]) < k,
{
    broadcast use vstd::seq_lib::group_to_multiset_ensures;

    assert(q.len() == q.to_multiset().len());
    assert(ident_seq(k).len() == k);
    assert forall|t: int| 0 <= t < q.len() implies (#[trigger] q[t]) < k by {
        assert(q.contains(q[t]));
        assert(q.to_multiset().count(q[t]) > 0);
        assert(ident_seq(k).to_multiset().count(q[t]) > 0);
        assert(ident_seq(k).contains(q[t]));
        let w = choose|w: int| 0 <= w < ident_seq(k).len() && ident_seq(k)[w] == q[t];
        assert(ident_seq(k)[w] == w as usize);
    }
}

/// An ordering of the distinct positions `0 .. k - 1` repeats none of
/// them.
pub proof fn lemma_perm_no_duplicates(q: Seq<usize>, k: nat)
    requires
        k <= usize::MAX,
        q.to_multiset() == ident_seq(k).to_multiset(),
    ensures
        q.no_duplicates(),
{
    assert(ident_seq(k).no_duplicates()) by {
        assert forall|i: int, j: int|
            0 <= i < k && 0 <= j < k && i != j implies ident_seq(k)[i] != ident_seq(k)[j] by {
            assert(ident_seq(k)[i] == i as usize);
            assert(ident_seq(k)[j] == j as usize);
        }
    }
    ident_seq(k).lemma_multiset_has_no_duplicates();
    q.lemma_multiset_has_no_duplicates_conv();
}

/// A generator that walks every ordering of the positions
/// `0, 1, .., n - 1`, one swap at a time, after the classic
/// counter-steered in-place scheme: digit `i` of the counter says how
/// often position `i` has been the right end of a swap since the digit
/// last fell back to zero, and the digit's mixed-radix reading counts the
/// orderings already handed out.
///
/// The working buffer is owned by the generator and mutated between
/// emissions, so each call of [`Permutations::next`] returns a snapshot.
/// The sequence is not restartable: once `next` returns `None` it keeps
/// returning `None`.
#[derive(Debug)]
pub struct Permutations {
    data: Vec<usize>,
    c: Vec<usize>,
    started: bool,
    done: bool,
}

impl Permutations {
    /// How many positions are being permuted.
    pub closed spec fn n_spec(self) -> nat {
        self.data@.len()
    }

    /// Whether an ordering has been handed out yet.
    pub closed spec fn started(self) -> bool {
        self.started
    }

    /// The generator's internal invariant: the counter digits stay within
    /// their bounds and the working buffer stays a permutation of the
    /// starting ordering.
    pub closed spec fn wf(self) -> bool {
        &&& self.c@.len() == self.data@.len()
        &&& self.data@.to_multiset() == ident_seq(self.data@.len()).to_multiset()
        &&& forall|i: int| 1 <= i < self.c@.len() ==> #[trigger] self.c@[i] <= i
        &&& (!self.started ==> forall|i: int| 0 <= i < self.c@.len() ==> self.c@[i] == 0)
        &&& (self.done ==> self.started)
    }

    /// The ordering the working buffer holds at the moment.
    pub closed spec fn current(self) -> Seq<usize> {
        self.data@
    }

    /// How many orderings have been handed out so far.
    pub closed spec fn count(self) -> nat {
        if !self.started {
            0
        } else if self.done {
            fact(self.n_spec())
        } else {
            rank_to(self.c@, self.c@.len() as int) + 1
        }
    }

    /// A fresh generator over the positions `0, 1, .., n - 1`.  Rejects
    /// sets larger than [`MAX_INTERMEDIATE`] with `InvalidInput`, before
    /// any enumeration work starts.
    pub fn new(n: usize) -> (r: Result<Permutations, RouteError>)
        ensures
            match r {
                Ok(g) => n <= MAX_INTERMEDIATE && g.wf() && g.count() == 0 && g.n_spec() == n,
                Err(e) => e == RouteError::InvalidInput && n > MAX_INTERMEDIATE,
            },
    {
        if n > MAX_INTERMEDIATE {
            return Err(RouteError::InvalidInput);
        }
        let mut data: Vec<usize> = Vec::new();
        let mut c: Vec<usize> = Vec::new();
        let mut i: usize = 0;
        while i < n
            invariant
                i <= n,
                data@.len() == i,
                c@.len() == i,
                forall|j: int| 0 <= j < i ==> data@[j] == j,
                forall|j: int| 0 <= j < i ==> c@[j] == 0,
            decreases n - i,
        {
            data.push(i);
            c.push(0);
            i = i + 1;
        }
        proof {
            assert(data@ =~= ident_seq(n as nat));
        }
        Ok(Permutations { data, c, started: false, done: false })
    }

    /// A copy of the working buffer.
    fn snapshot(&self) -> (p: Vec<usize>)
        ensures
            p@ == self.data@,
    {
        let mut p: Vec<usize> = Vec::new();
        let mut k: usize = 0;
        while k < self.data.len()
            invariant
                k <= self.data@.len(),
                p@.len() == k,
                forall|t: int| 0 <= t < k ==> p@[t] == self.data@[t],
            decreases self.data@.len() - k,
        {
            p.push(self.data[k]);
            k = k + 1;
        }
        proof {
            assert(p@ =~= self.data@);
        }
        p
    }

    /// The next ordering, or `None` once all `n!` orderings have been
    /// handed out.  Every emitted ordering is a permutation of the
    /// starting positions, and the count of emissions over the
    /// generator's whole life is exactly `n!`.
    pub fn next(&mut self) -> (r: Option<Vec<usize>>)
        requires
            old(self).wf(),
        ensures
            final(self).wf(),
            final(self).n_spec() == old(self).n_spec(),
            match r {
                Some(p) => {
                    &&& p@.len() == old(self).n_spec()
                    &&& p@.to_multiset() == ident_seq(old(self).n_spec()).to_multiset()
                    &&& p@.no_duplicates()
                    &&& p@ == final(self).current()
                    &&& old(self).started() ==> p@ != old(self).current()
                    &&& old(self).count() < fact(old(self).n_spec())
                    &&& final(self).count() == old(self).count() + 1
                },
                None => {
                    &&& old(self).count() == fact(old(self).n_spec())
                    &&& final(self).count() == old(self).count()
                    &&& final(self).current() == old(self).current()
                },
            },
    {
        let n = self.data.len();
        if self.done {
            return None;
        }
        if !self.started {
            self.started = true;
            proof {
                lemma_rank_zero(self.c@, self.c@.len() as int);
                lemma_fact_pos(old(self).n_spec());
                lemma_perm_no_duplicates(self.data@, old(self).n_spec());
            }
            return Some(self.snapshot());
        }
        let ghost c_in = self.c@;
        let mut i: usize = 1;
        while i < n
            invariant
                1 <= i,
                i <= n || n == 0,
                old(self).wf(),
                old(self).started,
                !old(self).done,
                n == old(self).n_spec(),
                self.data == old(self).data,
                self.started == old(self).started,
                self.done == old(self).done,
                self.c@.len() == n,
                c_in == old(self).c@,
                forall|j: int| 1 <= j < i ==> c_in[j] == j,
                forall|j: int| 1 <= j < i ==> self.c@[j] == 0,
                forall|j: int| i <= j < n ==> self.c@[j] == c_in[j],
            decreases n - i,
        {
            let ci = self.c[i];
            if ci < i {
                let j = if i % 2 == 0 {
                    0
                } else {
                    ci
                };
                let a = self.data[j];
                let b = self.data[i];
                self.data.set(j, b);
                self.data.set(i, a);
                self.c.set(i, ci + 1);
                proof {
                    lemma_swap_multiset(old(self).data@, i as int, j as int);
                    assert(self.data@ == old(self).data@.update(j as int, old(self).data@[i as int])
                        .update(i as int, old(self).data@[j as int]));
                    lemma_perm_no_duplicates(old(self).data@, n as nat);
                    assert(old(self).data@[i as int] != old(self).data@[j as int]);
                    assert(self.data@[i as int] != old(self).data@[i as int]);
                    lemma_perm_no_duplicates(self.data@, n as nat);
                    lemma_rank_increment(c_in, self.c@, i as int, n as int);
                    assert forall|t: int| 1 <= t < n implies #[trigger] self.c@[t] <= t by {
                        if t > i {
                            assert(old(self).c@[t] <= t);
                        }
                    }
                    lemma_rank_bound(self.c@, n as int);
                    lemma_fact_pos(n as nat);
                }
                return Some(self.snapshot());
            } else {
                self.c.set(i, 0);
                i = i + 1;
            }
        }
        proof {
            lemma_rank_max(c_in, n as int);
        }
        self.done = true;
        None
    }
}

} // verus!
