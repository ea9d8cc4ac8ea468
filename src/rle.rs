//! Run-end encoding of a sequence of strings.
use vstd::prelude::*;
use crate::collapse::expand_runs;

verus! {

/// A sequence of strings stored as runs: `values[i]` fills the logical
/// positions from `ends[i - 1]` (0 for the first run) up to, not including,
/// `ends[i]`.
pub struct RunEndEncoding {
    values: Vec<String>,
    ends: Vec<usize>,
}

/// Where the run before run `i` ends.
pub open spec fn run_start(ends: Seq<usize>, i: int) -> int {
    if i == 0 {
        0
    } else {
        ends[i - 1] as int
    }
}

impl View for RunEndEncoding {
    type V = Seq<(Seq<char>, nat)>;

    /// The runs, each as its text and its length.
    closed spec fn view(&self) -> Seq<(Seq<char>, nat)> {
        Seq::new(
            self.values@.len(),
            |i: int| (self.values@[i]@, (self.ends@[i] - run_start(self.ends@, i)) as nat),
        )
    }
}

impl RunEndEncoding {
    /// The run ends never decrease, and there is one per value.
    pub closed spec fn wf(&self) -> bool {
        &&& self.values@.len() == self.ends@.len()
        &&& forall|i: int, j: int| 0 <= i <= j < self.ends@.len() ==> self.ends@[i] <= self.ends@[j]
    }

    /// Number of logical positions covered.
    pub closed spec fn total(&self) -> nat {
        if self.ends@.len() == 0 {
            0
        } else {
            self.ends@.last() as nat
        }
    }

    /// The expansion of the runs has `total` positions, and position `k` holds
    /// the value of the run whose range holds `k`.
    proof fn lemma_expand(&self, n: int)
        requires
            self.wf(),
            0 <= n <= self.values@.len(),
        ensures
            expand_runs(self@.take(n)).len() == run_start(self.ends@, n),
            forall|i: int, k: int|
                0 <= i < n && run_start(self.ends@, i) <= k < self.ends@[i] ==> #[trigger] expand_runs(
                    self@.take(n),
                )[k] == #[trigger] self.values@[i]@,
        decreases n,
    {
        if n > 0 {
            self.lemma_expand(n - 1);
            assert(self@.take(n).drop_last() =~= self@.take(n - 1));
            let prev = expand_runs(self@.take(n - 1));
            assert forall|i: int, k: int|
                0 <= i < n && run_start(self.ends@, i) <= k < self.ends@[i] implies #[trigger] expand_runs(
                    self@.take(n),
                )[k] == #[trigger] self.values@[i]@ by {
                if i < n - 1 {
                    assert(self.ends@[i] <= run_start(self.ends@, n - 1));
                    assert(expand_runs(self@.take(n))[k] == prev[k]);
                }
            }
        }
    }

    /// An encoding of no runs.
    pub fn new() -> (r: RunEndEncoding)
        ensures
            r.wf(),
            r@ == Seq::<(Seq<char>, nat)>::empty(),
            r.total() == 0,
    {
        let r = RunEndEncoding { values: Vec::new(), ends: Vec::new() };
        assert(r@ =~= Seq::<(Seq<char>, nat)>::empty());
        r
    }

    /// Number of runs.
    pub fn len(&self) -> (r: usize)
        ensures
            r == self@.len(),
    {
        self.values.len()
    }

    /// Number of logical positions covered.
    pub fn total_len(&self) -> (r: usize)
        requires
            self.wf(),
        ensures
            r == self.total(),
            r == expand_runs(self@).len(),
    {
        proof {
            self.lemma_expand(self.values@.len() as int);
            assert(self@.take(self.values@.len() as int) =~= self@);
        }
        if self.ends.len() == 0 {
            0
        } else {
            self.ends[self.ends.len() - 1]
        }
    }

    /// Append a run of `count` copies of `value`.
    pub fn add(&mut self, value: String, count: usize)
        requires
            old(self).wf(),
            old(self).total() + count <= usize::MAX,
        ensures
            final(self).wf(),
            final(self)@ == old(self)@.push((value@, count as nat)),
            final(self).total() == old(self).total() + count,
    {
        let last = if self.ends.len() == 0 {
            0
        } else {
            self.ends[self.ends.len() - 1]
        };
        let ghost old_self = *self;
        self.values.push(value);
        self.ends.push(last + count);
        proof {
            assert(self@ =~= old_self@.push((value@, count as nat))) by {
                assert forall|i: int| 0 <= i < old_self.values@.len() implies self@[i] == old_self@[i] by {
                    assert(self.values@[i] == old_self.values@[i]);
                    assert(self.ends@[i] == old_self.ends@[i]);
                    if i > 0 {
                        assert(self.ends@[i - 1] == old_self.ends@[i - 1]);
                    }
                }
            }
        }
    }

    /// The string at logical position `index`, if the runs reach it: the
    /// value of the first run whose end lies beyond `index`.
    pub fn get(&self, index: usize) -> (r: Option<&String>)
        requires
            self.wf(),
        ensures
            match r {
                Some(s) => index < expand_runs(self@).len() && s@ == expand_runs(self@)[index as int],
                None => index >= expand_runs(self@).len(),
            },
    {
        proof {
            self.lemma_expand(self.values@.len() as int);
            assert(self@.take(self.values@.len() as int) =~= self@);
        }
        let mut lo: usize = 0;
        let mut hi: usize = self.ends.len();
        while lo < hi
            invariant
                self.wf(),
                lo <= hi <= self.ends@.len(),
                forall|i: int| 0 <= i < lo ==> self.ends@[i] <= index,
                forall|i: int| hi <= i < self.ends@.len() ==> self.ends@[i] > index,
            decreases hi - lo,
        {
            let mid = lo + (hi - lo) / 2;
            if self.ends[mid] <= index {
                lo = mid + 1;
            } else {
                hi = mid;
            }
        }
        if lo < self.values.len() {
            assert(run_start(self.ends@, lo as int) <= index);
            Some(&self.values[lo])
        } else {
            None
        }
    }
}

} // verus!
