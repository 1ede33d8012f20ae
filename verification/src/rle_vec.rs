use vstd::prelude::*;
use vstd::std_specs::cmp::PartialEqSpec;
use crate::run::{
    runs_after_set, runs_after_insert, runs_after_remove, runs_after_truncate, runs_after_drain,
    runs_after_values, runs_after_runs,
    Run, flatten, is_canonical, plain_values, clone_is_identity, run_offset, push_run, repeat, encode,
    lemma_push_run, lemma_flatten_len_prefix, lemma_canonical_is_encode, lemma_canonical_unique,
};
use crate::edit::{
    set_done, set_merge_around, set_merge_before, set_merge_after, set_replace, set_grow_before,
    set_new_first, set_grow_after, set_new_last, set_split, insert_done, insert_into_run,
    insert_grow_before, insert_new_first, insert_split, remove_in_run,
    remove_single_run, merge_over_gap, lemma_remove_unjoined, lemma_remove_joined, truncate_runs,
    drain_within_run, drain_across_runs, lemma_append_one,
};
use crate::encoding::{
    InternalRun, start_of, ends_valid, coded_len, covers, abstract_runs, decode, lemma_start_le_end,
    lemma_decode_len, lemma_decode_at, lemma_offsets, lemma_store_push, grow_last, lemma_covers_unique, lemma_run_of,
};

verus! {

/// A vector-like structure that stores runs of identical values, each coded by
/// the value and the index of its last element.
///
/// Reading the value at an index takes a binary search over the runs.
#[derive(Debug, Eq, PartialEq, Ord, PartialOrd, Hash)]
pub struct RleVec<T> {
    pub(crate) runs: Vec<InternalRun<T>>,
}

/// The stored runs, with one more run after them when there is one.
pub(crate) open spec fn with_current<T>(runs: Seq<InternalRun<T>>, current: Option<InternalRun<T>>) -> Seq<
    InternalRun<T>,
> {
    match current {
        Some(r) => runs.push(r),
        None => runs,
    }
}

impl<T> View for RleVec<T> {
    type V = Seq<T>;

    /// The values, in order: each run contributes `len` copies of its value.
    open spec fn view(&self) -> Seq<T> {
        flatten(self.run_list())
    }
}

impl<T> RleVec<T> {
    /// The stored run ends strictly increase, and the number of values fits in
    /// a `usize`.
    #[verifier::type_invariant]
    pub closed spec fn well_formed(&self) -> bool {
        ends_valid(self.runs@)
    }

    /// The runs, in order, each as a length and a value.
    pub closed spec fn run_list(&self) -> Seq<Run<T>> {
        abstract_runs(self.runs@)
    }

    /// No run is empty and no two neighbouring runs hold the same value.
    pub open spec fn is_canonical(&self) -> bool {
        is_canonical(self.run_list())
    }

    /// The stored runs in terms of the public model.
    pub(crate) proof fn lemma_reveal(&self)
        ensures
            self.run_list() == abstract_runs(self.runs@),
            self@ == decode(self.runs@),
            self.well_formed() == ends_valid(self.runs@),
    {
    }

    /// Every run of a well-formed `RleVec` holds at least one value, so there
    /// are no more runs than values, and the number of values fits in a `usize`.
    pub proof fn lemma_well_formed(&self)
        requires
            self.well_formed(),
        ensures
            crate::run::runs_nonempty(self.run_list()),
            self.run_list().len() <= self@.len() <= usize::MAX,
    {
        lemma_decode_len(self.runs@);
        crate::run::lemma_flatten_len_ge(self.run_list());
    }

    /// An `RleVec` in shortest coding holds the shortest coding of its values.
    pub proof fn lemma_canonical_runs(&self)
        requires
            self.well_formed(),
            self.is_canonical(),
        ensures
            self.run_list() == encode(self@),
    {
        self.lemma_well_formed();
        lemma_canonical_is_encode(self.run_list());
    }

    /// Two `RleVec`s in shortest coding that hold the same values hold the
    /// same runs.
    pub proof fn lemma_same_values_same_runs(a: &RleVec<T>, b: &RleVec<T>)
        requires
            a.well_formed(),
            b.well_formed(),
            a.is_canonical(),
            b.is_canonical(),
            a@ == b@,
        ensures
            a.run_list() == b.run_list(),
    {
        lemma_canonical_unique(a.run_list(), b.run_list());
    }

    /// Constructs a new empty `RleVec<T>`.
    pub fn new() -> (rle: RleVec<T>)
        ensures
            rle@ == Seq::<T>::empty(),
            rle.run_list() == Seq::<Run<T>>::empty(),
            rle.well_formed(),
    {
        proof {
            reveal(ends_valid);
        }
        let rle = RleVec { runs: Vec::new() };
        assert(rle.run_list() =~= Seq::<Run<T>>::empty());
        rle
    }

    /// Constructs a new empty `RleVec<T>` with room for `capacity` runs.
    pub fn with_capacity(capacity: usize) -> (rle: RleVec<T>)
        ensures
            rle@ == Seq::<T>::empty(),
            rle.run_list() == Seq::<Run<T>>::empty(),
            rle.well_formed(),
    {
        proof {
            reveal(ends_valid);
        }
        let rle = RleVec { runs: Vec::with_capacity(capacity) };
        assert(rle.run_list() =~= Seq::<Run<T>>::empty());
        rle
    }

    /// Returns the number of elements.
    pub fn len(&self) -> (n: usize)
        ensures
            n == self@.len(),
    {
        proof {
            use_type_invariant(self);
            reveal(ends_valid);
            lemma_decode_len(self.runs@);
        }
        let n = self.runs.len();
        if n == 0 {
            0
        } else {
            self.runs[n - 1].end + 1
        }
    }

    /// Returns `true` if there are no elements.
    pub fn is_empty(&self) -> (b: bool)
        ensures
            b == (self@.len() == 0),
            b == (self.run_list().len() == 0),
    {
        proof {
            use_type_invariant(self);
            reveal(ends_valid);
            lemma_decode_len(self.runs@);
        }
        self.runs.len() == 0
    }

    /// Removes all values, keeping the storage for the runs.
    pub fn clear(&mut self)
        ensures
            final(self)@ == Seq::<T>::empty(),
            final(self).run_list() == Seq::<Run<T>>::empty(),
            final(self).well_formed(),
    {
        proof {
            reveal(ends_valid);
        }
        let mut runs = Vec::new();
        std::mem::swap(&mut runs, &mut self.runs);
        runs.clear();
        self.runs = runs;
        assert(self.run_list() =~= Seq::<Run<T>>::empty());
    }

    /// Returns the last value, or `None` when there is none.
    pub fn last(&self) -> (r: Option<&T>)
        ensures
            match r {
                None => self@.len() == 0,
                Some(v) => self@.len() > 0 && *v == self@.last(),
            },
    {
        proof {
            use_type_invariant(self);
            reveal(ends_valid);
            lemma_decode_len(self.runs@);
        }
        let n = self.runs.len();
        if n == 0 {
            None
        } else {
            proof {
                lemma_start_le_end(self.runs@, n - 1);
                lemma_decode_at(self.runs@, n - 1, self.runs@[n - 1].end as int);
            }
            Some(&self.runs[n - 1].value)
        }
    }

    /// Returns the last run, or `None` when there is none.
    pub fn last_run(&self) -> (r: Option<Run<&T>>)
        ensures
            match r {
                None => self.run_list().len() == 0,
                Some(run) => {
                    &&& self.run_list().len() > 0
                    &&& run.len == self.run_list().last().len
                    &&& *run.value == self.run_list().last().value
                },
            },
    {
        proof {
            use_type_invariant(self);
            reveal(ends_valid);
        }
        let n = self.runs.len();
        if n == 0 {
            None
        } else {
            let previous_end = if n >= 2 {
                self.runs[n - 2].end + 1
            } else {
                0
            };
            proof {
                lemma_start_le_end(self.runs@, n - 1);
            }
            Some(Run { len: self.runs[n - 1].end + 1 - previous_end, value: &self.runs[n - 1].value })
        }
    }

    /// Returns the number of runs.
    pub fn runs_len(&self) -> (n: usize)
        ensures
            n == self.run_list().len(),
    {
        self.runs.len()
    }

    /// The index of the first value of each run.
    pub fn starts(&self) -> (v: Vec<usize>)
        ensures
            v@.len() == self.run_list().len(),
            forall|k: int| 0 <= k < v@.len() ==> #[trigger] v@[k] == run_offset(self.run_list(), k),
    {
        proof {
            use_type_invariant(self);
        }
        let n = self.runs.len();
        let mut v: Vec<usize> = Vec::new();
        if n == 0 {
            return v;
        }
        v.push(0);
        proof {
            lemma_offsets(self.runs@, 0);
        }
        let mut k: usize = 0;
        while k < n - 1
            invariant
                0 <= k < n,
                n == self.runs@.len(),
                ends_valid(self.runs@),
                v@.len() == k + 1,
                forall|i: int| 0 <= i < v@.len() ==> #[trigger] v@[i] == run_offset(self.run_list(), i),
            decreases n - k,
        {
            proof {
                lemma_offsets(self.runs@, k + 1);
                reveal(ends_valid);
            }
            v.push(self.runs[k].end + 1);
            k = k + 1;
        }
        v
    }

    /// The index of the last value of each run.
    pub fn ends(&self) -> (v: Vec<usize>)
        ensures
            v@.len() == self.run_list().len(),
            forall|k: int| 0 <= k < v@.len() ==> #[trigger] v@[k] == run_offset(self.run_list(), k + 1) - 1,
    {
        proof {
            use_type_invariant(self);
        }
        let n = self.runs.len();
        let mut v: Vec<usize> = Vec::new();
        let mut k: usize = 0;
        while k < n
            invariant
                0 <= k <= n,
                n == self.runs@.len(),
                ends_valid(self.runs@),
                v@.len() == k,
                forall|i: int|
                    0 <= i < v@.len() ==> #[trigger] v@[i] == run_offset(self.run_list(), i + 1) - 1,
            decreases n - k,
        {
            proof {
                lemma_offsets(self.runs@, k + 1);
            }
            v.push(self.runs[k].end);
            k = k + 1;
        }
        v
    }

    /// Index of the run that holds the value at `index`: the first run whose
    /// end is at or past `index`.
    pub(crate) fn run_index(&self, index: usize) -> (k: usize)
        requires
            index < self@.len(),
        ensures
            covers(self.runs@, k as int, index as int),
    {
        proof {
            use_type_invariant(self);
            reveal(ends_valid);
            lemma_decode_len(self.runs@);
        }
        let mut lo: usize = 0;
        let mut hi: usize = self.runs.len() - 1;
        while lo < hi
            invariant
                ends_valid(self.runs@),
                lo <= hi < self.runs@.len(),
                index <= self.runs@[hi as int].end,
                lo > 0 ==> self.runs@[lo - 1].end < index,
            decreases hi - lo,
        {
            let mid = lo + (hi - lo) / 2;
            if self.runs[mid].end < index {
                lo = mid + 1;
            } else {
                hi = mid;
            }
        }
        lo
    }

    /// The run that holds the value at `index`, with its first and last index.
    fn index_info(&self, index: usize) -> (info: (usize, usize, usize))
        requires
            index < self@.len(),
        ensures
            covers(self.runs@, info.0 as int, index as int),
            info.1 == start_of(self.runs@, info.0 as int),
            info.2 == self.runs@[info.0 as int].end,
    {
        let p = self.run_index(index);
        if p == 0 {
            (0, 0, self.runs[0].end)
        } else {
            (p, self.runs[p - 1].end + 1, self.runs[p].end)
        }
    }
}

impl<T> std::ops::Index<usize> for RleVec<T> {
    type Output = T;

    /// The value at `index`.
    fn index(&self, index: usize) -> (v: &T)
        ensures
            *v == self@[index as int],
    {
        let k = self.run_index(index);
        proof {
            use_type_invariant(self);
            reveal(ends_valid);
            lemma_decode_at(self.runs@, k as int, index as int);
        }
        &self.runs[k].value
    }
}

impl<T> vstd::std_specs::core::IndexSpecImpl<usize> for RleVec<T> {
    open spec fn index_req(&self, index: &usize) -> bool {
        *index < self@.len()
    }
}

impl<T: Eq> RleVec<T> {
    /// Appends `value` at the back.
    pub fn push(&mut self, value: T)
        requires
            old(self)@.len() < usize::MAX,
        ensures
            final(self)@.len() == old(self)@.len() + 1,
            final(self).well_formed(),
            vstd::laws_eq::obeys_concrete_eq::<T>() ==> {
                &&& final(self)@ == old(self)@.push(value)
                &&& final(self).run_list() == push_run(old(self).run_list(), 1, value)
                &&& old(self).is_canonical() ==> final(self).is_canonical()
            },
    {
        self.push_n(1, value);
        proof {
            assert(old(self)@ + repeat(1, value) =~= old(self)@.push(value));
        }
    }

    /// Appends `n` copies of `value` at the back: the last run grows when it
    /// holds `value`, else a new run is added.
    #[verifier::spinoff_prover]
    pub fn push_n(&mut self, n: usize, value: T)
        requires
            old(self)@.len() + n <= usize::MAX,
        ensures
            final(self)@.len() == old(self)@.len() + n,
            final(self).well_formed(),
            n == 0 ==> final(self).run_list() == old(self).run_list(),
            n > 0 ==> final(self).run_list() == old(self).run_list().push(Run { len: n, value })
                || final(self).run_list() == old(self).run_list().update(
                    old(self).run_list().len() - 1,
                    Run {
                        len: (old(self).run_list().last().len + n) as usize,
                        value: old(self).run_list().last().value,
                    },
                ) && old(self).run_list().len() > 0,
            vstd::laws_eq::obeys_concrete_eq::<T>() ==> {
                &&& final(self)@ == old(self)@ + repeat(n as nat, value)
                &&& final(self).run_list() == push_run(old(self).run_list(), n, value)
                &&& old(self).is_canonical() ==> final(self).is_canonical()
            },
    {
        proof {
            use_type_invariant(&*self);
            reveal(ends_valid);
            lemma_decode_len(self.runs@);
        }
        let ghost old_runs = self.runs@;
        if n == 0 {
            return;
        }
        let mut runs = Vec::new();
        std::mem::swap(&mut runs, &mut self.runs);
        let len = runs.len();
        if len > 0 && runs[len - 1].value == value {
            let end = runs[len - 1].end + n;
            runs[len - 1].end = end;
            proof {
                lemma_start_le_end(old_runs, len - 1);
                assert forall|a: int, b: int|
                    #![trigger runs@[a].end, runs@[b].end]
                    0 <= a < b < runs@.len() implies runs@[a].end < runs@[b].end by {
                    assert(old_runs[a].end < old_runs[b].end);
                }
                assert(abstract_runs(runs@) =~= abstract_runs(old_runs).update(
                    len - 1,
                    Run {
                        len: (abstract_runs(old_runs).last().len + n) as usize,
                        value: abstract_runs(old_runs).last().value,
                    },
                ));
            }
        } else {
            let end = if len > 0 {
                runs[len - 1].end + n
            } else {
                n - 1
            };
            runs.push(InternalRun { end, value });
            proof {
                assert forall|a: int, b: int|
                    #![trigger runs@[a].end, runs@[b].end]
                    0 <= a < b < runs@.len() implies runs@[a].end < runs@[b].end by {
                    if b < len {
                        assert(old_runs[a].end < old_runs[b].end);
                    } else if a < len - 1 {
                        assert(old_runs[a].end < old_runs[len - 1].end);
                    }
                }
                assert(abstract_runs(runs@) =~= abstract_runs(old_runs).push(Run { len: n, value }));
            }
        }
        self.runs = runs;
        proof {
            reveal(vstd::laws_eq::obeys_concrete_eq);
            lemma_push_run(abstract_runs(old_runs), n, value);
            lemma_decode_len(self.runs@);
        }
    }

    /// Appends the values in order, growing the last run while the values
    /// equal its value.
    #[verifier::spinoff_prover]
    pub fn extend(&mut self, values: Vec<T>)
        requires
            old(self)@.len() + values@.len() <= usize::MAX,
        ensures
            final(self).well_formed(),
            final(self)@.len() == old(self)@.len() + values@.len(),
            vstd::laws_eq::obeys_concrete_eq::<T>() ==> {
                &&& final(self)@ == old(self)@ + values@
                &&& final(self).run_list() == runs_after_values(old(self).run_list(), values@)
                &&& old(self).is_canonical() ==> final(self).is_canonical()
            },
    {
        proof {
            use_type_invariant(&*self);
            lemma_decode_len(self.runs@);
        }
        let ghost vs = values@;
        let ghost o = self.runs@;
        let mut runs = Vec::new();
        proof {
            reveal(ends_valid);
        }
        std::mem::swap(&mut runs, &mut self.runs);
        // the run that the next value may grow, kept out of `runs`
        let mut current: Option<InternalRun<T>> = None;
        for value in it: values.into_iter()
            invariant
                it.seq() == vs,
                coded_len(o) + vs.len() <= usize::MAX,
                ends_valid(o),
                current is None <==> it.index() == 0,
                current is None ==> runs@ == o,
                ends_valid(with_current(runs@, current)),
                coded_len(with_current(runs@, current)) == coded_len(o) + it.index(),
                vstd::laws_eq::obeys_concrete_eq::<T>() ==> {
                    &&& decode(with_current(runs@, current)) == decode(o) + vs.take(it.index() as int)
                    &&& abstract_runs(with_current(runs@, current)) == runs_after_values(
                        abstract_runs(o),
                        vs.take(it.index() as int),
                    )
                    &&& is_canonical(abstract_runs(o)) ==> is_canonical(
                        abstract_runs(with_current(runs@, current)),
                    )
                },
        {
            let ghost before = with_current(runs@, current);
            let ghost k = it.index();
            let ghost grown: bool;
            match current {
                None => {
                    // the first value may grow the last run
                    let n = runs.len();
                    if n > 0 && runs[n - 1].value == value {
                        let mut last = runs.pop().unwrap();
                        last.end = last.end + 1;
                        current = Some(last);
                        proof {
                            grown = true;
                        }
                    } else {
                        let end = if n > 0 {
                            runs[n - 1].end + 1
                        } else {
                            0
                        };
                        current = Some(InternalRun { value, end });
                        proof {
                            grown = false;
                        }
                    }
                },
                Some(mut last) => {
                    if value != last.value {
                        let next_end = last.end;
                        runs.push(last);
                        last = InternalRun { value, end: next_end };
                        proof {
                            grown = false;
                        }
                    } else {
                        proof {
                            grown = true;
                        }
                    }
                    last.end = last.end + 1;
                    current = Some(last);
                },
            }
            proof {
                reveal(vstd::laws_eq::obeys_concrete_eq);
                let after = with_current(runs@, current);
                if grown {
                    assert(after =~= grow_last(before, 1));
                } else {
                    assert(after =~= before.push(
                        InternalRun { end: coded_len(before) as usize, value: vs[k] },
                    ));
                }
                lemma_append_one(before, after, vs[k], grown);
                assert(vs.take(k + 1) =~= vs.take(k).push(vs[k]));
                assert(vs.take(k + 1).drop_last() =~= vs.take(k));
            }
        }
        if let Some(last) = current {
            runs.push(last);
        }
        proof {
            assert(runs@ =~= with_current(runs@, None));
            assert(vs.take(vs.len() as int) =~= vs);
            lemma_decode_len(runs@);
        }
        self.runs = runs;
    }

    /// Builds an `RleVec` from values, in order.
    pub fn from_iter(values: Vec<T>) -> (rle: RleVec<T>)
        requires
            values@.len() <= usize::MAX,
        ensures
            rle.well_formed(),
            rle@.len() == values@.len(),
            vstd::laws_eq::obeys_concrete_eq::<T>() ==> rle@ == values@ && rle.is_canonical()
                && rle.run_list() == encode(values@),
    {
        let mut rle = RleVec::new();
        rle.extend(values);
        proof {
            assert(Seq::<T>::empty() + values@ =~= values@);
            assert(crate::run::is_canonical(Seq::<Run<T>>::empty()));
            if vstd::laws_eq::obeys_concrete_eq::<T>() {
                rle.lemma_canonical_runs();
            }
        }
        rle
    }

    /// Appends each run in order: `len` copies of its value.
    #[verifier::spinoff_prover]
    pub fn extend_runs(&mut self, runs: Vec<Run<T>>)
        requires
            old(self)@.len() + flatten(runs@).len() <= usize::MAX,
        ensures
            final(self).well_formed(),
            final(self)@.len() == old(self)@.len() + flatten(runs@).len(),
            vstd::laws_eq::obeys_concrete_eq::<T>() ==> {
                &&& final(self)@ == old(self)@ + flatten(runs@)
                &&& final(self).run_list() == runs_after_runs(old(self).run_list(), runs@)
                &&& old(self).is_canonical() ==> final(self).is_canonical()
            },
    {
        proof {
            use_type_invariant(&*self);
        }
        let ghost rs = runs@;
        let ghost start = self@;
        let ghost canonical = self.is_canonical();
        let ghost start_runs = self.run_list();
        for run in it: runs.into_iter()
            invariant
                it.seq() == rs,
                start.len() + flatten(rs).len() <= usize::MAX,
                self.well_formed(),
                self@.len() == start.len() + flatten(rs.take(it.index() as int)).len(),
                vstd::laws_eq::obeys_concrete_eq::<T>() ==> {
                    &&& self@ == start + flatten(rs.take(it.index() as int))
                    &&& self.run_list() == runs_after_runs(start_runs, rs.take(it.index() as int))
                    &&& canonical ==> self.is_canonical()
                },
        {
            let ghost k = it.index() as int;
            proof {
                lemma_flatten_len_prefix(rs, k);
                assert(rs.take(k + 1).drop_last() =~= rs.take(k));
                assert(rs.take(k + 1).last() == rs[k]);
            }
            let Run { len, value } = run;
            self.push_n(len, value);
            proof {
                assert(start + flatten(rs.take(k)) + repeat(len as nat, value) =~= start + flatten(
                    rs.take(k + 1),
                ));
            }
        }
        proof {
            assert(rs.take(rs.len() as int) =~= rs);
        }
    }

    /// Builds an `RleVec` from runs, in order.
    pub fn from_runs(runs: Vec<Run<T>>) -> (rle: RleVec<T>)
        requires
            flatten(runs@).len() <= usize::MAX,
        ensures
            rle.well_formed(),
            rle@.len() == flatten(runs@).len(),
            vstd::laws_eq::obeys_concrete_eq::<T>() ==> rle@ == flatten(runs@) && rle.is_canonical()
                && rle.run_list() == encode(flatten(runs@)),
    {
        let ghost rs = runs@;
        let mut rle = RleVec::with_capacity(runs.len());
        rle.extend_runs(runs);
        proof {
            assert(Seq::<T>::empty() + flatten(rs) =~= flatten(rs));
            assert(crate::run::is_canonical(Seq::<Run<T>>::empty()));
            if vstd::laws_eq::obeys_concrete_eq::<T>() {
                rle.lemma_canonical_runs();
            }
        }
        rle
    }
}



impl<T: Eq + Clone> RleVec<T> {
    /// Replaces the value at `index` by `value`.
    ///
    /// Nothing changes when the value there already equals `value`. Otherwise
    /// the run that holds `index` may be split, or `index` may join the run
    /// before or after it.
    #[verifier::spinoff_prover]
    pub fn set(&mut self, index: usize, value: T)
        requires
            index < old(self)@.len(),
        ensures
            final(self).well_formed(),
            final(self)@.len() == old(self)@.len(),
            T::obeys_eq_spec() && old(self)@[index as int].eq_spec(&value) ==> final(self).run_list()
                == old(self).run_list(),
            plain_values::<T>() ==> final(self)@ == old(self)@.update(index as int, value),
            plain_values::<T>() ==> final(self).run_list() == runs_after_set(
                old(self).run_list(),
                index as int,
                value,
            ),
            plain_values::<T>() && old(self).is_canonical() ==> final(self).is_canonical(),
    {
        proof {
            use_type_invariant(&*self);
            reveal(ends_valid);
            lemma_decode_len(self.runs@);
        }
        let (p, start, end) = self.index_info(index);
        proof {
            lemma_decode_at(self.runs@, p as int, index as int);
            lemma_run_of(self.runs@, p as int, index as int);
            reveal(vstd::laws_eq::obeys_concrete_eq);
        }
        if self.runs[p].value == value {
            return;
        }
        let ghost o = self.runs@;
        let mut runs = Vec::new();
        std::mem::swap(&mut runs, &mut self.runs);
        if end - start == 0 {
            // a run of one value: it takes the new value, or joins a neighbour
            if p > 0 && runs[p - 1].value == value {
                if p < runs.len() - 1 && runs[p + 1].value == value {
                    set_merge_around(&mut runs, p, index, Ghost(value));
                } else {
                    set_merge_before(&mut runs, p, index, value);
                }
            } else if p < runs.len() - 1 && runs[p + 1].value == value {
                set_merge_after(&mut runs, p, index, Ghost(value));
            } else {
                set_replace(&mut runs, p, index, value);
            }
        } else if index == start {
            // the first value of a longer run: it joins the run before, or starts a run
            if p > 0 && runs[p - 1].value == value {
                set_grow_before(&mut runs, p, index, Ghost(value));
            } else {
                set_new_first(&mut runs, p, index, value);
            }
        } else if index == end {
            // the last value of a longer run: it joins the run after, or starts a run
            if p < runs.len() - 1 && runs[p + 1].value == value {
                set_grow_after(&mut runs, p, index, Ghost(value));
            } else {
                set_new_last(&mut runs, p, index, value);
            }
        } else {
            // inside a longer run: the run is split in three
            set_split(&mut runs, p, index, value);
        }
        proof {
            assert(set_done(o, runs@, index as int, value));
        }
        self.runs = runs;
    }

    /// Puts `value` in at `index`, moving the values from `index` on one place
    /// to the right.
    #[verifier::spinoff_prover]
    pub fn insert(&mut self, index: usize, value: T)
        requires
            index <= old(self)@.len(),
            old(self)@.len() < usize::MAX,
        ensures
            final(self).well_formed(),
            final(self)@.len() == old(self)@.len() + 1,
            plain_values::<T>() ==> final(self)@ == old(self)@.insert(index as int, value),
            plain_values::<T>() ==> final(self).run_list() == runs_after_insert(
                old(self).run_list(),
                index as int,
                value,
            ),
            plain_values::<T>() && old(self).is_canonical() ==> final(self).is_canonical(),
    {
        proof {
            use_type_invariant(&*self);
            lemma_decode_len(self.runs@);
            reveal(vstd::laws_eq::obeys_concrete_eq);
        }
        if index == self.len() {
            self.push(value);
            proof {
                assert(old(self)@.push(value) =~= old(self)@.insert(index as int, value));
            }
            return;
        }
        let (p, start, _end) = self.index_info(index);
        let ghost o = self.runs@;
        let mut runs = Vec::new();
        proof {
            reveal(ends_valid);
        }
        std::mem::swap(&mut runs, &mut self.runs);
        if runs[p].value == value {
            insert_into_run(&mut runs, p, index, Ghost(value));
        } else if index == start {
            // at the start of a run: join the run before, or start a new run
            if p > 0 && runs[p - 1].value == value {
                insert_grow_before(&mut runs, p, index, Ghost(value));
            } else {
                insert_new_first(&mut runs, p, index, value);
            }
        } else {
            // inside a run: split it in three
            insert_split(&mut runs, p, index, value);
        }
        proof {
            assert(insert_done(o, runs@, index as int, value));
        }
        self.runs = runs;
    }

    /// Removes and returns the value at `index`, moving the values after it
    /// one place to the left.
    ///
    /// When the value was the only one of its run, the runs around it are
    /// joined when they hold equal values.
    #[verifier::spinoff_prover]
    pub fn remove(&mut self, index: usize) -> (r: T)
        requires
            index < old(self)@.len(),
        ensures
            final(self).well_formed(),
            final(self)@.len() == old(self)@.len() - 1,
            plain_values::<T>() ==> r == old(self)@[index as int] && final(self)@ == old(self)@.remove(
                index as int,
            ),
            vstd::laws_eq::obeys_concrete_eq::<T>() ==> final(self).run_list() == runs_after_remove(
                old(self).run_list(),
                index as int,
            ),
            plain_values::<T>() && old(self).is_canonical() ==> final(self).is_canonical(),
    {
        proof {
            use_type_invariant(&*self);
            lemma_decode_len(self.runs@);
            reveal(vstd::laws_eq::obeys_concrete_eq);
        }
        let (p, start, end) = self.index_info(index);
        let ghost o = self.runs@;
        let mut runs = Vec::new();
        proof {
            reveal(ends_valid);
        }
        std::mem::swap(&mut runs, &mut self.runs);
        if end - start == 0 {
            let value = remove_single_run(&mut runs, p, index);
            if p > 0 && p < runs.len() && runs[p - 1].value == runs[p].value {
                proof {
                    lemma_remove_joined(o, p as int, index as int);
                }
                merge_over_gap(&mut runs, p, Ghost(o));
            } else {
                proof {
                    lemma_remove_unjoined(o, p as int, index as int);
                }
            }
            self.runs = runs;
            value
        } else {
            let value = remove_in_run(&mut runs, p, index);
            self.runs = runs;
            value
        }
    }

    /// Keeps the first `len` values and drops the rest.
    #[verifier::spinoff_prover]
    pub fn truncate(&mut self, len: usize)
        requires
            len <= old(self)@.len(),
        ensures
            final(self).well_formed(),
            final(self)@ == old(self)@.take(len as int),
            final(self).run_list() == runs_after_truncate(old(self).run_list(), len as int),
            old(self).is_canonical() ==> final(self).is_canonical(),
    {
        proof {
            use_type_invariant(&*self);
            lemma_decode_len(self.runs@);
        }
        if len == self.len() {
            proof {
                assert(old(self)@.take(len as int) =~= old(self)@);
                let o = self.runs@;
                if len > 0 {
                    let last = o.len() - 1;
                    lemma_start_le_end(o, last);
                    lemma_run_of(o, last, len - 1);
                    assert(self.run_list() =~= runs_after_truncate(self.run_list(), len as int));
                }
            }
            return;
        } else if len == 0 {
            self.clear();
            proof {
                assert(old(self)@.take(0) =~= Seq::<T>::empty());
            }
            return;
        }
        let index = self.run_index(len - 1);
        let mut runs = Vec::new();
        proof {
            reveal(ends_valid);
        }
        std::mem::swap(&mut runs, &mut self.runs);
        truncate_runs(&mut runs, index, len);
        self.runs = runs;
    }

    /// Removes the values at the indexes in `range`, moving the values after
    /// them to the left.
    ///
    /// A range that lies inside one run only shortens that run. Otherwise the
    /// runs left on either side of the range are not joined, even when they
    /// hold equal values.
    #[verifier::spinoff_prover]
    pub fn drain(&mut self, range: std::ops::Range<usize>)
        requires
            range.start <= range.end <= old(self)@.len(),
        ensures
            final(self).well_formed(),
            final(self)@ == old(self)@.take(range.start as int) + old(self)@.skip(range.end as int),
            final(self).run_list() == runs_after_drain(
                old(self).run_list(),
                range.start as int,
                range.end as int,
            ),
            old(self).is_canonical() && (range.start == 0 || range.end == old(self)@.len() || old(
                self,
            )@[range.start - 1] != old(self)@[range.end as int]) ==> final(self).is_canonical(),
            old(self).is_canonical() && (exists|k: int|
                #![trigger run_offset(old(self).run_list(), k)]
                0 <= k < old(self).run_list().len() && run_offset(old(self).run_list(), k)
                    < range.start && range.end < run_offset(old(self).run_list(), k + 1))
                ==> final(self).is_canonical(),
    {
        proof {
            use_type_invariant(&*self);
            lemma_decode_len(self.runs@);
        }
        let start = range.start;
        let end = range.end;
        if start == end {
            proof {
                reveal(runs_after_drain);
                assert(old(self)@.take(start as int) + old(self)@.skip(end as int) =~= old(self)@);
            }
            return;
        }
        let start_index = self.run_index(start);
        let end_index = self.run_index(end - 1);
        let ghost o = self.runs@;
        let mut runs = Vec::new();
        proof {
            reveal(ends_valid);
        }
        std::mem::swap(&mut runs, &mut self.runs);
        proof {
            if exists|k: int|
                #![trigger run_offset(abstract_runs(o), k)]
                0 <= k < o.len() && run_offset(abstract_runs(o), k) < start && end
                    < run_offset(abstract_runs(o), k + 1) {
                let k = choose|k: int|
                    #![trigger run_offset(abstract_runs(o), k)]
                    0 <= k < o.len() && run_offset(abstract_runs(o), k) < start && end
                        < run_offset(abstract_runs(o), k + 1);
                lemma_offsets(o, k);
                lemma_offsets(o, k + 1);
                lemma_covers_unique(o, k, start_index as int, start as int);
                lemma_covers_unique(o, k, end_index as int, end - 1);
            }
        }
        if start_index == end_index {
            drain_within_run(&mut runs, start_index, start, end);
        } else {
            proof {
                if end_index < start_index {
                    assert(runs@[end_index as int].end < runs@[start_index as int].end);
                }
            }
            drain_across_runs(&mut runs, start_index, end_index, start, end);
        }
        self.runs = runs;
    }
}

impl<T: Clone> RleVec<T> {
    /// The values, cloned into a `Vec`.
    #[verifier::spinoff_prover]
    pub fn to_vec(&self) -> (v: Vec<T>)
        ensures
            v@.len() == self@.len(),
            forall|i: int| 0 <= i < v@.len() ==> vstd::pervasive::cloned(self@[i], #[trigger] v@[i]),
            clone_is_identity::<T>() ==> v@ == self@,
    {
        proof {
            use_type_invariant(self);
            lemma_decode_len(self.runs@);
        }
        let mut res: Vec<T> = Vec::with_capacity(self.len());
        let n = self.runs.len();
        let mut p: usize = 0;
        let mut k: usize = 0;
        while k < n
            invariant
                0 <= k <= n,
                n == self.runs@.len(),
                ends_valid(self.runs@),
                p == start_of(self.runs@, k as int),
                res@.len() == p,
                decode(self.runs@).len() == coded_len(self.runs@),
                self@ == decode(self.runs@),
                forall|i: int| 0 <= i < p ==> vstd::pervasive::cloned(self@[i], #[trigger] res@[i]),
            decreases n - k,
        {
            let r = &self.runs[k];
            proof {
                lemma_start_le_end(self.runs@, k as int);
                reveal(ends_valid);
                if k + 1 < n {
                    assert(self.runs@[k as int].end < self.runs@[n - 1].end);
                }
            }
            let count = r.end - p + 1;
            let mut j: usize = 0;
            while j < count
                invariant
                    0 <= j <= count,
                    count == r.end - p + 1,
                    *r == self.runs@[k as int],
                    0 <= k < n,
                    n == self.runs@.len(),
                    ends_valid(self.runs@),
                    p == start_of(self.runs@, k as int),
                    res@.len() == p + j,
                    self@ == decode(self.runs@),
                    forall|i: int| 0 <= i < p + j ==> vstd::pervasive::cloned(self@[i], #[trigger] res@[i]),
                decreases count - j,
            {
                let c = r.value.clone();
                proof {
                    lemma_decode_at(self.runs@, k as int, p + j);
                    assert(vstd::pervasive::strictly_cloned(r.value, c));
                }
                res.push(c);
                j = j + 1;
            }
            p = p + count;
            k = k + 1;
        }
        proof {
            if clone_is_identity::<T>() {
                assert(res@ =~= self@);
            }
        }
        res
    }
}

impl<T> Default for RleVec<T> {
    /// An empty `RleVec`.
    fn default() -> (rle: RleVec<T>)
        ensures
            rle@ == Seq::<T>::empty(),
            rle.run_list() == Seq::<Run<T>>::empty(),
    {
        RleVec::new()
    }
}

impl<T: Clone> Clone for RleVec<T> {
    /// A copy with the same runs, each value cloned.
    #[verifier::spinoff_prover]
    fn clone(&self) -> (c: RleVec<T>)
        ensures
            c.run_list().len() == self.run_list().len(),
            forall|k: int|
                0 <= k < c.run_list().len() ==> {
                    &&& #[trigger] c.run_list()[k].len == self.run_list()[k].len
                    &&& vstd::pervasive::cloned(self.run_list()[k].value, c.run_list()[k].value)
                },
            clone_is_identity::<T>() ==> c.run_list() == self.run_list() && c@ == self@,
    {
        proof {
            use_type_invariant(self);
        }
        let n = self.runs.len();
        let mut runs: Vec<InternalRun<T>> = Vec::with_capacity(n);
        let mut k: usize = 0;
        while k < n
            invariant
                0 <= k <= n,
                n == self.runs@.len(),
                runs@.len() == k,
                forall|q: int|
                    0 <= q < k ==> {
                        &&& #[trigger] runs@[q].end == self.runs@[q].end
                        &&& vstd::pervasive::cloned(self.runs@[q].value, runs@[q].value)
                    },
            decreases n - k,
        {
            let value = self.runs[k].value.clone();
            proof {
                assert(vstd::pervasive::strictly_cloned(self.runs@[k as int].value, value));
            }
            runs.push(InternalRun { end: self.runs[k].end, value });
            k = k + 1;
        }
        proof {
            reveal(ends_valid);
            assert forall|a: int, b: int|
                #![trigger runs@[a].end, runs@[b].end]
                0 <= a < b < runs@.len() implies runs@[a].end < runs@[b].end by {
                assert(self.runs@[a].end < self.runs@[b].end);
            }
            if clone_is_identity::<T>() {
                assert forall|q: int| 0 <= q < n implies #[trigger] runs@[q] == self.runs@[q] by {
                    assert(runs@[q].end == self.runs@[q].end);
                    assert(vstd::pervasive::cloned(self.runs@[q].value, runs@[q].value));
                    if vstd::pervasive::strictly_cloned(self.runs@[q].value, runs@[q].value) {
                        assert(runs@[q].value == self.runs@[q].value);
                    }
                }
                assert(runs@ =~= self.runs@);
            }
            assert forall|q: int|
                0 <= q < n implies #[trigger] start_of(runs@, q) == start_of(self.runs@, q) by {
                if q > 0 {
                    assert(runs@[q - 1].end == self.runs@[q - 1].end);
                }
            }
        }
        RleVec { runs }
    }
}

impl<T: Clone> From<RleVec<T>> for Vec<T> {
    /// The values, cloned into a `Vec`.
    fn from(rle: RleVec<T>) -> (v: Vec<T>)
        ensures
            v@.len() == rle@.len(),
            forall|i: int| 0 <= i < v@.len() ==> vstd::pervasive::cloned(rle@[i], #[trigger] v@[i]),
            clone_is_identity::<T>() ==> v@ == rle@,
    {
        rle.to_vec()
    }
}

impl<T: Clone> vstd::std_specs::convert::FromSpecImpl<RleVec<T>> for Vec<T> {
    open spec fn obeys_from_spec() -> bool {
        false
    }

    open spec fn from_spec(v: RleVec<T>) -> Vec<T> {
        vstd::pervasive::arbitrary()
    }
}

impl<'a, T: Eq + Clone> From<&'a [T]> for RleVec<T> {
    /// The runs of the values of `slice`, in order.
    #[verifier::spinoff_prover]
    fn from(slice: &'a [T]) -> (rle: RleVec<T>)
        ensures
            rle.well_formed(),
            rle@.len() == slice@.len(),
            plain_values::<T>() ==> rle@ == slice@ && rle.is_canonical() && rle.run_list() == encode(
                slice@,
            ),
    {
        if slice.len() == 0 {
            let rle = RleVec::new();
            proof {
                assert(slice@ =~= Seq::<T>::empty());
                assert(crate::run::is_canonical(Seq::<Run<T>>::empty()));
            }
            return rle;
        }
        let ghost s = slice@;
        let mut runs: Vec<InternalRun<T>> = Vec::new();
        let mut last_value = slice[0].clone();
        proof {
            reveal(ends_valid);
            reveal(vstd::laws_eq::obeys_concrete_eq);
            assert(vstd::pervasive::strictly_cloned(s[0], last_value));
            let e = Seq::<InternalRun<T>>::empty();
            lemma_append_one(e, e.push(InternalRun { end: 0, value: last_value }), last_value, false);
            assert(crate::run::is_canonical(abstract_runs(e))) by {
                assert(abstract_runs(e) =~= Seq::<Run<T>>::empty());
            }
            assert(s.take(1) =~= Seq::<T>::empty().push(s[0]));
            lemma_decode_len(e);
            assert(decode(e) =~= Seq::<T>::empty());
        }
        let mut i: usize = 0;
        while i < slice.len() - 1
            invariant
                s == slice@,
                s.len() > 0,
                i < s.len(),
                ends_valid(runs@.push(InternalRun { end: i, value: last_value })),
                coded_len(runs@.push(InternalRun { end: i, value: last_value })) == i + 1,
                plain_values::<T>() ==> {
                    &&& decode(runs@.push(InternalRun { end: i, value: last_value })) == s.take(i + 1)
                    &&& crate::run::is_canonical(
                        abstract_runs(runs@.push(InternalRun { end: i, value: last_value })),
                    )
                },
            decreases s.len() - i,
        {
            let ghost before = runs@.push(InternalRun { end: i, value: last_value });
            let v = &slice[i + 1];
            if *v != last_value {
                runs.push(InternalRun { end: i, value: last_value });
                last_value = v.clone();
                proof {
                    reveal(vstd::laws_eq::obeys_concrete_eq);
                    assert(vstd::pervasive::strictly_cloned(s[i + 1], last_value));
                    let x = InternalRun { end: (i + 1) as usize, value: last_value };
                    let after = runs@.push(x);
                    assert(after == before.push(x));
                    if plain_values::<T>() {
                        lemma_append_one(before, after, last_value, false);
                    } else {
                        lemma_store_push(before, x);
                    }
                }
            } else {
                proof {
                    reveal(vstd::laws_eq::obeys_concrete_eq);
                    let after = runs@.push(InternalRun { end: (i + 1) as usize, value: last_value });
                    assert(after =~= grow_last(before, 1));
                    lemma_append_one(before, after, s[i + 1], true);
                }
            }
            proof {
                assert(s.take(i + 2) =~= s.take(i + 1).push(s[i + 1]));
            }
            i = i + 1;
        }
        runs.push(InternalRun { end: slice.len() - 1, value: last_value });
        proof {
            assert(s.take(s.len() as int) =~= s);
            lemma_decode_len(runs@);
            if plain_values::<T>() {
                lemma_canonical_is_encode(abstract_runs(runs@));
            }
        }
        RleVec { runs }
    }
}

impl<'a, T: Eq + Clone> vstd::std_specs::convert::FromSpecImpl<&'a [T]> for RleVec<T> {
    open spec fn obeys_from_spec() -> bool {
        false
    }

    open spec fn from_spec(v: &'a [T]) -> RleVec<T> {
        vstd::pervasive::arbitrary()
    }
}

/// The error type of `std::io`, which the `Write` impl names.
#[verifier::external_type_specification]
#[verifier::external_body]
pub struct ExIoError(std::io::Error);

/// The bytes of `buf`, in a `Vec`.
fn bytes_of(buf: &[u8]) -> (v: Vec<u8>)
    ensures
        v@ == buf@,
{
    let mut v: Vec<u8> = Vec::with_capacity(buf.len());
    let mut i: usize = 0;
    while i < buf.len()
        invariant
            0 <= i <= buf@.len(),
            v@ == buf@.take(i as int),
        decreases buf@.len() - i,
    {
        v.push(buf[i]);
        i = i + 1;
        proof {
            assert(v@ =~= buf@.take(i as int));
        }
    }
    proof {
        assert(buf@.take(buf@.len() as int) =~= buf@);
    }
    v
}

impl std::io::Write for RleVec<u8> {
    /// Appends all of `buf` and reports its whole length as written.
    fn write(&mut self, buf: &[u8]) -> (r: std::io::Result<usize>)
        requires
            old(self)@.len() + buf@.len() <= usize::MAX,
        ensures
            final(self).well_formed(),
            final(self)@ == old(self)@ + buf@,
            old(self).is_canonical() ==> final(self).is_canonical(),
            r == Ok::<usize, std::io::Error>(buf@.len() as usize),
    {
        proof {
            broadcast use vstd::laws_eq::group_laws_eq;
        }
        self.extend(bytes_of(buf));
        Ok(buf.len())
    }

    /// Appends all of `buf`.
    fn write_all(&mut self, buf: &[u8]) -> (r: std::io::Result<()>)
        requires
            old(self)@.len() + buf@.len() <= usize::MAX,
        ensures
            final(self).well_formed(),
            final(self)@ == old(self)@ + buf@,
            old(self).is_canonical() ==> final(self).is_canonical(),
            r is Ok,
    {
        proof {
            broadcast use vstd::laws_eq::group_laws_eq;
        }
        self.extend(bytes_of(buf));
        Ok(())
    }

    /// Nothing is buffered: nothing changes.
    fn flush(&mut self) -> (r: std::io::Result<()>)
        ensures
            *final(self) == *old(self),
            r is Ok,
    {
        Ok(())
    }
}

} // verus!
