use vstd::prelude::*;
use crate::run::{Run, flatten};
use crate::rle_vec::RleVec;
use crate::encoding::{
    start_of, ends_valid, coded_len, covers, lemma_decode_len,
    lemma_decode_at, lemma_start_le_end, lemma_end_ge_index,
};

verus! {

/// An iterator over references to the values of an `RleVec`, from the front
/// and from the back.
pub struct Iter<'a, T: 'a> {
    rle: &'a RleVec<T>,
    run_index: usize,
    index: usize,
    index_back: usize,
    run_index_back: usize,
}

impl<'a, T: 'a> Iter<'a, T> {
    /// The positions lie in the values, `run_index` is the run of the next
    /// value from the front and `run_index_back` the run of the value last
    /// handed out from the back (the last run before any).
    #[verifier::type_invariant]
    closed spec fn iter_inv(self) -> bool {
        let runs = self.rle.runs@;
        &&& ends_valid(runs)
        &&& self.index <= self.index_back <= coded_len(runs)
        &&& self.index < self.index_back ==> covers(runs, self.run_index as int, self.index as int)
        &&& self.index_back < coded_len(runs) ==> covers(
            runs,
            self.run_index_back as int,
            self.index_back as int,
        )
        &&& self.index_back == coded_len(runs) && runs.len() > 0 ==> self.run_index_back == runs.len()
            - 1
    }

    /// The values not handed out yet, in order.
    pub closed spec fn remaining(&self) -> Seq<T> {
        self.rle@.subrange(self.index as int, self.index_back as int)
    }

    /// Hands out the next value from the front.
    #[verifier::spinoff_prover]
    pub fn next(&mut self) -> (r: Option<&'a T>)
        ensures
            match r {
                None => old(self).remaining().len() == 0 && final(self).remaining() == old(
                    self,
                ).remaining(),
                Some(v) => {
                    &&& old(self).remaining().len() > 0
                    &&& *v == old(self).remaining()[0]
                    &&& final(self).remaining() == old(self).remaining().drop_first()
                },
            },
    {
        proof {
            use_type_invariant(&*self);
            self.rle.lemma_reveal();
            lemma_decode_len(self.rle.runs@);
        }
        if self.index == self.index_back {
            return None;
        }
        let rle = self.rle;
        let k = self.run_index;
        let run = &rle.runs[k];
        proof {
            lemma_end_ge_index(rle.runs@, k as int);
            reveal(ends_valid);
        }
        let index = self.index + 1;
        let run_index = if index > run.end {
            k + 1
        } else {
            k
        };
        proof {
            let runs = rle.runs@;
            lemma_decode_at(runs, k as int, self.index as int);
            if index < self.index_back && index > run.end {
                assert(k + 1 < runs.len()) by {
                    if k + 1 >= runs.len() {
                        assert(coded_len(runs) == runs[runs.len() - 1].end + 1);
                    }
                }
                lemma_start_le_end(runs, k + 1);
            }
        }
        *self = Iter {
            rle,
            run_index,
            index,
            index_back: self.index_back,
            run_index_back: self.run_index_back,
        };
        proof {
            assert(self.remaining() =~= old(self).remaining().drop_first());
        }
        Some(&run.value)
    }

    /// Hands out the next value from the back.
    #[verifier::spinoff_prover]
    pub fn next_back(&mut self) -> (r: Option<&'a T>)
        ensures
            match r {
                None => old(self).remaining().len() == 0 && final(self).remaining() == old(
                    self,
                ).remaining(),
                Some(v) => {
                    &&& old(self).remaining().len() > 0
                    &&& *v == old(self).remaining().last()
                    &&& final(self).remaining() == old(self).remaining().drop_last()
                },
            },
    {
        proof {
            use_type_invariant(&*self);
            self.rle.lemma_reveal();
            lemma_decode_len(self.rle.runs@);
        }
        if self.index_back == self.index {
            return None;
        }
        let rle = self.rle;
        let b = self.index_back - 1;
        let mut r = self.run_index_back;
        proof {
            let runs = rle.runs@;
            if self.index_back == coded_len(runs) {
                assert(runs.len() > 0);
                lemma_start_le_end(runs, r as int);
            }
            assert(covers(runs, r as int, b + 1) || (b + 1 == coded_len(runs) && covers(
                runs,
                r as int,
                b as int,
            )));
        }
        if r > 0 && b <= rle.runs[r - 1].end {
            r = r - 1;
            proof {
                lemma_start_le_end(rle.runs@, r as int);
            }
        }
        proof {
            lemma_decode_at(rle.runs@, r as int, b as int);
        }
        *self = Iter {
            rle,
            run_index: self.run_index,
            index: self.index,
            index_back: b,
            run_index_back: r,
        };
        proof {
            assert(self.remaining() =~= old(self).remaining().drop_last());
        }
        Some(&rle.runs[r].value)
    }

    /// Skips `n` values from the front, then hands out the next one.
    #[verifier::spinoff_prover]
    pub fn nth(&mut self, n: usize) -> (r: Option<&'a T>)
        ensures
            n < old(self).remaining().len() ==> {
                &&& r is Some
                &&& *r.unwrap() == old(self).remaining()[n as int]
                &&& final(self).remaining() == old(self).remaining().skip(n + 1)
            },
            n >= old(self).remaining().len() ==> r is None && final(self).remaining().len() == 0,
    {
        proof {
            use_type_invariant(&*self);
            self.rle.lemma_reveal();
            lemma_decode_len(self.rle.runs@);
        }
        let rle = self.rle;
        let index = if n >= self.index_back - self.index {
            self.index_back
        } else {
            self.index + n
        };
        let run_index = if index < self.index_back {
            rle.run_index(index)
        } else {
            self.run_index
        };
        *self = Iter {
            rle,
            run_index,
            index,
            index_back: self.index_back,
            run_index_back: self.run_index_back,
        };
        proof {
            assert(self.remaining() =~= old(self).remaining().skip(
                if n < old(self).remaining().len() {
                    n as int
                } else {
                    old(self).remaining().len() as int
                },
            ));
        }
        let r = self.next();
        proof {
            if n < old(self).remaining().len() {
                assert(final(self).remaining() =~= old(self).remaining().skip(n + 1));
            }
        }
        r
    }

    /// The number of values not handed out yet, as lower and upper bound.
    pub fn size_hint(&self) -> (r: (usize, Option<usize>))
        ensures
            r.0 == self.remaining().len(),
            r.1 == Some(r.0),
    {
        proof {
            use_type_invariant(self);
            self.rle.lemma_reveal();
            lemma_decode_len(self.rle.runs@);
        }
        let len = self.index_back - self.index;
        (len, Some(len))
    }

    /// The number of values not handed out yet.
    pub fn count(self) -> (n: usize)
        ensures
            n == self.remaining().len(),
    {
        proof {
            use_type_invariant(&self);
            self.rle.lemma_reveal();
            lemma_decode_len(self.rle.runs@);
        }
        self.index_back - self.index
    }

    /// The last value not handed out yet.
    pub fn last(self) -> (r: Option<&'a T>)
        ensures
            match r {
                None => self.remaining().len() == 0,
                Some(v) => self.remaining().len() > 0 && *v == self.remaining().last(),
            },
    {
        let mut it = self;
        it.next_back()
    }
}

impl<T> RleVec<T> {
    /// An iterator over the values, in order.
    pub fn iter(&self) -> (it: Iter<'_, T>)
        ensures
            it.remaining() == self@,
    {
        proof {
            use_type_invariant(self);
            self.lemma_reveal();
            lemma_decode_len(self.runs@);
        }
        let n = self.runs.len();
        let run_index_back = if n > 0 {
            n - 1
        } else {
            0
        };
        let it = Iter { rle: self, run_index: 0, index: 0, index_back: self.len(), run_index_back };
        proof {
            if n > 0 {
                lemma_start_le_end(self.runs@, 0);
            }
            assert(it.remaining() =~= self@);
        }
        it
    }

    /// An iterator over the runs, in order.
    pub fn runs(&self) -> (it: Runs<'_, T>)
        ensures
            it.remaining() == self.run_list(),
    {
        proof {
            use_type_invariant(self);
            self.lemma_reveal();
        }
        let it = Runs { rle: self, run_index: 0, last_end: 0 };
        proof {
            assert(it.remaining() =~= self.run_list());
        }
        it
    }
}

/// An iterator over the runs of an `RleVec`, each as a length and a reference
/// to its value.
pub struct Runs<'a, T: 'a> {
    rle: &'a RleVec<T>,
    run_index: usize,
    last_end: usize,
}

impl<'a, T: 'a> Runs<'a, T> {
    /// `last_end` is where the next run starts.
    #[verifier::type_invariant]
    closed spec fn runs_inv(self) -> bool {
        &&& ends_valid(self.rle.runs@)
        &&& self.run_index <= self.rle.runs@.len()
        &&& self.last_end == start_of(self.rle.runs@, self.run_index as int)
    }

    /// The runs not handed out yet, in order.
    pub closed spec fn remaining(&self) -> Seq<Run<T>> {
        self.rle.run_list().skip(self.run_index as int)
    }

    /// Hands out the next run.
    pub fn next(&mut self) -> (r: Option<Run<&'a T>>)
        ensures
            match r {
                None => old(self).remaining().len() == 0 && final(self).remaining() == old(
                    self,
                ).remaining(),
                Some(run) => {
                    &&& old(self).remaining().len() > 0
                    &&& run.len == old(self).remaining()[0].len
                    &&& *run.value == old(self).remaining()[0].value
                    &&& final(self).remaining() == old(self).remaining().drop_first()
                },
            },
    {
        proof {
            use_type_invariant(&*self);
            self.rle.lemma_reveal();
        }
        let rle = self.rle;
        if self.run_index == rle.runs.len() {
            return None;
        }
        let k = self.run_index;
        let run = &rle.runs[k];
        proof {
            lemma_start_le_end(rle.runs@, k as int);
            reveal(ends_valid);
            if k + 1 < rle.runs@.len() {
                assert(rle.runs@[k as int].end < rle.runs@[rle.runs@.len() - 1].end);
            }
        }
        let len = run.end - self.last_end + 1;
        *self = Runs { rle, run_index: k + 1, last_end: run.end + 1 };
        proof {
            assert(self.remaining() =~= old(self).remaining().drop_first());
        }
        Some(Run { len, value: &run.value })
    }

    /// Skips `n` runs, then hands out the next one.
    pub fn nth(&mut self, n: usize) -> (r: Option<Run<&'a T>>)
        ensures
            n < old(self).remaining().len() ==> {
                &&& r is Some
                &&& r.unwrap().len == old(self).remaining()[n as int].len
                &&& *r.unwrap().value == old(self).remaining()[n as int].value
                &&& final(self).remaining() == old(self).remaining().skip(n + 1)
            },
            n >= old(self).remaining().len() ==> r is None && final(self).remaining().len() == 0,
    {
        proof {
            use_type_invariant(&*self);
            self.rle.lemma_reveal();
        }
        let rle = self.rle;
        let count = rle.runs.len();
        let run_index = if n >= count - self.run_index {
            count
        } else {
            self.run_index + n
        };
        proof {
            reveal(ends_valid);
            if run_index > 0 && run_index < count {
                assert(rle.runs@[run_index - 1].end < rle.runs@[count - 1].end);
            }
        }
        let last_end = if run_index != 0 {
            rle.runs[run_index - 1].end + 1
        } else {
            0
        };
        *self = Runs { rle, run_index, last_end };
        proof {
            assert(self.remaining() =~= old(self).remaining().skip(run_index - old(self).run_index));
        }
        let r = self.next();
        proof {
            if n < old(self).remaining().len() {
                assert(final(self).remaining() =~= old(self).remaining().skip(n + 1));
            }
        }
        r
    }

    /// The number of runs not handed out yet, as lower and upper bound.
    pub fn size_hint(&self) -> (r: (usize, Option<usize>))
        ensures
            r.0 == self.remaining().len(),
            r.1 == Some(r.0),
    {
        proof {
            use_type_invariant(self);
            self.rle.lemma_reveal();
        }
        let len = self.rle.runs.len() - self.run_index;
        (len, Some(len))
    }

    /// The number of runs not handed out yet.
    pub fn count(self) -> (n: usize)
        ensures
            n == self.remaining().len(),
    {
        proof {
            use_type_invariant(&self);
            self.rle.lemma_reveal();
        }
        self.rle.runs.len() - self.run_index
    }

    /// The last run not handed out yet.
    pub fn last(self) -> (r: Option<Run<&'a T>>)
        ensures
            match r {
                None => self.remaining().len() == 0,
                Some(run) => {
                    &&& self.remaining().len() > 0
                    &&& run.len == self.remaining().last().len
                    &&& *run.value == self.remaining().last().value
                },
            },
    {
        proof {
            use_type_invariant(&self);
            self.rle.lemma_reveal();
        }
        if self.run_index == self.rle.runs.len() {
            return None;
        }
        self.rle.last_run()
    }
}

/// Step `i` took `out[i]` from the front of `rem[i]`, leaving `rem[i + 1]`.
spec fn took_front<A>(rem: Seq<Seq<A>>, out: Seq<A>, i: int) -> bool {
    &&& rem[i].len() > 0
    &&& out[i] == rem[i][0]
    &&& rem[i + 1] == rem[i].drop_first()
}

/// Step `i` took `out[i]` from the back of `rem[i]`, leaving `rem[i + 1]`.
spec fn took_back<A>(rem: Seq<Seq<A>>, out: Seq<A>, i: int) -> bool {
    &&& rem[i].len() > 0
    &&& out[i] == rem[i].last()
    &&& rem[i + 1] == rem[i].drop_last()
}

/// Taking the first item again and again hands the items out in order.
proof fn lemma_front_in_order<A>(rem: Seq<Seq<A>>, out: Seq<A>)
    requires
        rem.len() == out.len() + 1,
        forall|i: int| 0 <= i < out.len() ==> #[trigger] took_front(rem, out, i),
    ensures
        out.len() <= rem[0].len(),
        out == rem[0].take(out.len() as int),
        rem.last() == rem[0].skip(out.len() as int),
    decreases out.len(),
{
    if out.len() == 0 {
        assert(rem[0].take(0) =~= Seq::<A>::empty());
        assert(rem[0].skip(0) =~= rem[0]);
    } else {
        let n = out.len() - 1;
        let rem2 = rem.drop_last();
        let out2 = out.drop_last();
        assert forall|i: int| 0 <= i < out2.len() implies #[trigger] took_front(rem2, out2, i) by {
            assert(took_front(rem, out, i));
        }
        lemma_front_in_order(rem2, out2);
        assert(took_front(rem, out, n));
        assert(rem[n] == rem[0].skip(n));
        assert(out =~= rem[0].take(n + 1));
        assert(rem.last() =~= rem[0].skip(n + 1));
    }
}

/// Taking the last item again and again hands the items out from the back.
proof fn lemma_back_in_order<A>(rem: Seq<Seq<A>>, out: Seq<A>)
    requires
        rem.len() == out.len() + 1,
        forall|i: int| 0 <= i < out.len() ==> #[trigger] took_back(rem, out, i),
    ensures
        out.len() <= rem[0].len(),
        out == rem[0].skip(rem[0].len() - out.len()).reverse(),
        rem.last() == rem[0].take(rem[0].len() - out.len()),
    decreases out.len(),
{
    if out.len() == 0 {
        assert(rem[0].take(rem[0].len() as int) =~= rem[0]);
        assert(out =~= rem[0].skip(rem[0].len() as int).reverse());
    } else {
        let n = out.len() - 1;
        let rem2 = rem.drop_last();
        let out2 = out.drop_last();
        assert forall|i: int| 0 <= i < out2.len() implies #[trigger] took_back(rem2, out2, i) by {
            assert(took_back(rem, out, i));
        }
        lemma_back_in_order(rem2, out2);
        assert(took_back(rem, out, n));
        let len0 = rem[0].len() as int;
        assert(rem[n] == rem[0].take(len0 - n));
        let back = rem[0].skip(len0 - (n + 1)).reverse();
        assert forall|j: int| 0 <= j < out.len() implies out[j] == back[j] by {
            if j < n {
                assert(out[j] == out2[j]);
                assert(out2[j] == rem[0].skip(len0 - n).reverse()[j]);
            }
        }
        assert(out =~= back);
        assert(rem.last() =~= rem[0].take(len0 - (n + 1)));
    }
}

/// Calling `Iter::next` over and over hands out the values of an `RleVec` in
/// order. `steps[0]` is the iterator that `RleVec::iter` gave, `steps[i + 1]`
/// the iterator after the call on `steps[i]`, and `out[i]` the value that
/// call handed out: the values handed out are the first ones of the
/// `RleVec`, the iterator still holds the rest, and it hands out `None` only
/// once every value was handed out.
pub proof fn lemma_iter_next_in_order<'a, T>(rle: RleVec<T>, steps: Seq<Iter<'a, T>>, out: Seq<T>)
    requires
        steps.len() == out.len() + 1,
        steps[0].remaining() == rle@,
        forall|i: int|
            #![trigger out[i]]
            0 <= i < out.len() ==> {
                &&& steps[i].remaining().len() > 0
                &&& out[i] == steps[i].remaining()[0]
                &&& steps[i + 1].remaining() == steps[i].remaining().drop_first()
            },
    ensures
        out.len() <= rle@.len(),
        out == rle@.take(out.len() as int),
        steps.last().remaining() == rle@.skip(out.len() as int),
        steps.last().remaining().len() == 0 <==> out == rle@,
{
    let rem = Seq::new(steps.len(), |i: int| steps[i].remaining());
    assert forall|i: int| 0 <= i < out.len() implies #[trigger] took_front(rem, out, i) by {
        assert(out[i] == steps[i].remaining()[0]);
    }
    lemma_front_in_order(rem, out);
    assert(rem.last() == steps.last().remaining());
    assert(out.len() == rle@.len() ==> rle@.take(out.len() as int) =~= rle@);
}

/// Calling `Iter::next_back` over and over hands out the values of an `RleVec`
/// from the last to the first. `steps[0]` is the iterator that `RleVec::iter`
/// gave, `steps[i + 1]` the iterator after the call on `steps[i]`, and
/// `out[i]` the value that call handed out: `out` is the end of the values,
/// reversed, and the iterator still holds the values before it.
pub proof fn lemma_iter_next_back_in_order<'a, T>(
    rle: RleVec<T>,
    steps: Seq<Iter<'a, T>>,
    out: Seq<T>,
)
    requires
        steps.len() == out.len() + 1,
        steps[0].remaining() == rle@,
        forall|i: int|
            #![trigger out[i]]
            0 <= i < out.len() ==> {
                &&& steps[i].remaining().len() > 0
                &&& out[i] == steps[i].remaining().last()
                &&& steps[i + 1].remaining() == steps[i].remaining().drop_last()
            },
    ensures
        out.len() <= rle@.len(),
        out == rle@.skip(rle@.len() - out.len()).reverse(),
        steps.last().remaining() == rle@.take(rle@.len() - out.len()),
{
    let rem = Seq::new(steps.len(), |i: int| steps[i].remaining());
    assert forall|i: int| 0 <= i < out.len() implies #[trigger] took_back(rem, out, i) by {
        assert(out[i] == steps[i].remaining().last());
    }
    lemma_back_in_order(rem, out);
    assert(rem.last() == steps.last().remaining());
}

/// Calling `Runs::next` over and over hands out the runs of an `RleVec` in
/// order. `steps[0]` is the iterator that `RleVec::runs` gave, `steps[i + 1]`
/// the iterator after the call on `steps[i]`, and `out[i]` the run that call
/// handed out (its length and its value): each run holds at least one value,
/// the runs handed out are the first runs of the `RleVec`, and once every run
/// was handed out, repeating each value as often as its length gives the
/// values of the `RleVec`.
pub proof fn lemma_runs_next_in_order<'a, T>(
    rle: RleVec<T>,
    steps: Seq<Runs<'a, T>>,
    out: Seq<Run<T>>,
)
    requires
        rle.well_formed(),
        steps.len() == out.len() + 1,
        steps[0].remaining() == rle.run_list(),
        forall|i: int|
            #![trigger out[i]]
            0 <= i < out.len() ==> {
                &&& steps[i].remaining().len() > 0
                &&& out[i].len == steps[i].remaining()[0].len
                &&& out[i].value == steps[i].remaining()[0].value
                &&& steps[i + 1].remaining() == steps[i].remaining().drop_first()
            },
    ensures
        out.len() <= rle.run_list().len(),
        forall|i: int| 0 <= i < out.len() ==> #[trigger] out[i].len >= 1,
        out == rle.run_list().take(out.len() as int),
        steps.last().remaining() == rle.run_list().skip(out.len() as int),
        steps.last().remaining().len() == 0 ==> flatten(out) == rle@,
{
    let rem = Seq::new(steps.len(), |i: int| steps[i].remaining());
    assert forall|i: int| 0 <= i < out.len() implies #[trigger] took_front(rem, out, i) by {
        assert(out[i].len == steps[i].remaining()[0].len);
    }
    lemma_front_in_order(rem, out);
    assert(rem.last() == steps.last().remaining());
    rle.lemma_well_formed();
    let rl = rle.run_list();
    assert forall|i: int| 0 <= i < out.len() implies #[trigger] out[i].len >= 1 by {
        assert(out[i] == rl[i]);
    }
    if steps.last().remaining().len() == 0 {
        assert(rl.take(out.len() as int) =~= rl);
    }
}

} // verus!
