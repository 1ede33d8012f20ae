use vstd::prelude::*;

verus! {

/// A run: `len` consecutive copies of `value`.
#[derive(Debug, Clone, Eq, PartialEq, Ord, PartialOrd, Hash)]
pub struct Run<T> {
    /// The length of this run.
    pub len: usize,
    /// The value of this run.
    pub value: T,
}

/// A clone of a `T` equals the value it was cloned from.
pub open spec fn clone_is_identity<T: Clone>() -> bool {
    forall|a: T, b: T| #[trigger] vstd::pervasive::strictly_cloned(a, b) ==> a == b
}

/// `==` on `T` holds exactly between equal values, and a clone of a `T` is
/// equal to the value it was cloned from (true of the integer types, among
/// others).
pub open spec fn plain_values<T: PartialEq + Clone>() -> bool {
    vstd::laws_eq::obeys_concrete_eq::<T>() && clone_is_identity::<T>()
}

/// The values that a sequence of runs stands for, run after run.
pub open spec fn flatten<T>(runs: Seq<Run<T>>) -> Seq<T>
    decreases runs.len(),
{
    if runs.len() == 0 {
        Seq::empty()
    } else {
        flatten(runs.drop_last()) + Seq::new(runs.last().len as nat, |_j: int| runs.last().value)
    }
}

/// The index, in the flattened sequence, of the first value of run `k`.
pub open spec fn run_offset<T>(runs: Seq<Run<T>>, k: int) -> int {
    flatten(runs.take(k)).len() as int
}

/// No run is empty.
pub open spec fn runs_nonempty<T>(runs: Seq<Run<T>>) -> bool {
    forall|k: int| 0 <= k < runs.len() ==> #[trigger] runs[k].len > 0
}

/// Two runs that follow each other hold different values.
pub open spec fn no_equal_neighbours<T>(runs: Seq<Run<T>>) -> bool {
    forall|a: int, b: int|
        #![trigger runs[a], runs[b]]
        0 <= a && b == a + 1 && b < runs.len() ==> runs[a].value != runs[b].value
}

/// The runs are the shortest coding of what they stand for: none is empty and
/// no two neighbours hold the same value.
pub open spec fn is_canonical<T>(runs: Seq<Run<T>>) -> bool {
    runs_nonempty(runs) && no_equal_neighbours(runs)
}

/// `n` copies of `value`.
pub open spec fn repeat<T>(n: nat, value: T) -> Seq<T> {
    Seq::new(n, |_j: int| value)
}

/// The runs after `n` copies of `value` are appended: the last run grows when
/// it holds `value`, else a new run is added (nothing changes when `n` is 0).
pub open spec fn push_run<T>(runs: Seq<Run<T>>, n: usize, value: T) -> Seq<Run<T>> {
    if n == 0 {
        runs
    } else if runs.len() > 0 && runs.last().value == value {
        runs.update(
            runs.len() - 1,
            Run { len: (runs.last().len + n) as usize, value: runs.last().value },
        )
    } else {
        runs.push(Run { len: n, value })
    }
}

/// Run `k` holds index `i` of the values.
pub open spec fn run_covers<T>(runs: Seq<Run<T>>, k: int, i: int) -> bool {
    0 <= k < runs.len() && run_offset(runs, k) <= i < run_offset(runs, k + 1)
}

/// The run that holds index `i` of the values.
pub open spec fn run_of<T>(runs: Seq<Run<T>>, i: int) -> int {
    choose|k: int| run_covers(runs, k, i)
}

/// A run of `len` copies of `value`.
pub open spec fn run_of_len<T>(len: int, value: T) -> Run<T> {
    Run { len: len as usize, value }
}

/// The runs after the value at `i` is replaced by `value`: nothing changes
/// when it is already there; a run of that one value takes `value` or joins
/// the runs beside it that hold `value`; the first or last value of a longer
/// run joins the run beside it that holds `value`, or becomes a run of its
/// own; a value inside a longer run splits it in three.
pub open spec fn runs_after_set<T>(runs: Seq<Run<T>>, i: int, value: T) -> Seq<Run<T>> {
    let k = run_of(runs, i);
    let r = runs[k];
    let off = run_offset(runs, k);
    let joins_before = k > 0 && runs[k - 1].value == value;
    let joins_after = k + 1 < runs.len() && runs[k + 1].value == value;
    if r.value == value {
        runs
    } else if r.len == 1 {
        if joins_before && joins_after {
            runs.take(k - 1) + seq![run_of_len(runs[k - 1].len + 1 + runs[k + 1].len, value)]
                + runs.skip(k + 2)
        } else if joins_before {
            runs.take(k - 1) + seq![run_of_len(runs[k - 1].len + 1, value)] + runs.skip(k + 1)
        } else if joins_after {
            runs.take(k) + seq![run_of_len(runs[k + 1].len + 1, value)] + runs.skip(k + 2)
        } else {
            runs.update(k, run_of_len(1, value))
        }
    } else if i == off {
        if joins_before {
            runs.take(k - 1) + seq![
                run_of_len(runs[k - 1].len + 1, runs[k - 1].value),
                run_of_len(r.len - 1, r.value),
            ] + runs.skip(k + 1)
        } else {
            runs.take(k) + seq![run_of_len(1, value), run_of_len(r.len - 1, r.value)] + runs.skip(
                k + 1,
            )
        }
    } else if i == off + r.len - 1 {
        if joins_after {
            runs.take(k) + seq![
                run_of_len(r.len - 1, r.value),
                run_of_len(runs[k + 1].len + 1, runs[k + 1].value),
            ] + runs.skip(k + 2)
        } else {
            runs.take(k) + seq![run_of_len(r.len - 1, r.value), run_of_len(1, value)] + runs.skip(
                k + 1,
            )
        }
    } else {
        runs.take(k) + seq![
            run_of_len(i - off, r.value),
            run_of_len(1, value),
            run_of_len(off + r.len - 1 - i, r.value),
        ] + runs.skip(k + 1)
    }
}

/// The runs after `value` is put in at `i`: at the end it is appended; else
/// the run that holds `i` grows when it holds `value`; at the start of a run,
/// the run before grows when it holds `value`, or `value` becomes a run of
/// its own; inside a run, it splits that run in three.
pub open spec fn runs_after_insert<T>(runs: Seq<Run<T>>, i: int, value: T) -> Seq<Run<T>> {
    let k = run_of(runs, i);
    let r = runs[k];
    let off = run_offset(runs, k);
    if i == flatten(runs).len() {
        push_run(runs, 1, value)
    } else if r.value == value {
        runs.update(k, run_of_len(r.len + 1, r.value))
    } else if i == off {
        if k > 0 && runs[k - 1].value == value {
            runs.update(k - 1, run_of_len(runs[k - 1].len + 1, runs[k - 1].value))
        } else {
            runs.insert(k, run_of_len(1, value))
        }
    } else {
        runs.take(k) + seq![
            run_of_len(i - off, r.value),
            run_of_len(1, value),
            run_of_len(off + r.len - i, r.value),
        ] + runs.skip(k + 1)
    }
}

/// The runs after the value at `i` is removed: its run shrinks; a run of
/// that one value goes, and the runs on either side are joined when they
/// hold equal values.
pub open spec fn runs_after_remove<T>(runs: Seq<Run<T>>, i: int) -> Seq<Run<T>> {
    let k = run_of(runs, i);
    let r = runs[k];
    if r.len > 1 {
        runs.update(k, run_of_len(r.len - 1, r.value))
    } else if 0 < k && k + 1 < runs.len() && runs[k - 1].value == runs[k + 1].value {
        runs.take(k - 1) + seq![run_of_len(runs[k - 1].len + runs[k + 1].len, runs[k - 1].value)]
            + runs.skip(k + 2)
    } else {
        runs.remove(k)
    }
}

/// The runs after only the first `n` values are kept: the runs before the
/// one that holds the last kept value, and that one cut short.
pub open spec fn runs_after_truncate<T>(runs: Seq<Run<T>>, n: int) -> Seq<Run<T>> {
    if n == 0 {
        Seq::empty()
    } else {
        let k = run_of(runs, n - 1);
        runs.take(k).push(run_of_len(n - run_offset(runs, k), runs[k].value))
    }
}

/// The runs after the values at `start..end` are removed: a range inside one
/// run shortens it (it goes when nothing of it is left); else the runs
/// between go, and the first and last runs that the range reaches keep what
/// lies outside the range, without being joined.
#[verifier::opaque]
pub open spec fn runs_after_drain<T>(runs: Seq<Run<T>>, start: int, end: int) -> Seq<Run<T>> {
    if start >= end {
        runs
    } else {
        let p = run_of(runs, start);
        let q = run_of(runs, end - 1);
        if p == q {
            let rest = runs[p].len - (end - start);
            if rest > 0 {
                runs.update(p, run_of_len(rest, runs[p].value))
            } else {
                runs.remove(p)
            }
        } else {
            let head = start - run_offset(runs, p);
            let tail = run_offset(runs, q + 1) - end;
            runs.take(p) + (if head > 0 {
                seq![run_of_len(head, runs[p].value)]
            } else {
                Seq::empty()
            }) + (if tail > 0 {
                seq![run_of_len(tail, runs[q].value)]
            } else {
                Seq::empty()
            }) + runs.skip(q + 1)
        }
    }
}

/// The runs after each of `values` is appended in order.
pub open spec fn runs_after_values<T>(runs: Seq<Run<T>>, values: Seq<T>) -> Seq<Run<T>>
    decreases values.len(),
{
    if values.len() == 0 {
        runs
    } else {
        push_run(runs_after_values(runs, values.drop_last()), 1, values.last())
    }
}

/// The runs after each of `added` is appended in order, `len` copies of its value.
pub open spec fn runs_after_runs<T>(runs: Seq<Run<T>>, added: Seq<Run<T>>) -> Seq<Run<T>>
    decreases added.len(),
{
    if added.len() == 0 {
        runs
    } else {
        push_run(runs_after_runs(runs, added.drop_last()), added.last().len, added.last().value)
    }
}

/// There are at least as many values as runs when no run is empty.
pub proof fn lemma_flatten_len_ge<T>(runs: Seq<Run<T>>)
    requires
        runs_nonempty(runs),
    ensures
        runs.len() <= flatten(runs).len(),
    decreases runs.len(),
{
    if runs.len() > 0 {
        let d = runs.drop_last();
        assert(runs_nonempty(d)) by {
            assert forall|k: int| 0 <= k < d.len() implies #[trigger] d[k].len > 0 by {
                assert(d[k] == runs[k]);
            }
        }
        lemma_flatten_len_ge(d);
        assert(runs[runs.len() - 1].len > 0);
    }
}

/// Flattening two sequences of runs one after the other gives the two
/// flattened sequences one after the other.
pub proof fn lemma_flatten_concat<T>(a: Seq<Run<T>>, b: Seq<Run<T>>)
    ensures
        flatten(a + b) == flatten(a) + flatten(b),
    decreases b.len(),
{
    if b.len() == 0 {
        assert(a + b =~= a);
        assert(flatten(a) + flatten(b) =~= flatten(a));
    } else {
        let ab = a + b;
        assert(ab.drop_last() =~= a + b.drop_last());
        assert(ab.last() == b.last());
        lemma_flatten_concat(a, b.drop_last());
        assert(flatten(ab) =~= flatten(a) + flatten(b));
    }
}

/// The length of the flattened sequence is the sum of the run lengths, and it
/// grows with every run.
pub proof fn lemma_flatten_len_prefix<T>(runs: Seq<Run<T>>, k: int)
    requires
        0 <= k < runs.len(),
    ensures
        run_offset(runs, k + 1) == run_offset(runs, k) + runs[k].len,
        run_offset(runs, k + 1) <= flatten(runs).len(),
{
    assert(runs.take(k + 1).drop_last() =~= runs.take(k));
    assert(runs.take(k + 1) + runs.skip(k + 1) =~= runs);
    lemma_flatten_concat(runs.take(k + 1), runs.skip(k + 1));
}

/// Value `j` of run `k` stands at index `run_offset(runs, k) + j` of the
/// flattened sequence.
pub proof fn lemma_flatten_index<T>(runs: Seq<Run<T>>, k: int, j: int)
    requires
        0 <= k < runs.len(),
        0 <= j < runs[k].len,
    ensures
        run_offset(runs, k) + j < flatten(runs).len(),
        flatten(runs)[run_offset(runs, k) + j] == runs[k].value,
{
    let pre = runs.take(k + 1);
    assert(pre.drop_last() =~= runs.take(k));
    assert(pre + runs.skip(k + 1) =~= runs);
    lemma_flatten_concat(pre, runs.skip(k + 1));
    assert(pre.last() == runs[k]);
}


/// A sequence of runs in shortest coding keeps that coding when its last run
/// is dropped.
proof fn lemma_canonical_drop_last<T>(runs: Seq<Run<T>>)
    requires
        is_canonical(runs),
        runs.len() > 0,
    ensures
        is_canonical(runs.drop_last()),
{
    let d = runs.drop_last();
    assert forall|a: int, b: int|
        #![trigger d[a], d[b]]
        0 <= a && b == a + 1 && b < d.len() implies d[a].value != d[b].value by {
        assert(runs[a] == d[a] && runs[b] == d[b]);
    }
    assert forall|k: int| 0 <= k < d.len() implies #[trigger] d[k].len > 0 by {
        assert(runs[k] == d[k]);
    }
}

/// The last value of the flattened sequence is the value of the last run.
proof fn lemma_flatten_last<T>(runs: Seq<Run<T>>)
    requires
        runs.len() > 0,
        runs.last().len > 0,
    ensures
        flatten(runs).len() >= runs.last().len,
        flatten(runs).len() > 0,
        flatten(runs).last() == runs.last().value,
        flatten(runs.drop_last()) == flatten(runs).take(flatten(runs).len() - runs.last().len),
{
    let s = flatten(runs);
    let d = flatten(runs.drop_last());
    assert(s == d + Seq::new(runs.last().len as nat, |_j: int| runs.last().value));
    assert(d =~= s.take(s.len() - runs.last().len));
}

/// The shortest coding of a sequence is unique: two sequences of runs, both
/// in shortest coding, that stand for the same values are the same runs.
pub proof fn lemma_canonical_unique<T>(r1: Seq<Run<T>>, r2: Seq<Run<T>>)
    requires
        is_canonical(r1),
        is_canonical(r2),
        flatten(r1) == flatten(r2),
    ensures
        r1 == r2,
    decreases r1.len(),
{
    let s = flatten(r1);
    if r1.len() == 0 {
        if r2.len() > 0 {
            assert(r2[r2.len() - 1].len > 0);
            lemma_flatten_last(r2);
        }
        assert(r1 =~= r2);
    } else if r2.len() == 0 {
        assert(r1[r1.len() - 1].len > 0);
        lemma_flatten_last(r1);
    } else {
        assert(r1[r1.len() - 1].len > 0);
        assert(r2[r2.len() - 1].len > 0);
        lemma_flatten_last(r1);
        lemma_flatten_last(r2);
        let l1 = r1.last().len;
        let l2 = r2.last().len;
        lemma_last_runs_differ(r1, r2);
        lemma_last_runs_differ(r2, r1);
        assert(r1.last() == r2.last());
        lemma_canonical_drop_last(r1);
        lemma_canonical_drop_last(r2);
        lemma_canonical_unique(r1.drop_last(), r2.drop_last());
        assert(r1 =~= r1.drop_last().push(r1.last()));
        assert(r2 =~= r2.drop_last().push(r2.last()));
    }
}

/// Helper of `lemma_canonical_unique`: in shortest coding, the last run of a
/// sequence cannot be shorter than the last run of another coding of the same
/// values.
proof fn lemma_last_runs_differ<T>(r1: Seq<Run<T>>, r2: Seq<Run<T>>)
    requires
        is_canonical(r1),
        is_canonical(r2),
        flatten(r1) == flatten(r2),
        r1.len() > 0,
        r2.len() > 0,
    ensures
        r1.last().len >= r2.last().len,
{
    if r1.last().len < r2.last().len {
        lemma_last_runs_differ_contra(r1, r2);
    }
}

proof fn lemma_last_runs_differ_contra<T>(r1: Seq<Run<T>>, r2: Seq<Run<T>>)
    requires
        is_canonical(r1),
        is_canonical(r2),
        flatten(r1) == flatten(r2),
        r1.len() > 0,
        r2.len() > 0,
        r1.last().len < r2.last().len,
    ensures
        r1[r1.len() - 2].value == r1[r1.len() - 1].value,
        r1.len() >= 2,
{
    let s = flatten(r1);
    assert(r1[r1.len() - 1].len > 0);
    assert(r2[r2.len() - 1].len > 0);
    lemma_flatten_last(r1);
    lemma_flatten_last(r2);
    let d1 = r1.drop_last();
    let l1 = r1.last().len;
    let p = s.len() - l1 - 1;
    assert(p >= 0);
    // the values before the last run of `r1` are not empty, so `r1` has a second-to-last run
    if d1.len() == 0 {
        assert(flatten(d1).len() == 0);
        assert(false);
    }
    assert(d1[d1.len() - 1] == r1[r1.len() - 2]);
    assert(d1[d1.len() - 1].len > 0);
    lemma_flatten_last(d1);
    assert(flatten(d1).last() == s[p]);
    // in `r2`, index `p` lies in the last run
    let d2 = r2.drop_last();
    let l2 = r2.last().len;
    assert(s == flatten(d2) + Seq::new(l2 as nat, |_j: int| r2.last().value));
    assert(s[p] == r2.last().value);
    assert(s.last() == r1.last().value);
}


/// Appending `n` copies of `value` to the runs appends them to what the runs
/// stand for, and keeps the shortest coding.
pub proof fn lemma_push_run<T>(runs: Seq<Run<T>>, n: usize, value: T)
    requires
        flatten(runs).len() + n <= usize::MAX,
    ensures
        flatten(push_run(runs, n, value)) == flatten(runs) + repeat(n as nat, value),
        is_canonical(runs) ==> is_canonical(push_run(runs, n, value)),
{
    let r = push_run(runs, n, value);
    if n == 0 {
        assert(flatten(runs) + repeat(0, value) =~= flatten(runs));
    } else if runs.len() > 0 && runs.last().value == value {
        let l = runs.last().len;
        let d = runs.drop_last();
        assert(flatten(runs) == flatten(d) + repeat(l as nat, value));
        assert(r.drop_last() =~= d);
        assert(flatten(r) =~= flatten(runs) + repeat(n as nat, value));
        if is_canonical(runs) {
            assert forall|a: int, b: int|
                #![trigger r[a], r[b]]
                0 <= a && b == a + 1 && b < r.len() implies r[a].value != r[b].value by {
                assert(runs[a].value == r[a].value && runs[b].value == r[b].value);
            }
            assert forall|k: int| 0 <= k < r.len() implies #[trigger] r[k].len > 0 by {
                assert(runs[k].len > 0);
            }
        }
    } else {
        assert(r.drop_last() =~= runs);
        assert(flatten(r) =~= flatten(runs) + repeat(n as nat, value));
        if is_canonical(runs) {
            assert forall|a: int, b: int|
                #![trigger r[a], r[b]]
                0 <= a && b == a + 1 && b < r.len() implies r[a].value != r[b].value by {
                if b < runs.len() {
                    assert(runs[a] == r[a] && runs[b] == r[b]);
                } else {
                    assert(runs[a] == r[a]);
                }
            }
            assert forall|k: int| 0 <= k < r.len() implies #[trigger] r[k].len > 0 by {
                if k < runs.len() {
                    assert(runs[k] == r[k]);
                }
            }
        }
    }
}


/// Replacing runs `i..j` by `mid` keeps the shortest coding when `mid` is in
/// shortest coding and its values differ from those of its new neighbours.
pub proof fn lemma_canonical_splice<T>(a: Seq<Run<T>>, i: int, j: int, mid: Seq<Run<T>>)
    requires
        is_canonical(a),
        0 <= i <= j <= a.len(),
        is_canonical(mid),
        mid.len() > 0 && i > 0 ==> a[i - 1].value != mid[0].value,
        mid.len() > 0 && j < a.len() ==> mid[mid.len() - 1].value != a[j].value,
        mid.len() == 0 && i > 0 && j < a.len() ==> a[i - 1].value != a[j].value,
    ensures
        is_canonical(a.take(i) + mid + a.skip(j)),
{
    let r = a.take(i) + mid + a.skip(j);
    let ml = mid.len() as int;
    assert forall|k: int| 0 <= k < r.len() implies #[trigger] r[k].len > 0 by {
        if k < i {
            assert(r[k] == a[k]);
        } else if k < i + ml {
            assert(r[k] == mid[k - i]);
        } else {
            assert(r[k] == a[j + k - i - ml]);
        }
    }
    assert forall|x: int, y: int|
        #![trigger r[x], r[y]]
        0 <= x && y == x + 1 && y < r.len() implies r[x].value != r[y].value by {
        if y < i {
            assert(r[x] == a[x] && r[y] == a[y]);
        } else if y < i + ml {
            assert(r[y] == mid[y - i]);
            if x < i {
                assert(r[x] == a[x]);
            } else {
                assert(r[x] == mid[x - i]);
            }
        } else {
            assert(r[y] == a[j + y - i - ml]);
            if x >= i + ml {
                assert(r[x] == a[j + x - i - ml]);
            } else if x >= i {
                assert(r[x] == mid[x - i]);
            } else {
                assert(r[x] == a[x]);
            }
        }
    }
}

/// What one, two or three runs stand for.
pub proof fn lemma_flatten_small<T>(x: Run<T>, y: Run<T>, z: Run<T>)
    ensures
        flatten(seq![x]) == repeat(x.len as nat, x.value),
        flatten(seq![x, y]) == repeat(x.len as nat, x.value) + repeat(y.len as nat, y.value),
        flatten(seq![x, y, z]) == repeat(x.len as nat, x.value) + repeat(y.len as nat, y.value)
            + repeat(z.len as nat, z.value),
{
    reveal_with_fuel(flatten, 4);
    assert(seq![x].drop_last() =~= Seq::<Run<T>>::empty());
    assert(seq![x, y].drop_last() =~= seq![x]);
    assert(seq![x, y, z].drop_last() =~= seq![x, y]);
    assert(flatten(seq![x]) =~= repeat(x.len as nat, x.value));
}


/// The shortest coding of `s`: each run gathers neighbouring equal values.
pub open spec fn encode<T>(s: Seq<T>) -> Seq<Run<T>>
    decreases s.len(),
{
    if s.len() == 0 {
        Seq::empty()
    } else {
        push_run(encode(s.drop_last()), 1, s.last())
    }
}

/// The shortest coding of `s` stands for `s` and is in shortest coding.
pub proof fn lemma_encode<T>(s: Seq<T>)
    requires
        s.len() <= usize::MAX,
    ensures
        flatten(encode(s)) == s,
        is_canonical(encode(s)),
    decreases s.len(),
{
    if s.len() == 0 {
        assert(flatten(encode(s)) =~= s);
    } else {
        let d = s.drop_last();
        lemma_encode(d);
        lemma_push_run(encode(d), 1, s.last());
        assert(d + repeat(1, s.last()) =~= s);
    }
}

/// Runs in shortest coding are the shortest coding of what they stand for.
pub proof fn lemma_canonical_is_encode<T>(runs: Seq<Run<T>>)
    requires
        is_canonical(runs),
        flatten(runs).len() <= usize::MAX,
    ensures
        runs == encode(flatten(runs)),
{
    lemma_encode(flatten(runs));
    lemma_canonical_unique(runs, encode(flatten(runs)));
}

} // verus!
