use vstd::prelude::*;
use crate::run::{
    Run, flatten, run_offset, run_covers, run_of, runs_nonempty, lemma_flatten_index, lemma_flatten_len_prefix,
    lemma_flatten_concat,
};

verus! {

/// A run as it is stored: its value and the index of its last element.
#[derive(Debug, Clone, Eq, PartialEq, Ord, PartialOrd, Hash)]
pub(crate) struct InternalRun<T> {
    pub(crate) end: usize,
    pub(crate) value: T,
}

/// Index of the first element of stored run `k`: one past the end of the run before.
pub(crate) open spec fn start_of<T>(runs: Seq<InternalRun<T>>, k: int) -> int {
    if k <= 0 {
        0
    } else {
        runs[k - 1].end + 1
    }
}

/// The stored ends strictly increase, and one past the last end fits in a `usize`.
#[verifier::opaque]
pub(crate) open spec fn ends_valid<T>(runs: Seq<InternalRun<T>>) -> bool {
    &&& forall|a: int, b: int|
        #![trigger runs[a].end, runs[b].end]
        0 <= a < b < runs.len() ==> runs[a].end < runs[b].end
    &&& runs.len() > 0 ==> runs[runs.len() - 1].end < usize::MAX
}

/// Number of values that the stored runs stand for.
pub(crate) open spec fn coded_len<T>(runs: Seq<InternalRun<T>>) -> int {
    start_of(runs, runs.len() as int)
}

/// Stored run `k` covers index `i`.
pub(crate) open spec fn covers<T>(runs: Seq<InternalRun<T>>, k: int, i: int) -> bool {
    0 <= k < runs.len() && start_of(runs, k) <= i <= runs[k].end
}

/// The stored runs seen as runs of a length and a value.
pub(crate) open spec fn abstract_runs<T>(runs: Seq<InternalRun<T>>) -> Seq<Run<T>> {
    Seq::new(
        runs.len(),
        |k: int| Run { len: (runs[k].end - start_of(runs, k) + 1) as usize, value: runs[k].value },
    )
}

/// The values that the stored runs stand for.
pub(crate) open spec fn decode<T>(runs: Seq<InternalRun<T>>) -> Seq<T> {
    flatten(abstract_runs(runs))
}

/// The ends of two stored runs are in the order of the runs.
pub(crate) proof fn lemma_ends_lt<T>(runs: Seq<InternalRun<T>>, a: int, b: int)
    requires
        ends_valid(runs),
        0 <= a < b < runs.len(),
    ensures
        runs[a].end < runs[b].end,
        runs[b].end < usize::MAX,
{
    reveal(ends_valid);
    if b < runs.len() - 1 {
        assert(runs[b].end < runs[runs.len() - 1].end);
    }
}

/// Every stored run starts at or before its end.
pub(crate) proof fn lemma_start_le_end<T>(runs: Seq<InternalRun<T>>, k: int)
    requires
        ends_valid(runs),
        0 <= k < runs.len(),
    ensures
        start_of(runs, k) <= runs[k].end,
        abstract_runs(runs)[k].len == runs[k].end - start_of(runs, k) + 1,
{
    reveal(ends_valid);
    if k > 0 {
        assert(runs[k - 1].end < runs[k].end);
    }
}

/// At most one stored run covers an index.
pub(crate) proof fn lemma_covers_unique<T>(runs: Seq<InternalRun<T>>, a: int, b: int, i: int)
    requires
        ends_valid(runs),
        covers(runs, a, i),
        covers(runs, b, i),
    ensures
        a == b,
{
    reveal(ends_valid);
    if a < b {
        assert(runs[a].end <= runs[b - 1].end);
    } else if b < a {
        assert(runs[b].end <= runs[a - 1].end);
    }
}

/// The abstract runs start where the stored ones do.
#[verifier::spinoff_prover]
pub(crate) proof fn lemma_offsets<T>(runs: Seq<InternalRun<T>>, k: int)
    requires
        ends_valid(runs),
        0 <= k <= runs.len(),
    ensures
        run_offset(abstract_runs(runs), k) == start_of(runs, k),
    decreases k,
{
    let a = abstract_runs(runs);
    if k == 0 {
        assert(a.take(0) =~= Seq::<Run<T>>::empty());
    } else {
        lemma_offsets(runs, k - 1);
        lemma_start_le_end(runs, k - 1);
        lemma_flatten_len_prefix(a, k - 1);
    }
}

/// The abstract run that holds index `i` is the stored run that covers it,
/// and it starts and ends where that one does.
pub(crate) proof fn lemma_run_of<T>(runs: Seq<InternalRun<T>>, p: int, i: int)
    requires
        ends_valid(runs),
        covers(runs, p, i),
    ensures
        run_covers(abstract_runs(runs), p, i),
        run_of(abstract_runs(runs), i) == p,
        run_offset(abstract_runs(runs), p) == start_of(runs, p),
        run_offset(abstract_runs(runs), p + 1) == runs[p].end + 1,
        abstract_runs(runs)[p].len == runs[p].end - start_of(runs, p) + 1,
        abstract_runs(runs)[p].value == runs[p].value,
{
    let a = abstract_runs(runs);
    lemma_offsets(runs, p);
    lemma_offsets(runs, p + 1);
    lemma_start_le_end(runs, p);
    assert(run_covers(a, p, i));
    let k = run_of(a, i);
    lemma_offsets(runs, k);
    lemma_offsets(runs, k + 1);
    lemma_covers_unique(runs, k, p, i);
}

/// The stored runs stand for `coded_len` values, and no abstract run is empty.
#[verifier::spinoff_prover]
pub(crate) proof fn lemma_decode_len<T>(runs: Seq<InternalRun<T>>)
    requires
        ends_valid(runs),
    ensures
        decode(runs).len() == coded_len(runs),
        runs_nonempty(abstract_runs(runs)),
        coded_len(runs) <= usize::MAX,
{
    reveal(ends_valid);
    let a = abstract_runs(runs);
    lemma_offsets(runs, runs.len() as int);
    assert(a.take(runs.len() as int) =~= a);
    assert forall|k: int| 0 <= k < a.len() implies #[trigger] a[k].len > 0 by {
        lemma_start_le_end(runs, k);
    }
}

/// The value at index `i` is the value of the stored run that covers `i`.
#[verifier::spinoff_prover]
pub(crate) proof fn lemma_decode_at<T>(runs: Seq<InternalRun<T>>, k: int, i: int)
    requires
        ends_valid(runs),
        covers(runs, k, i),
    ensures
        0 <= i < decode(runs).len(),
        decode(runs)[i] == runs[k].value,
{
    lemma_offsets(runs, k);
    lemma_start_le_end(runs, k);
    lemma_flatten_index(abstract_runs(runs), k, i - start_of(runs, k));
}

/// The stored runs with every end moved by `d`.
pub(crate) open spec fn shift_ends<T>(runs: Seq<InternalRun<T>>, d: int) -> Seq<InternalRun<T>> {
    Seq::new(runs.len(), |k: int| InternalRun { end: (runs[k].end + d) as usize, value: runs[k].value })
}

/// Stored runs `m`, the first of which starts at `s`, seen as runs of a length
/// and a value.
pub(crate) open spec fn mid_runs<T>(m: Seq<InternalRun<T>>, s: int) -> Seq<Run<T>> {
    Seq::new(
        m.len(),
        |k: int|
            Run {
                len: (m[k].end - (if k == 0 {
                    s
                } else {
                    m[k - 1].end + 1
                }) + 1) as usize,
                value: m[k].value,
            },
    )
}

/// Stored runs `i..j` replaced by `m`, and the runs from `j` on moved by `d`.
pub(crate) open spec fn splice<T>(
    o: Seq<InternalRun<T>>,
    i: int,
    j: int,
    m: Seq<InternalRun<T>>,
    d: int,
) -> Seq<InternalRun<T>> {
    o.take(i) + m + shift_ends(o.skip(j), d)
}

/// `m` ends right before the (moved) run `j`, and the moved ends stay in range.
pub(crate) open spec fn splice_fits<T>(
    o: Seq<InternalRun<T>>,
    i: int,
    j: int,
    m: Seq<InternalRun<T>>,
    d: int,
) -> bool {
    &&& 0 <= i <= j <= o.len()
    &&& (if m.len() > 0 {
        m.last().end + 1
    } else {
        start_of(o, i)
    }) == start_of(o, j) + d
    &&& j < o.len() ==> 0 <= o[j].end + d && o[o.len() - 1].end + d < usize::MAX
}

/// Replacing stored runs `i..j` by `m`, where `m` ends right before the
/// (moved) run `j`, leaves the other abstract runs as they were.
#[verifier::spinoff_prover]
pub(crate) proof fn lemma_abstract_splice<T>(
    o: Seq<InternalRun<T>>,
    i: int,
    j: int,
    m: Seq<InternalRun<T>>,
    d: int,
)
    requires
        ends_valid(o),
        0 <= i <= j <= o.len(),
        splice_fits(o, i, j, m, d),
        ends_valid(splice(o, i, j, m, d)),
    ensures
        abstract_runs(splice(o, i, j, m, d)) == abstract_runs(o).take(i) + mid_runs(m, start_of(o, i))
            + abstract_runs(o).skip(j),
{
    let n = splice(o, i, j, m, d);
    let a = abstract_runs(o);
    let an = abstract_runs(n);
    let rhs = a.take(i) + mid_runs(m, start_of(o, i)) + a.skip(j);
    let ml = m.len() as int;
    assert(n.len() == i + ml + (o.len() - j));
    assert forall|k: int| 0 <= k < n.len() implies #[trigger] an[k] == rhs[k] by {
        if k < i {
            assert(n[k] == o[k]);
            if k > 0 {
                assert(n[k - 1] == o[k - 1]);
            }
        } else if k < i + ml {
            assert(n[k] == m[k - i]);
            if k == i {
                if k > 0 {
                    assert(n[k - 1] == o[k - 1]);
                }
            } else {
                assert(n[k - 1] == m[k - i - 1]);
            }
        } else {
            let q = j + k - i - ml;
            if q < o.len() - 1 {
                lemma_ends_lt(o, q, o.len() - 1);
            }
            if j < q {
                lemma_ends_lt(o, j, q);
            }
            assert(n[k].end == o[q].end + d);
            assert(n[k].value == o[q].value);
            if k == i + ml {
                if ml > 0 {
                    assert(n[k - 1] == m[ml - 1]);
                } else if k > 0 {
                    assert(n[k - 1] == o[k - 1]);
                }
            } else {
                lemma_ends_lt(o, q - 1, q);
                if j < q - 1 {
                    lemma_ends_lt(o, j, q - 1);
                }
                assert(n[k - 1].end == o[q - 1].end + d);
            }
            lemma_start_le_end(o, q);
        }
    }
    assert(an =~= rhs);
}

/// What a sequence of runs stands for, cut in three: before run `i`, runs
/// `i..j`, and from run `j` on.
pub(crate) proof fn lemma_flatten_three<T>(a: Seq<Run<T>>, i: int, j: int)
    requires
        0 <= i <= j <= a.len(),
    ensures
        flatten(a) == flatten(a.take(i)) + flatten(a.subrange(i, j)) + flatten(a.skip(j)),
{
    assert(a =~= a.take(i) + a.subrange(i, j) + a.skip(j));
    lemma_flatten_concat(a.take(i) + a.subrange(i, j), a.skip(j));
    lemma_flatten_concat(a.take(i), a.subrange(i, j));
}


/// Replacing stored runs `i..j` by `m` (strictly increasing ends, ending right
/// before the moved run `j`) keeps the ends valid.
#[verifier::spinoff_prover]
pub(crate) proof fn lemma_splice_valid<T>(
    o: Seq<InternalRun<T>>,
    i: int,
    j: int,
    m: Seq<InternalRun<T>>,
    d: int,
)
    requires
        ends_valid(o),
        0 <= i <= j <= o.len(),
        forall|a: int, b: int|
            #![trigger m[a].end, m[b].end]
            0 <= a < b < m.len() ==> m[a].end < m[b].end,
        i > 0 && m.len() > 0 ==> o[i - 1].end < m[0].end,
        splice_fits(o, i, j, m, d),
        j == o.len() && m.len() > 0 ==> m.last().end < usize::MAX,
    ensures
        ends_valid(splice(o, i, j, m, d)),
{
    reveal(ends_valid);
    let n = splice(o, i, j, m, d);
    let ml = m.len() as int;
    assert forall|a: int, b: int|
        #![trigger n[a].end, n[b].end]
        0 <= a < b < n.len() implies n[a].end < n[b].end by {
        if b < i {
            assert(n[a] == o[a] && n[b] == o[b]);
        } else if b < i + ml {
            if a < i {
                assert(n[a] == o[a]);
                if a < i - 1 {
                    assert(o[a].end < o[i - 1].end);
                }
                if b - i > 0 {
                    assert(m[0].end < m[b - i].end);
                }
            } else {
                assert(n[a] == m[a - i] && n[b] == m[b - i]);
            }
        } else {
            let qb = j + b - i - ml;
            assert(n[b].end == o[qb].end + d) by {
                assert(o[qb].end <= o[o.len() - 1].end) by {
                    if qb < o.len() - 1 {
                        assert(o[qb].end < o[o.len() - 1].end);
                    }
                }
                assert(o[j].end <= o[qb].end) by {
                    if j < qb {
                        assert(o[j].end < o[qb].end);
                    }
                }
            }
            lemma_start_le_end(o, qb);
            assert(start_of(o, j) <= start_of(o, qb)) by {
                if j < qb && j > 0 {
                    assert(o[j - 1].end < o[qb - 1].end);
                }
            }
            if a >= i + ml {
                let qa = j + a - i - ml;
                assert(o[qa].end < o[qb].end);
                assert(n[a].end == o[qa].end + d) by {
                    assert(o[j].end <= o[qa].end) by {
                        if j < qa {
                            assert(o[j].end < o[qa].end);
                        }
                    }
                }
            } else if a >= i {
                assert(n[a] == m[a - i]);
                if a - i < ml - 1 {
                    assert(m[a - i].end < m[ml - 1].end);
                }
            } else {
                assert(n[a] == o[a]);
                if a < i - 1 {
                    assert(o[a].end < o[i - 1].end);
                }
                if ml > 1 {
                    assert(m[0].end < m[ml - 1].end);
                }
                if ml == 0 {
                    assert(o[i - 1].end + 1 == start_of(o, j) + d);
                }
            }
        }
    }
    if n.len() > 0 {
        if j < o.len() {
            assert(n[n.len() - 1].end == o[o.len() - 1].end + d);
        } else if ml > 0 {
            assert(n[n.len() - 1] == m[ml - 1]);
        } else {
            assert(n[n.len() - 1] == o[i - 1]);
            assert(o[i - 1].end < o[o.len() - 1].end || i - 1 == o.len() - 1);
        }
    }
}

/// Replacing stored runs `i..j` by `m` changes the number of values by `d`.
#[verifier::spinoff_prover]
pub(crate) proof fn lemma_splice_len<T>(
    o: Seq<InternalRun<T>>,
    i: int,
    j: int,
    m: Seq<InternalRun<T>>,
    d: int,
)
    requires
        ends_valid(o),
        splice_fits(o, i, j, m, d),
    ensures
        coded_len(splice(o, i, j, m, d)) == coded_len(o) + d,
{
    reveal(ends_valid);
    let n = splice(o, i, j, m, d);
    let ml = m.len() as int;
    if n.len() > 0 {
        if j < o.len() {
            assert(n[n.len() - 1] == shift_ends(o.skip(j), d)[o.len() - j - 1]);
            if j < o.len() - 1 {
                assert(o[j].end < o[o.len() - 1].end);
            }
        } else if ml > 0 {
            assert(n[n.len() - 1] == m[ml - 1]);
        } else {
            assert(n[n.len() - 1] == o[i - 1]);
        }
    }
}

/// Replacing stored runs `i..j` by `m` (strictly increasing ends, ending right
/// before the moved run `j`) keeps the ends valid and leaves the values before
/// and after the replaced part as they were.
#[verifier::spinoff_prover]
#[verifier::rlimit(40)]
pub(crate) proof fn lemma_splice<T>(
    o: Seq<InternalRun<T>>,
    i: int,
    j: int,
    m: Seq<InternalRun<T>>,
    d: int,
)
    requires
        ends_valid(o),
        0 <= i <= j <= o.len(),
        forall|a: int, b: int|
            #![trigger m[a].end, m[b].end]
            0 <= a < b < m.len() ==> m[a].end < m[b].end,
        i > 0 && m.len() > 0 ==> o[i - 1].end < m[0].end,
        splice_fits(o, i, j, m, d),
        j == o.len() && m.len() > 0 ==> m.last().end < usize::MAX,
    ensures
        ends_valid(splice(o, i, j, m, d)),
        abstract_runs(splice(o, i, j, m, d)) == abstract_runs(o).take(i) + mid_runs(m, start_of(o, i))
            + abstract_runs(o).skip(j),
        decode(splice(o, i, j, m, d)) == flatten(abstract_runs(o).take(i)) + flatten(
            mid_runs(m, start_of(o, i)),
        ) + flatten(abstract_runs(o).skip(j)),
        decode(o) == flatten(abstract_runs(o).take(i)) + flatten(abstract_runs(o).subrange(i, j))
            + flatten(abstract_runs(o).skip(j)),
        flatten(abstract_runs(o).take(i)).len() == start_of(o, i),
        flatten(abstract_runs(o).subrange(i, j)).len() == start_of(o, j) - start_of(o, i),
        coded_len(splice(o, i, j, m, d)) == coded_len(o) + d,
        decode(splice(o, i, j, m, d)).len() == coded_len(o) + d,
{
    let n = splice(o, i, j, m, d);
    lemma_splice_valid(o, i, j, m, d);
    lemma_splice_len(o, i, j, m, d);
    lemma_abstract_splice(o, i, j, m, d);
    let a = abstract_runs(o);
    lemma_flatten_concat(a.take(i) + mid_runs(m, start_of(o, i)), a.skip(j));
    lemma_flatten_concat(a.take(i), mid_runs(m, start_of(o, i)));
    lemma_flatten_three(a, i, j);
    lemma_offsets(o, i);
    lemma_offsets(o, j);
    assert(a.take(j) =~= a.take(i) + a.subrange(i, j));
    lemma_flatten_concat(a.take(i), a.subrange(i, j));
    lemma_decode_len(n);
}


/// Every stored run ends at or after its own index.
pub(crate) proof fn lemma_end_ge_index<T>(runs: Seq<InternalRun<T>>, k: int)
    requires
        ends_valid(runs),
        0 <= k < runs.len(),
    ensures
        runs[k].end >= k,
        start_of(runs, k) >= k,
    decreases k,
{
    reveal(ends_valid);
    if k > 0 {
        lemma_end_ge_index(runs, k - 1);
        assert(runs[k - 1].end < runs[k].end);
    }
}

/// When the replacing runs stand for the replaced values with the value at
/// `index` changed, the whole coding does too.
#[verifier::spinoff_prover]
pub(crate) proof fn lemma_splice_update<T>(
    o: Seq<InternalRun<T>>,
    i: int,
    j: int,
    m: Seq<InternalRun<T>>,
    index: int,
    value: T,
)
    requires
        ends_valid(o),
        0 <= i < j <= o.len(),
        ends_valid(splice(o, i, j, m, 0)),
        decode(splice(o, i, j, m, 0)) == flatten(abstract_runs(o).take(i)) + flatten(
            mid_runs(m, start_of(o, i)),
        ) + flatten(abstract_runs(o).skip(j)),
        decode(o) == flatten(abstract_runs(o).take(i)) + flatten(abstract_runs(o).subrange(i, j))
            + flatten(abstract_runs(o).skip(j)),
        flatten(abstract_runs(o).take(i)).len() == start_of(o, i),
        flatten(abstract_runs(o).subrange(i, j)).len() == start_of(o, j) - start_of(o, i),
        start_of(o, i) <= index < start_of(o, j),
        flatten(mid_runs(m, start_of(o, i))) == flatten(abstract_runs(o).subrange(i, j)).update(
            index - start_of(o, i),
            value,
        ),
    ensures
        decode(splice(o, i, j, m, 0)) == decode(o).update(index, value),
{
    assert(decode(splice(o, i, j, m, 0)) =~= decode(o).update(index, value));
}


/// When the replacing runs stand for the replaced values with `value` put in
/// at `index`, the whole coding does too.
#[verifier::spinoff_prover]
pub(crate) proof fn lemma_splice_insert<T>(
    o: Seq<InternalRun<T>>,
    i: int,
    j: int,
    m: Seq<InternalRun<T>>,
    index: int,
    value: T,
)
    requires
        ends_valid(o),
        0 <= i < j <= o.len(),
        decode(splice(o, i, j, m, 1)) == flatten(abstract_runs(o).take(i)) + flatten(
            mid_runs(m, start_of(o, i)),
        ) + flatten(abstract_runs(o).skip(j)),
        decode(o) == flatten(abstract_runs(o).take(i)) + flatten(abstract_runs(o).subrange(i, j))
            + flatten(abstract_runs(o).skip(j)),
        flatten(abstract_runs(o).take(i)).len() == start_of(o, i),
        flatten(abstract_runs(o).subrange(i, j)).len() == start_of(o, j) - start_of(o, i),
        start_of(o, i) <= index <= start_of(o, j),
        flatten(mid_runs(m, start_of(o, i))) == flatten(abstract_runs(o).subrange(i, j)).insert(
            index - start_of(o, i),
            value,
        ),
    ensures
        decode(splice(o, i, j, m, 1)) == decode(o).insert(index, value),
{
    assert(decode(splice(o, i, j, m, 1)) =~= decode(o).insert(index, value));
}

/// When the replacing runs stand for the replaced values without the one at
/// `index`, the whole coding does too.
#[verifier::spinoff_prover]
pub(crate) proof fn lemma_splice_remove<T>(
    o: Seq<InternalRun<T>>,
    i: int,
    j: int,
    m: Seq<InternalRun<T>>,
    index: int,
)
    requires
        ends_valid(o),
        0 <= i < j <= o.len(),
        decode(splice(o, i, j, m, -1)) == flatten(abstract_runs(o).take(i)) + flatten(
            mid_runs(m, start_of(o, i)),
        ) + flatten(abstract_runs(o).skip(j)),
        decode(o) == flatten(abstract_runs(o).take(i)) + flatten(abstract_runs(o).subrange(i, j))
            + flatten(abstract_runs(o).skip(j)),
        flatten(abstract_runs(o).take(i)).len() == start_of(o, i),
        flatten(abstract_runs(o).subrange(i, j)).len() == start_of(o, j) - start_of(o, i),
        start_of(o, i) <= index < start_of(o, j),
        flatten(mid_runs(m, start_of(o, i))) == flatten(abstract_runs(o).subrange(i, j)).remove(
            index - start_of(o, i),
        ),
    ensures
        decode(splice(o, i, j, m, -1)) == decode(o).remove(index),
{
    assert(decode(splice(o, i, j, m, -1)) =~= decode(o).remove(index));
}


/// Moving the ends of the runs from `p` on is replacing run `p` by itself moved.
pub(crate) proof fn lemma_shifted_as_splice<T>(o: Seq<InternalRun<T>>, p: int, d: int)
    requires
        0 <= p < o.len(),
    ensures
        o.take(p) + shift_ends(o.skip(p), d) == splice(
            o,
            p,
            p + 1,
            seq![InternalRun { end: (o[p].end + d) as usize, value: o[p].value }],
            d,
        ),
{
    let r = splice(o, p, p + 1, seq![InternalRun { end: (o[p].end + d) as usize, value: o[p].value }], d);
    assert(o.take(p) + shift_ends(o.skip(p), d) =~= r);
}

/// Putting a run in among the replacing runs.
pub(crate) proof fn lemma_splice_insert_mid<T>(
    o: Seq<InternalRun<T>>,
    i: int,
    j: int,
    m: Seq<InternalRun<T>>,
    d: int,
    k: int,
    y: InternalRun<T>,
)
    requires
        0 <= i <= j <= o.len(),
        0 <= k <= m.len(),
    ensures
        splice(o, i, j, m, d).insert(i + k, y) == splice(o, i, j, m.insert(k, y), d),
{
    assert(splice(o, i, j, m, d).insert(i + k, y) =~= splice(o, i, j, m.insert(k, y), d));
}

/// Changing one of the replacing runs.
pub(crate) proof fn lemma_splice_update_mid<T>(
    o: Seq<InternalRun<T>>,
    i: int,
    j: int,
    m: Seq<InternalRun<T>>,
    d: int,
    k: int,
    y: InternalRun<T>,
)
    requires
        0 <= i <= j <= o.len(),
        0 <= k < m.len(),
    ensures
        splice(o, i, j, m, d).update(i + k, y) == splice(o, i, j, m.update(k, y), d),
{
    assert(splice(o, i, j, m, d).update(i + k, y) =~= splice(o, i, j, m.update(k, y), d));
}

/// Changing the run right before the replaced ones makes it one of them.
pub(crate) proof fn lemma_splice_update_before<T>(
    o: Seq<InternalRun<T>>,
    i: int,
    j: int,
    m: Seq<InternalRun<T>>,
    d: int,
    y: InternalRun<T>,
)
    requires
        0 < i <= j <= o.len(),
    ensures
        splice(o, i, j, m, d).update(i - 1, y) == splice(o, i - 1, j, seq![y] + m, d),
{
    assert(splice(o, i, j, m, d).update(i - 1, y) =~= splice(o, i - 1, j, seq![y] + m, d));
}


/// Removing run `p` and moving the ends of the runs after it is replacing run
/// `p` by nothing.
pub(crate) proof fn lemma_removed_shifted<T>(o: Seq<InternalRun<T>>, p: int, d: int)
    requires
        0 <= p < o.len(),
    ensures
        o.remove(p).take(p) + shift_ends(o.remove(p).skip(p), d) == splice(
            o,
            p,
            p + 1,
            Seq::<InternalRun<T>>::empty(),
            d,
        ),
{
    assert(o.remove(p).take(p) + shift_ends(o.remove(p).skip(p), d) =~= splice(
        o,
        p,
        p + 1,
        Seq::<InternalRun<T>>::empty(),
        d,
    ));
}

/// After run `p` was replaced by nothing, the run before it takes the place of
/// the two runs around the gap.
pub(crate) proof fn lemma_merge_shape<T>(o: Seq<InternalRun<T>>, p: int, d: int, y: InternalRun<T>)
    requires
        0 < p,
        p + 1 < o.len(),
    ensures
        splice(o, p, p + 1, Seq::<InternalRun<T>>::empty(), d).update(p - 1, y).remove(p) == splice(
            o,
            p - 1,
            p + 2,
            seq![y],
            d,
        ),
{
    assert(splice(o, p, p + 1, Seq::<InternalRun<T>>::empty(), d).update(p - 1, y).remove(p)
        =~= splice(o, p - 1, p + 2, seq![y], d));
}


/// The values of runs `i..j` are as many as the indexes from the start of run
/// `i` to the start of run `j`.
pub(crate) proof fn lemma_subrange_len<T>(o: Seq<InternalRun<T>>, i: int, j: int)
    requires
        ends_valid(o),
        0 <= i <= j <= o.len(),
    ensures
        flatten(abstract_runs(o).subrange(i, j)).len() == start_of(o, j) - start_of(o, i),
{
    let a = abstract_runs(o);
    lemma_offsets(o, i);
    lemma_offsets(o, j);
    assert(a.take(j) =~= a.take(i) + a.subrange(i, j));
    lemma_flatten_concat(a.take(i), a.subrange(i, j));
}


/// When the replacing runs stand for the replaced values without those at
/// `start..end`, the whole coding does too.
#[verifier::spinoff_prover]
pub(crate) proof fn lemma_splice_drain<T>(
    o: Seq<InternalRun<T>>,
    i: int,
    j: int,
    m: Seq<InternalRun<T>>,
    start: int,
    end: int,
)
    requires
        ends_valid(o),
        0 <= i < j <= o.len(),
        decode(splice(o, i, j, m, start - end)) == flatten(abstract_runs(o).take(i)) + flatten(
            mid_runs(m, start_of(o, i)),
        ) + flatten(abstract_runs(o).skip(j)),
        decode(o) == flatten(abstract_runs(o).take(i)) + flatten(abstract_runs(o).subrange(i, j))
            + flatten(abstract_runs(o).skip(j)),
        flatten(abstract_runs(o).take(i)).len() == start_of(o, i),
        flatten(abstract_runs(o).subrange(i, j)).len() == start_of(o, j) - start_of(o, i),
        start_of(o, i) <= start <= end <= start_of(o, j),
        flatten(mid_runs(m, start_of(o, i))) == flatten(abstract_runs(o).subrange(i, j)).take(
            start - start_of(o, i),
        ) + flatten(abstract_runs(o).subrange(i, j)).skip(end - start_of(o, i)),
    ensures
        decode(splice(o, i, j, m, start - end)) == decode(o).take(start) + decode(o).skip(end),
{
    assert(decode(splice(o, i, j, m, start - end)) =~= decode(o).take(start) + decode(o).skip(end));
}


/// Moving the ends of the runs from `j` on is replacing runs `i..j` by themselves.
pub(crate) proof fn lemma_shift_from_as_splice<T>(o: Seq<InternalRun<T>>, i: int, j: int, d: int)
    requires
        0 <= i <= j <= o.len(),
    ensures
        o.take(j) + shift_ends(o.skip(j), d) == splice(o, i, j, o.subrange(i, j), d),
{
    assert(o.take(j) + shift_ends(o.skip(j), d) =~= splice(o, i, j, o.subrange(i, j), d));
}

/// Taking out some of the replacing runs.
pub(crate) proof fn lemma_splice_cut_mid<T>(
    o: Seq<InternalRun<T>>,
    i: int,
    j: int,
    m: Seq<InternalRun<T>>,
    d: int,
    k1: int,
    k2: int,
)
    requires
        0 <= i <= j <= o.len(),
        0 <= k1 <= k2 <= m.len(),
    ensures
        splice(o, i, j, m, d).take(i + k1) + splice(o, i, j, m, d).skip(i + k2) == splice(
            o,
            i,
            j,
            m.take(k1) + m.skip(k2),
            d,
        ),
{
    assert(splice(o, i, j, m, d).take(i + k1) + splice(o, i, j, m, d).skip(i + k2) =~= splice(
        o,
        i,
        j,
        m.take(k1) + m.skip(k2),
        d,
    ));
}


/// The stored runs with the last one `k` values longer.
pub(crate) open spec fn grow_last<T>(o: Seq<InternalRun<T>>, k: int) -> Seq<InternalRun<T>> {
    o.update(
        o.len() - 1,
        InternalRun { end: (o[o.len() - 1].end + k) as usize, value: o[o.len() - 1].value },
    )
}

/// Growing the last stored run by `k` values grows the last abstract run.
#[verifier::spinoff_prover]
pub(crate) proof fn lemma_store_grow_last<T>(o: Seq<InternalRun<T>>, k: int)
    requires
        ends_valid(o),
        o.len() > 0,
        0 <= k,
        o[o.len() - 1].end + k < usize::MAX,
    ensures
        ends_valid(grow_last(o, k)),
        abstract_runs(grow_last(o, k)) == abstract_runs(o).update(
            o.len() - 1,
            Run {
                len: (abstract_runs(o).last().len + k) as usize,
                value: abstract_runs(o).last().value,
            },
        ),
        coded_len(grow_last(o, k)) == coded_len(o) + k,
{
    let n = o.len() - 1;
    let r = o.update(n, InternalRun { end: (o[n].end + k) as usize, value: o[n].value });
    lemma_start_le_end(o, n);
    reveal(ends_valid);
    assert forall|a: int, b: int|
        #![trigger r[a].end, r[b].end]
        0 <= a < b < r.len() implies r[a].end < r[b].end by {
        assert(o[a].end < o[b].end);
    }
    assert(abstract_runs(r) =~= abstract_runs(o).update(
        n,
        Run { len: (abstract_runs(o).last().len + k) as usize, value: abstract_runs(o).last().value },
    ));
}

/// Adding a stored run after the last one adds an abstract run.
#[verifier::spinoff_prover]
pub(crate) proof fn lemma_store_push<T>(o: Seq<InternalRun<T>>, x: InternalRun<T>)
    requires
        ends_valid(o),
        coded_len(o) <= x.end < usize::MAX,
    ensures
        ends_valid(o.push(x)),
        abstract_runs(o.push(x)) == abstract_runs(o).push(
            Run { len: (x.end - coded_len(o) + 1) as usize, value: x.value },
        ),
        coded_len(o.push(x)) == x.end + 1,
{
    let r = o.push(x);
    reveal(ends_valid);
    assert forall|a: int, b: int|
        #![trigger r[a].end, r[b].end]
        0 <= a < b < r.len() implies r[a].end < r[b].end by {
        if b < o.len() {
            assert(o[a].end < o[b].end);
        } else if a < o.len() - 1 {
            assert(o[a].end < o[o.len() - 1].end);
        }
    }
    assert(abstract_runs(r) =~= abstract_runs(o).push(
        Run { len: (x.end - coded_len(o) + 1) as usize, value: x.value },
    ));
}

} // verus!
