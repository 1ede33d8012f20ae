use vstd::prelude::*;
use crate::run::{
    Run, flatten, is_canonical, plain_values, lemma_canonical_splice, lemma_flatten_small,
    lemma_flatten_index, lemma_flatten_concat, repeat, push_run, lemma_push_run, runs_after_set,
    runs_after_insert, runs_after_remove, runs_after_truncate, runs_after_drain,
};
use crate::encoding::{
    lemma_decode_at,
    InternalRun, start_of, ends_valid, coded_len, covers, abstract_runs, decode, mid_runs, splice,
    splice_fits,
    shift_ends, lemma_shifted_as_splice, lemma_splice_insert_mid, lemma_splice_update_mid,
    lemma_splice_update_before, lemma_removed_shifted, lemma_merge_shape, lemma_start_le_end,
    lemma_shift_from_as_splice, lemma_splice_cut_mid, lemma_store_grow_last, lemma_store_push,
    lemma_splice, lemma_splice_update, lemma_splice_insert,
    lemma_splice_remove, lemma_splice_drain, lemma_end_ge_index, lemma_decode_len,
    lemma_subrange_len, lemma_ends_lt, grow_last, lemma_run_of,
};

verus! {

/// What replacing the value at `index` by `value` owes: the ends stay valid,
/// the length stays, and for plain values the value at `index` is replaced and
/// the shortest coding is kept.
pub(crate) open spec fn set_done<T: PartialEq + Clone>(
    o: Seq<InternalRun<T>>,
    n: Seq<InternalRun<T>>,
    index: int,
    value: T,
) -> bool {
    &&& ends_valid(n)
    &&& decode(n).len() == decode(o).len()
    &&& plain_values::<T>() ==> decode(n) == decode(o).update(index, value)
    &&& plain_values::<T>() && is_canonical(abstract_runs(o)) ==> is_canonical(abstract_runs(n))
    &&& plain_values::<T>() ==> abstract_runs(n) == runs_after_set(abstract_runs(o), index, value)
}

/// The single value of run `p` takes the value of both its neighbours: the three runs become one.
#[verifier::spinoff_prover]
pub(crate) fn set_merge_around<T: Eq + Clone>(
    runs: &mut Vec<InternalRun<T>>,
    p: usize,
    index: usize,
    value: Ghost<T>,
)
    requires
        ends_valid(old(runs)@),
        covers(old(runs)@, p as int, index as int),
        0 < p,
        p + 1 < old(runs)@.len(),
        start_of(old(runs)@, p as int) == old(runs)@[p as int].end,
        plain_values::<T>()
            ==> old(runs)@[p - 1].value == value@ && old(runs)@[p + 1].value == value@,
        plain_values::<T>() ==> old(runs)@[p as int].value != value@,
    ensures
        set_done(old(runs)@, final(runs)@, index as int, value@),
{
    let ghost o = old(runs)@;
    let _ = runs.remove(p);
    runs[p - 1].end = runs[p - 1].end + 1;
    let _ = runs.remove(p - 1);
    proof {
        let a = abstract_runs(o);
        let p = p as int;
        lemma_decode_len(o);
        lemma_start_le_end(o, p - 1);
        lemma_start_le_end(o, p);
        lemma_start_le_end(o, p + 1);
        let m = seq![o[p + 1]];
        assert(a.subrange(p - 1, p + 2) =~= seq![a[p - 1], a[p], a[p + 1]]);
        assert(runs@ =~= splice(o, p - 1, p + 2, m, 0));
        lemma_splice(o, p - 1, p + 2, m, 0);
        let mid = seq![
            Run { len: (a[p - 1].len + 1 + a[p + 1].len) as usize, value: o[p + 1].value },
        ];
        assert(mid_runs(m, start_of(o, p - 1)) =~= mid);
        if plain_values::<T>() {
            lemma_flatten_small(mid[0], mid[0], mid[0]);
            lemma_flatten_small(a[p - 1], a[p], a[p + 1]);
            assert(flatten(mid)
                =~= flatten(a.subrange(p - 1, p + 2)).update(index - start_of(o, p - 1), value@));
            lemma_splice_update(o, p - 1, p + 2, m, index as int, value@);
            lemma_run_of(o, p, index as int);
            assert(abstract_runs(runs@) =~= runs_after_set(a, index as int, value@));
            if is_canonical(a) {
                lemma_canonical_splice(a, p - 1, p + 2, mid);
            }
        }
    }
}

/// The single value of run `p` takes the value of the run before, which grows over it.
#[verifier::spinoff_prover]
pub(crate) fn set_merge_before<T: Eq + Clone>(
    runs: &mut Vec<InternalRun<T>>,
    p: usize,
    index: usize,
    value: T,
)
    requires
        ends_valid(old(runs)@),
        covers(old(runs)@, p as int, index as int),
        0 < p,
        start_of(old(runs)@, p as int) == old(runs)@[p as int].end,
        plain_values::<T>() ==> old(runs)@[p - 1].value == value,
        plain_values::<T>() ==> p + 1 == old(runs)@.len() || old(runs)@[p + 1].value != value,
        plain_values::<T>() ==> old(runs)@[p as int].value != value,
    ensures
        set_done(old(runs)@, final(runs)@, index as int, value),
{
    let ghost o = old(runs)@;
    let _ = runs.remove(p);
    runs[p - 1].end = runs[p - 1].end + 1;
    runs[p - 1].value = value;
    proof {
        let a = abstract_runs(o);
        let p = p as int;
        lemma_decode_len(o);
        lemma_start_le_end(o, p - 1);
        lemma_start_le_end(o, p);
        let m = seq![InternalRun { end: o[p].end, value: value }];
        assert(a.subrange(p - 1, p + 1) =~= seq![a[p - 1], a[p]]);
        assert(runs@ =~= splice(o, p - 1, p + 1, m, 0));
        lemma_splice(o, p - 1, p + 1, m, 0);
        let mid = seq![Run { len: (a[p - 1].len + 1) as usize, value: value }];
        assert(mid_runs(m, start_of(o, p - 1)) =~= mid);
        if plain_values::<T>() {
            lemma_flatten_small(mid[0], mid[0], mid[0]);
            lemma_flatten_small(a[p - 1], a[p], a[p]);
            assert(flatten(mid)
                =~= flatten(a.subrange(p - 1, p + 1)).update(index - start_of(o, p - 1), value));
            lemma_splice_update(o, p - 1, p + 1, m, index as int, value);
            lemma_run_of(o, p, index as int);
            assert(abstract_runs(runs@) =~= runs_after_set(a, index as int, value));
            if is_canonical(a) {
                lemma_canonical_splice(a, p - 1, p + 1, mid);
            }
        }
    }
}

/// The single value of run `p` takes the value of the run after, which grows over it.
#[verifier::spinoff_prover]
pub(crate) fn set_merge_after<T: Eq + Clone>(
    runs: &mut Vec<InternalRun<T>>,
    p: usize,
    index: usize,
    value: Ghost<T>,
)
    requires
        ends_valid(old(runs)@),
        covers(old(runs)@, p as int, index as int),
        p + 1 < old(runs)@.len(),
        start_of(old(runs)@, p as int) == old(runs)@[p as int].end,
        plain_values::<T>() ==> old(runs)@[p + 1].value == value@,
        plain_values::<T>() ==> p == 0 || old(runs)@[p - 1].value != value@,
        plain_values::<T>() ==> old(runs)@[p as int].value != value@,
    ensures
        set_done(old(runs)@, final(runs)@, index as int, value@),
{
    let ghost o = old(runs)@;
    let _ = runs.remove(p);
    proof {
        let a = abstract_runs(o);
        let p = p as int;
        lemma_decode_len(o);
        lemma_start_le_end(o, p);
        lemma_start_le_end(o, p + 1);
        let m = seq![o[p + 1]];
        assert(a.subrange(p, p + 2) =~= seq![a[p], a[p + 1]]);
        assert(runs@ =~= splice(o, p, p + 2, m, 0));
        lemma_splice(o, p, p + 2, m, 0);
        let mid = seq![Run { len: (1 + a[p + 1].len) as usize, value: o[p + 1].value }];
        assert(mid_runs(m, start_of(o, p)) =~= mid);
        if plain_values::<T>() {
            lemma_flatten_small(mid[0], mid[0], mid[0]);
            lemma_flatten_small(a[p], a[p + 1], a[p + 1]);
            assert(flatten(mid)
                =~= flatten(a.subrange(p, p + 2)).update(index - start_of(o, p), value@));
            lemma_splice_update(o, p, p + 2, m, index as int, value@);
            lemma_run_of(o, p, index as int);
            assert(abstract_runs(runs@) =~= runs_after_set(a, index as int, value@));
            if is_canonical(a) {
                lemma_canonical_splice(a, p, p + 2, mid);
            }
        }
    }
}

/// The single value of run `p` is replaced.
#[verifier::spinoff_prover]
pub(crate) fn set_replace<T: Eq + Clone>(
    runs: &mut Vec<InternalRun<T>>,
    p: usize,
    index: usize,
    value: T,
)
    requires
        ends_valid(old(runs)@),
        covers(old(runs)@, p as int, index as int),
        start_of(old(runs)@, p as int) == old(runs)@[p as int].end,
        plain_values::<T>() ==> p == 0 || old(runs)@[p - 1].value != value,
        plain_values::<T>() ==> p + 1 == old(runs)@.len() || old(runs)@[p + 1].value != value,
        plain_values::<T>() ==> old(runs)@[p as int].value != value,
    ensures
        set_done(old(runs)@, final(runs)@, index as int, value),
{
    let ghost o = old(runs)@;
    runs[p].value = value;
    proof {
        let a = abstract_runs(o);
        let p = p as int;
        lemma_decode_len(o);
        lemma_start_le_end(o, p);
        let m = seq![InternalRun { end: o[p].end, value: value }];
        assert(a.subrange(p, p + 1) =~= seq![a[p]]);
        assert(runs@ =~= splice(o, p, p + 1, m, 0));
        lemma_splice(o, p, p + 1, m, 0);
        let mid = seq![Run { len: 1, value: value }];
        assert(mid_runs(m, start_of(o, p)) =~= mid);
        if plain_values::<T>() {
            lemma_flatten_small(mid[0], mid[0], mid[0]);
            lemma_flatten_small(a[p], a[p], a[p]);
            assert(flatten(mid)
                =~= flatten(a.subrange(p, p + 1)).update(index - start_of(o, p), value));
            lemma_splice_update(o, p, p + 1, m, index as int, value);
            lemma_run_of(o, p, index as int);
            assert(abstract_runs(runs@) =~= runs_after_set(a, index as int, value));
            if is_canonical(a) {
                lemma_canonical_splice(a, p, p + 1, mid);
            }
        }
    }
}

/// The first value of the longer run `p` joins the run before.
#[verifier::spinoff_prover]
pub(crate) fn set_grow_before<T: Eq + Clone>(
    runs: &mut Vec<InternalRun<T>>,
    p: usize,
    index: usize,
    value: Ghost<T>,
)
    requires
        ends_valid(old(runs)@),
        covers(old(runs)@, p as int, index as int),
        0 < p,
        index as int == start_of(old(runs)@, p as int),
        start_of(old(runs)@, p as int) < old(runs)@[p as int].end,
        plain_values::<T>() ==> old(runs)@[p - 1].value == value@,
        plain_values::<T>() ==> old(runs)@[p as int].value != value@,
    ensures
        set_done(old(runs)@, final(runs)@, index as int, value@),
{
    let ghost o = old(runs)@;
    runs[p - 1].end = runs[p - 1].end + 1;
    proof {
        let a = abstract_runs(o);
        let p = p as int;
        lemma_decode_len(o);
        lemma_start_le_end(o, p - 1);
        lemma_start_le_end(o, p);
        let m = seq![InternalRun { end: index, value: o[p - 1].value }, o[p]];
        assert(a.subrange(p - 1, p + 1) =~= seq![a[p - 1], a[p]]);
        assert(runs@ =~= splice(o, p - 1, p + 1, m, 0));
        lemma_splice(o, p - 1, p + 1, m, 0);
        let mid = seq![
            Run { len: (a[p - 1].len + 1) as usize, value: o[p - 1].value },
            Run { len: (a[p].len - 1) as usize, value: o[p].value },
        ];
        assert(mid_runs(m, start_of(o, p - 1)) =~= mid);
        if plain_values::<T>() {
            lemma_flatten_small(mid[0], mid[1], mid[1]);
            lemma_flatten_small(a[p - 1], a[p], a[p]);
            assert(flatten(mid)
                =~= flatten(a.subrange(p - 1, p + 1)).update(index - start_of(o, p - 1), value@));
            lemma_splice_update(o, p - 1, p + 1, m, index as int, value@);
            lemma_run_of(o, p, index as int);
            assert(abstract_runs(runs@) =~= runs_after_set(a, index as int, value@));
            if is_canonical(a) {
                lemma_canonical_splice(a, p - 1, p + 1, mid);
            }
        }
    }
}

/// The first value of the longer run `p` becomes a run of its own.
#[verifier::spinoff_prover]
pub(crate) fn set_new_first<T: Eq + Clone>(
    runs: &mut Vec<InternalRun<T>>,
    p: usize,
    index: usize,
    value: T,
)
    requires
        ends_valid(old(runs)@),
        covers(old(runs)@, p as int, index as int),
        index as int == start_of(old(runs)@, p as int),
        start_of(old(runs)@, p as int) < old(runs)@[p as int].end,
        plain_values::<T>() ==> old(runs)@[p as int].value != value,
        plain_values::<T>() ==> p == 0 || old(runs)@[p - 1].value != value,
    ensures
        set_done(old(runs)@, final(runs)@, index as int, value),
{
    let ghost o = old(runs)@;
    runs.insert(p, InternalRun { value, end: index });
    proof {
        let a = abstract_runs(o);
        let p = p as int;
        lemma_decode_len(o);
        lemma_start_le_end(o, p);
        let m = seq![InternalRun { end: index, value: value }, o[p]];
        assert(a.subrange(p, p + 1) =~= seq![a[p]]);
        assert(runs@ =~= splice(o, p, p + 1, m, 0));
        lemma_splice(o, p, p + 1, m, 0);
        let mid = seq![
            Run { len: 1, value: value },
            Run { len: (a[p].len - 1) as usize, value: o[p].value },
        ];
        assert(mid_runs(m, start_of(o, p)) =~= mid);
        if plain_values::<T>() {
            lemma_flatten_small(mid[0], mid[1], mid[1]);
            lemma_flatten_small(a[p], a[p], a[p]);
            assert(flatten(mid)
                =~= flatten(a.subrange(p, p + 1)).update(index - start_of(o, p), value));
            lemma_splice_update(o, p, p + 1, m, index as int, value);
            lemma_run_of(o, p, index as int);
            assert(abstract_runs(runs@) =~= runs_after_set(a, index as int, value));
            if is_canonical(a) {
                lemma_canonical_splice(a, p, p + 1, mid);
            }
        }
    }
}

/// The last value of the longer run `p` joins the run after.
#[verifier::spinoff_prover]
pub(crate) fn set_grow_after<T: Eq + Clone>(
    runs: &mut Vec<InternalRun<T>>,
    p: usize,
    index: usize,
    value: Ghost<T>,
)
    requires
        ends_valid(old(runs)@),
        covers(old(runs)@, p as int, index as int),
        p + 1 < old(runs)@.len(),
        index == old(runs)@[p as int].end,
        start_of(old(runs)@, p as int) < old(runs)@[p as int].end,
        plain_values::<T>() ==> old(runs)@[p + 1].value == value@,
        plain_values::<T>() ==> old(runs)@[p as int].value != value@,
    ensures
        set_done(old(runs)@, final(runs)@, index as int, value@),
{
    let ghost o = old(runs)@;
    runs[p].end = runs[p].end - 1;
    proof {
        let a = abstract_runs(o);
        let p = p as int;
        lemma_decode_len(o);
        lemma_start_le_end(o, p);
        lemma_start_le_end(o, p + 1);
        let m = seq![InternalRun { end: (index - 1) as usize, value: o[p].value }, o[p + 1]];
        assert(a.subrange(p, p + 2) =~= seq![a[p], a[p + 1]]);
        assert(runs@ =~= splice(o, p, p + 2, m, 0));
        lemma_splice(o, p, p + 2, m, 0);
        let mid = seq![
            Run { len: (a[p].len - 1) as usize, value: o[p].value },
            Run { len: (a[p + 1].len + 1) as usize, value: o[p + 1].value },
        ];
        assert(mid_runs(m, start_of(o, p)) =~= mid);
        if plain_values::<T>() {
            lemma_flatten_small(mid[0], mid[1], mid[1]);
            lemma_flatten_small(a[p], a[p + 1], a[p + 1]);
            assert(flatten(mid)
                =~= flatten(a.subrange(p, p + 2)).update(index - start_of(o, p), value@));
            lemma_splice_update(o, p, p + 2, m, index as int, value@);
            lemma_run_of(o, p, index as int);
            assert(abstract_runs(runs@) =~= runs_after_set(a, index as int, value@));
            if is_canonical(a) {
                lemma_canonical_splice(a, p, p + 2, mid);
            }
        }
    }
}

/// The last value of the longer run `p` becomes a run of its own.
#[verifier::spinoff_prover]
pub(crate) fn set_new_last<T: Eq + Clone>(
    runs: &mut Vec<InternalRun<T>>,
    p: usize,
    index: usize,
    value: T,
)
    requires
        ends_valid(old(runs)@),
        covers(old(runs)@, p as int, index as int),
        index == old(runs)@[p as int].end,
        start_of(old(runs)@, p as int) < old(runs)@[p as int].end,
        plain_values::<T>() ==> old(runs)@[p as int].value != value,
        plain_values::<T>() ==> p + 1 == old(runs)@.len() || old(runs)@[p + 1].value != value,
    ensures
        set_done(old(runs)@, final(runs)@, index as int, value),
{
    let ghost o = old(runs)@;
    proof {
        lemma_end_ge_index(old(runs)@, p as int);
    }
    runs[p].end = runs[p].end - 1;
    runs.insert(p + 1, InternalRun { value, end: index });
    proof {
        let a = abstract_runs(o);
        let p = p as int;
        lemma_decode_len(o);
        lemma_start_le_end(o, p);
        let m = seq![
            InternalRun { end: (index - 1) as usize, value: o[p].value },
            InternalRun { end: index, value: value },
        ];
        assert(a.subrange(p, p + 1) =~= seq![a[p]]);
        assert(runs@ =~= splice(o, p, p + 1, m, 0));
        lemma_splice(o, p, p + 1, m, 0);
        let mid = seq![
            Run { len: (a[p].len - 1) as usize, value: o[p].value },
            Run { len: 1, value: value },
        ];
        assert(mid_runs(m, start_of(o, p)) =~= mid);
        if plain_values::<T>() {
            lemma_flatten_small(mid[0], mid[1], mid[1]);
            lemma_flatten_small(a[p], a[p], a[p]);
            assert(flatten(mid)
                =~= flatten(a.subrange(p, p + 1)).update(index - start_of(o, p), value));
            lemma_splice_update(o, p, p + 1, m, index as int, value);
            lemma_run_of(o, p, index as int);
            assert(abstract_runs(runs@) =~= runs_after_set(a, index as int, value));
            if is_canonical(a) {
                lemma_canonical_splice(a, p, p + 1, mid);
            }
        }
    }
}

/// A value inside the longer run `p` is replaced: the run is split in three.
#[verifier::spinoff_prover]
pub(crate) fn set_split<T: Eq + Clone>(
    runs: &mut Vec<InternalRun<T>>,
    p: usize,
    index: usize,
    value: T,
)
    requires
        ends_valid(old(runs)@),
        covers(old(runs)@, p as int, index as int),
        start_of(old(runs)@, p as int) < index < old(runs)@[p as int].end,
        plain_values::<T>() ==> old(runs)@[p as int].value != value,
    ensures
        set_done(old(runs)@, final(runs)@, index as int, value),
{
    let ghost o = old(runs)@;
    proof {
        lemma_end_ge_index(old(runs)@, p as int);
    }
    let end = runs[p].end;
    let ghost x0 = o[p as int];
    let ghost x1 = InternalRun { end: (index - 1) as usize, value: o[p as int].value };
    let ghost y = InternalRun { end: index, value: value };
    proof {
        lemma_shifted_as_splice(o, p as int, 0);
        assert(o.take(p as int) + shift_ends(o.skip(p as int), 0) =~= o);
        assert(seq![InternalRun { end: (o[p as int].end + 0) as usize, value: o[p as int].value }]
            =~= seq![x0]);
        lemma_splice_update_mid(o, p as int, p + 1, seq![x0], 0, 0, x1);
        assert(seq![x0].update(0, x1) =~= seq![x1]);
        lemma_splice_insert_mid(o, p as int, p + 1, seq![x1], 0, 1, y);
        assert(seq![x1].insert(1, y) =~= seq![x1, y]);
    }
    runs[p].end = index - 1;
    let v = runs[p].value.clone();
    proof {
        assert(vstd::pervasive::strictly_cloned(old(runs)@[p as int].value, v));
    }
    runs.insert(p + 1, InternalRun { value, end: index });
    proof {
        let z = InternalRun { end: end, value: v };
        lemma_splice_insert_mid(o, p as int, p + 1, seq![x1, y], 0, 2, z);
        assert(seq![x1, y].insert(2, z) =~= seq![x1, y, z]);
    }
    runs.insert(p + 2, InternalRun { value: v, end });
    proof {
        let a = abstract_runs(o);
        let p = p as int;
        lemma_decode_len(o);
        lemma_start_le_end(o, p);
        let m = seq![
            InternalRun { end: (index - 1) as usize, value: o[p].value },
            InternalRun { end: index, value: value },
            InternalRun { end: o[p].end, value: v },
        ];
        assert(a.subrange(p, p + 1) =~= seq![a[p]]);
        lemma_splice(o, p, p + 1, m, 0);
        let mid = seq![
            Run { len: (index - start_of(o, p)) as usize, value: o[p].value },
            Run { len: 1, value: value },
            Run { len: (o[p].end - index) as usize, value: v },
        ];
        assert(mid_runs(m, start_of(o, p)) =~= mid);
        if plain_values::<T>() {
            lemma_flatten_small(mid[0], mid[1], mid[2]);
            lemma_flatten_small(a[p], a[p], a[p]);
            assert(flatten(mid)
                =~= flatten(a.subrange(p, p + 1)).update(index - start_of(o, p), value));
            lemma_splice_update(o, p, p + 1, m, index as int, value);
            lemma_run_of(o, p, index as int);
            assert(abstract_runs(runs@) =~= runs_after_set(a, index as int, value));
            if is_canonical(a) {
                lemma_canonical_splice(a, p, p + 1, mid);
            }
        }
    }
}


/// Moves the ends of the runs from `from` on one place up.
#[verifier::spinoff_prover]
pub(crate) fn raise_ends<T>(runs: &mut Vec<InternalRun<T>>, from: usize)
    requires
        from <= old(runs)@.len(),
        forall|q: int| from <= q < old(runs)@.len() ==> #[trigger] old(runs)@[q].end < usize::MAX,
    ensures
        final(runs)@ == old(runs)@.take(from as int) + shift_ends(old(runs)@.skip(from as int), 1),
{
    let ghost o = old(runs)@;
    let n = runs.len();
    let mut k = from;
    while k < n
        invariant
            from <= k <= n,
            n == runs@.len(),
            n == o.len(),
            forall|q: int| from <= q < o.len() ==> #[trigger] o[q].end < usize::MAX,
            forall|q: int| 0 <= q < from ==> #[trigger] runs@[q] == o[q],
            forall|q: int|
                from <= q < k ==> #[trigger] runs@[q] == (InternalRun {
                    end: (o[q].end + 1) as usize,
                    value: o[q].value,
                }),
            forall|q: int| k <= q < n ==> #[trigger] runs@[q] == o[q],
        decreases n - k,
    {
        runs[k].end = runs[k].end + 1;
        k = k + 1;
    }
    assert(runs@ =~= o.take(from as int) + shift_ends(o.skip(from as int), 1));
}

/// Moves the ends of the runs from `from` on `amount` places down.
#[verifier::spinoff_prover]
pub(crate) fn lower_ends<T>(runs: &mut Vec<InternalRun<T>>, from: usize, amount: usize)
    requires
        from <= old(runs)@.len(),
        forall|q: int| from <= q < old(runs)@.len() ==> #[trigger] old(runs)@[q].end >= amount,
    ensures
        final(runs)@ == old(runs)@.take(from as int) + shift_ends(
            old(runs)@.skip(from as int),
            -amount,
        ),
{
    let ghost o = old(runs)@;
    let n = runs.len();
    let mut k = from;
    while k < n
        invariant
            from <= k <= n,
            n == runs@.len(),
            n == o.len(),
            forall|q: int| from <= q < o.len() ==> #[trigger] o[q].end >= amount,
            forall|q: int| 0 <= q < from ==> #[trigger] runs@[q] == o[q],
            forall|q: int|
                from <= q < k ==> #[trigger] runs@[q] == (InternalRun {
                    end: (o[q].end - amount) as usize,
                    value: o[q].value,
                }),
            forall|q: int| k <= q < n ==> #[trigger] runs@[q] == o[q],
        decreases n - k,
    {
        runs[k].end = runs[k].end - amount;
        k = k + 1;
    }
    assert(runs@ =~= o.take(from as int) + shift_ends(o.skip(from as int), -amount));
}

/// Removes the runs `a..b`.
#[verifier::spinoff_prover]
pub(crate) fn remove_runs<T>(runs: &mut Vec<InternalRun<T>>, a: usize, b: usize)
    requires
        a <= b <= old(runs)@.len(),
    ensures
        final(runs)@ == old(runs)@.take(a as int) + old(runs)@.skip(b as int),
{
    let mut rest = runs.split_off(b);
    runs.truncate(a);
    runs.append(&mut rest);
}

/// What putting `value` in at `index` owes: the ends stay valid, the length
/// grows by one, and for plain values `value` is put in at `index` and the
/// shortest coding is kept.
pub(crate) open spec fn insert_done<T: PartialEq + Clone>(
    o: Seq<InternalRun<T>>,
    n: Seq<InternalRun<T>>,
    index: int,
    value: T,
) -> bool {
    &&& ends_valid(n)
    &&& decode(n).len() == decode(o).len() + 1
    &&& plain_values::<T>() ==> decode(n) == decode(o).insert(index, value)
    &&& plain_values::<T>() && is_canonical(abstract_runs(o)) ==> is_canonical(abstract_runs(n))
    &&& plain_values::<T>() ==> abstract_runs(n) == runs_after_insert(abstract_runs(o), index, value)
}

/// Every run from `from` on ends below `usize::MAX`, and one more value
/// still fits after the last run.
proof fn lemma_room_above<T>(o: Seq<InternalRun<T>>, from: int)
    requires
        ends_valid(o),
        coded_len(o) < usize::MAX,
        0 <= from,
    ensures
        forall|q: int| from <= q < o.len() ==> #[trigger] o[q].end < usize::MAX,
        o.len() > 0 ==> o[o.len() - 1].end + 1 < usize::MAX,
{
    reveal(ends_valid);
    assert forall|q: int| from <= q < o.len() implies #[trigger] o[q].end < usize::MAX by {
        if q < o.len() - 1 {
            assert(o[q].end < o[o.len() - 1].end);
        }
    }
}

/// `value`, equal to the value of run `p`, is put in at `index`: the run grows.
#[verifier::spinoff_prover]
pub(crate) fn insert_into_run<T: Eq + Clone>(
    runs: &mut Vec<InternalRun<T>>,
    p: usize,
    index: usize,
    value: Ghost<T>,
)
    requires
        ends_valid(old(runs)@),
        covers(old(runs)@, p as int, index as int),
        coded_len(old(runs)@) < usize::MAX,
        plain_values::<T>() ==> old(runs)@[p as int].value == value@,
    ensures
        insert_done(old(runs)@, final(runs)@, index as int, value@),
{
    let ghost o = old(runs)@;
    proof {
        lemma_room_above(o, p as int);
    }
    raise_ends(runs, p);
    proof {
        let a = abstract_runs(o);
        let p = p as int;
        lemma_decode_len(o);
        lemma_start_le_end(o, p);
        let m = seq![InternalRun { end: (o[p].end + 1) as usize, value: o[p].value }];
        assert(a.subrange(p, p + 1) =~= seq![a[p]]);
        lemma_shifted_as_splice(o, p, 1);
        lemma_splice(o, p, p + 1, m, 1);
        let mid = seq![Run { len: (a[p].len + 1) as usize, value: o[p].value }];
        assert(mid_runs(m, start_of(o, p)) =~= mid);
        if plain_values::<T>() {
            lemma_flatten_small(mid[0], mid[0], mid[0]);
            lemma_flatten_small(a[p], a[p], a[p]);
            assert(flatten(mid)
                =~= flatten(a.subrange(p, p + 1)).insert(index - start_of(o, p), value@));
            lemma_splice_insert(o, p, p + 1, m, index as int, value@);
            lemma_run_of(o, p, index as int);
            assert(abstract_runs(runs@) =~= runs_after_insert(a, index as int, value@));
            if is_canonical(a) {
                lemma_canonical_splice(a, p, p + 1, mid);
            }
        }
    }
}

/// `value`, equal to the value of run `p - 1`, is put in at the start of run
/// `p`: the run before grows.
#[verifier::spinoff_prover]
pub(crate) fn insert_grow_before<T: Eq + Clone>(
    runs: &mut Vec<InternalRun<T>>,
    p: usize,
    index: usize,
    value: Ghost<T>,
)
    requires
        ends_valid(old(runs)@),
        covers(old(runs)@, p as int, index as int),
        index as int == start_of(old(runs)@, p as int),
        0 < p,
        coded_len(old(runs)@) < usize::MAX,
        plain_values::<T>() ==> old(runs)@[p - 1].value == value@,
        plain_values::<T>() ==> old(runs)@[p as int].value != value@,
    ensures
        insert_done(old(runs)@, final(runs)@, index as int, value@),
{
    let ghost o = old(runs)@;
    proof {
        lemma_room_above(o, p as int);
        assert(o[p - 1].end < o[p as int].end);
    }
    raise_ends(runs, p);
    proof {
        lemma_shifted_as_splice(o, p as int, 1);
    }
    runs[p - 1].end = runs[p - 1].end + 1;
    proof {
        lemma_splice_update_before(
            o,
            p as int,
            p + 1,
            seq![InternalRun { end: (o[p as int].end + 1) as usize, value: o[p as int].value }],
            1,
            InternalRun { end: index, value: o[p - 1].value },
        );
        let a = abstract_runs(o);
        let p = p as int;
        lemma_decode_len(o);
        lemma_start_le_end(o, p);
        lemma_start_le_end(o, p - 1);
        let m = seq![
            InternalRun { end: index, value: o[p - 1].value },
            InternalRun { end: (o[p].end + 1) as usize, value: o[p].value },
        ];
        assert(a.subrange(p - 1, p + 1) =~= seq![a[p - 1], a[p]]);
        assert(seq![InternalRun { end: index, value: o[p - 1].value }] + seq![
            InternalRun { end: (o[p].end + 1) as usize, value: o[p].value },
        ] =~= m);
        lemma_splice(o, p - 1, p + 1, m, 1);
        let mid = seq![
            Run { len: (a[p - 1].len + 1) as usize, value: o[p - 1].value },
            Run { len: a[p].len, value: o[p].value },
        ];
        assert(mid_runs(m, start_of(o, p - 1)) =~= mid);
        if plain_values::<T>() {
            lemma_flatten_small(mid[0], mid[1], mid[1]);
            lemma_flatten_small(a[p - 1], a[p], a[p]);
            assert(flatten(mid) =~= flatten(a.subrange(p - 1, p + 1)).insert(
                index - start_of(o, p - 1),
                value@,
            ));
            lemma_splice_insert(o, p - 1, p + 1, m, index as int, value@);
            lemma_run_of(o, p, index as int);
            assert(abstract_runs(runs@) =~= runs_after_insert(a, index as int, value@));
            if is_canonical(a) {
                assert(a[p - 1].value != a[p].value);
                lemma_canonical_splice(a, p - 1, p + 1, mid);
            }
        }
    }
}

/// `value` is put in at the start of run `p` as a run of its own.
#[verifier::spinoff_prover]
pub(crate) fn insert_new_first<T: Eq + Clone>(
    runs: &mut Vec<InternalRun<T>>,
    p: usize,
    index: usize,
    value: T,
)
    requires
        ends_valid(old(runs)@),
        covers(old(runs)@, p as int, index as int),
        index as int == start_of(old(runs)@, p as int),
        coded_len(old(runs)@) < usize::MAX,
        plain_values::<T>() ==> old(runs)@[p as int].value != value,
        plain_values::<T>() ==> p == 0 || old(runs)@[p - 1].value != value,
    ensures
        insert_done(old(runs)@, final(runs)@, index as int, value),
{
    let ghost o = old(runs)@;
    proof {
        lemma_room_above(o, p as int);
    }
    raise_ends(runs, p);
    proof {
        lemma_shifted_as_splice(o, p as int, 1);
        lemma_splice_insert_mid(
            o,
            p as int,
            p + 1,
            seq![InternalRun { end: (o[p as int].end + 1) as usize, value: o[p as int].value }],
            1,
            0,
            InternalRun { end: index, value: value },
        );
    }
    runs.insert(p, InternalRun { value, end: index });
    proof {
        let a = abstract_runs(o);
        let p = p as int;
        lemma_decode_len(o);
        lemma_start_le_end(o, p);
        let m = seq![
            InternalRun { end: index, value: value },
            InternalRun { end: (o[p].end + 1) as usize, value: o[p].value },
        ];
        assert(a.subrange(p, p + 1) =~= seq![a[p]]);
        assert(seq![InternalRun { end: (o[p].end + 1) as usize, value: o[p].value }].insert(
            0,
            InternalRun { end: index, value: value },
        ) =~= m);
        lemma_splice(o, p, p + 1, m, 1);
        let mid = seq![Run { len: 1, value: value }, Run { len: a[p].len, value: o[p].value }];
        assert(mid_runs(m, start_of(o, p)) =~= mid);
        if plain_values::<T>() {
            lemma_flatten_small(mid[0], mid[1], mid[1]);
            lemma_flatten_small(a[p], a[p], a[p]);
            assert(flatten(mid)
                =~= flatten(a.subrange(p, p + 1)).insert(index - start_of(o, p), value));
            lemma_splice_insert(o, p, p + 1, m, index as int, value);
            lemma_run_of(o, p, index as int);
            assert(abstract_runs(runs@) =~= runs_after_insert(a, index as int, value));
            if is_canonical(a) {
                lemma_canonical_splice(a, p, p + 1, mid);
            }
        }
    }
}

/// `value` is put in inside run `p`, after its first value: the run is split in three.
#[verifier::spinoff_prover]
pub(crate) fn insert_split<T: Eq + Clone>(
    runs: &mut Vec<InternalRun<T>>,
    p: usize,
    index: usize,
    value: T,
)
    requires
        ends_valid(old(runs)@),
        covers(old(runs)@, p as int, index as int),
        start_of(old(runs)@, p as int) < index,
        coded_len(old(runs)@) < usize::MAX,
        plain_values::<T>() ==> old(runs)@[p as int].value != value,
    ensures
        insert_done(old(runs)@, final(runs)@, index as int, value),
{
    let ghost o = old(runs)@;
    proof {
        lemma_room_above(o, p as int);
        lemma_end_ge_index(o, p as int);
    }
    let end = runs[p].end;
    raise_ends(runs, p);
    let ghost x0 = InternalRun { end: (o[p as int].end + 1) as usize, value: o[p as int].value };
    let ghost x1 = InternalRun { end: (index - 1) as usize, value: o[p as int].value };
    let ghost y = InternalRun { end: index, value: value };
    proof {
        lemma_shifted_as_splice(o, p as int, 1);
        lemma_splice_update_mid(o, p as int, p + 1, seq![x0], 1, 0, x1);
        assert(seq![x0].update(0, x1) =~= seq![x1]);
        lemma_splice_insert_mid(o, p as int, p + 1, seq![x1], 1, 1, y);
        assert(seq![x1].insert(1, y) =~= seq![x1, y]);
    }
    runs[p].end = index - 1;
    runs.insert(p + 1, InternalRun { value, end: index });
    let v = runs[p].value.clone();
    proof {
        assert(vstd::pervasive::strictly_cloned(o[p as int].value, v));
        let z = InternalRun { end: (o[p as int].end + 1) as usize, value: v };
        lemma_splice_insert_mid(o, p as int, p + 1, seq![x1, y], 1, 2, z);
        assert(seq![x1, y].insert(2, z) =~= seq![x1, y, z]);
    }
    runs.insert(p + 2, InternalRun { value: v, end: end + 1 });
    proof {
        let a = abstract_runs(o);
        let p = p as int;
        lemma_decode_len(o);
        lemma_start_le_end(o, p);
        let m = seq![
            InternalRun { end: (index - 1) as usize, value: o[p].value },
            InternalRun { end: index, value: value },
            InternalRun { end: (o[p].end + 1) as usize, value: v },
        ];
        assert(a.subrange(p, p + 1) =~= seq![a[p]]);
        lemma_splice(o, p, p + 1, m, 1);
        let mid = seq![
            Run { len: (index - start_of(o, p)) as usize, value: o[p].value },
            Run { len: 1, value: value },
            Run { len: (o[p].end - index + 1) as usize, value: v },
        ];
        assert(mid_runs(m, start_of(o, p)) =~= mid);
        if plain_values::<T>() {
            lemma_flatten_small(mid[0], mid[1], mid[2]);
            lemma_flatten_small(a[p], a[p], a[p]);
            assert(flatten(mid)
                =~= flatten(a.subrange(p, p + 1)).insert(index - start_of(o, p), value));
            lemma_splice_insert(o, p, p + 1, m, index as int, value);
            lemma_run_of(o, p, index as int);
            assert(abstract_runs(runs@) =~= runs_after_insert(a, index as int, value));
            if is_canonical(a) {
                lemma_canonical_splice(a, p, p + 1, mid);
            }
        }
    }
}


/// What removing the value at `index` owes: the ends stay valid, the length
/// shrinks by one, and for plain values the value at `index` is removed and
/// handed back.
pub(crate) open spec fn remove_done<T: PartialEq + Clone>(
    o: Seq<InternalRun<T>>,
    n: Seq<InternalRun<T>>,
    index: int,
    r: T,
) -> bool {
    &&& ends_valid(n)
    &&& decode(n).len() == decode(o).len() - 1
    &&& plain_values::<T>() ==> decode(n) == decode(o).remove(index) && r == decode(o)[index]
}

/// The value at `index` lies in the longer run `p`: the run shrinks, and a
/// clone of its value is handed back.
#[verifier::spinoff_prover]
pub(crate) fn remove_in_run<T: Eq + Clone>(
    runs: &mut Vec<InternalRun<T>>,
    p: usize,
    index: usize,
) -> (r: T)
    requires
        ends_valid(old(runs)@),
        covers(old(runs)@, p as int, index as int),
        start_of(old(runs)@, p as int) < old(runs)@[p as int].end,
    ensures
        remove_done(old(runs)@, final(runs)@, index as int, r),
        plain_values::<T>() && is_canonical(abstract_runs(old(runs)@)) ==> is_canonical(
            abstract_runs(final(runs)@),
        ),
        abstract_runs(final(runs)@) == runs_after_remove(abstract_runs(old(runs)@), index as int),
{
    proof {
        reveal(ends_valid);
    }
    let ghost o = old(runs)@;
    proof {
        assert forall|q: int| p <= q < o.len() implies #[trigger] o[q].end >= 1 by {
            if p < q {
                assert(o[p as int].end < o[q].end);
            }
        }
    }
    lower_ends(runs, p, 1);
    let v = runs[p].value.clone();
    proof {
        assert(vstd::pervasive::strictly_cloned(o[p as int].value, v));
        let a = abstract_runs(o);
        let p = p as int;
        lemma_decode_len(o);
        lemma_start_le_end(o, p);
        lemma_decode_at(o, p, index as int);
        lemma_shifted_as_splice(o, p, -1);
        let m = seq![InternalRun { end: (o[p].end - 1) as usize, value: o[p].value }];
        assert(a.subrange(p, p + 1) =~= seq![a[p]]);
        lemma_splice(o, p, p + 1, m, -1);
        let mid = seq![Run { len: (a[p].len - 1) as usize, value: o[p].value }];
        assert(mid_runs(m, start_of(o, p)) =~= mid);
        lemma_run_of(o, p, index as int);
        assert(abstract_runs(runs@) =~= runs_after_remove(a, index as int));
        lemma_flatten_small(mid[0], mid[0], mid[0]);
        lemma_flatten_small(a[p], a[p], a[p]);
        assert(flatten(mid) =~= flatten(a.subrange(p, p + 1)).remove(index - start_of(o, p)));
        lemma_splice_remove(o, p, p + 1, m, index as int);
        if plain_values::<T>() && is_canonical(a) {
            lemma_canonical_splice(a, p, p + 1, mid);
        }
    }
    v
}

/// The value at `index` is the only value of run `p`: the run is taken out, its
/// value handed back, and the runs after it move one place down.
#[verifier::spinoff_prover]
pub(crate) fn remove_single_run<T>(runs: &mut Vec<InternalRun<T>>, p: usize, index: usize) -> (r: T)
    requires
        ends_valid(old(runs)@),
        covers(old(runs)@, p as int, index as int),
        start_of(old(runs)@, p as int) == old(runs)@[p as int].end,
    ensures
        final(runs)@ == splice(old(runs)@, p as int, p + 1, Seq::<InternalRun<T>>::empty(), -1),
        r == old(runs)@[p as int].value,
{
    proof {
        reveal(ends_valid);
    }
    let ghost o = old(runs)@;
    let removed = runs.remove(p);
    proof {
        assert forall|q: int| p <= q < runs@.len() implies #[trigger] runs@[q].end >= 1 by {
            assert(runs@[q] == o[q + 1]);
            assert(o[p as int].end < o[q + 1].end);
        }
    }
    lower_ends(runs, p, 1);
    proof {
        lemma_removed_shifted(o, p as int, -1);
    }
    removed.value
}

/// After a single-value run was taken out at `p`, the run before the gap grows
/// over the run after it.
#[verifier::spinoff_prover]
pub(crate) fn merge_over_gap<T>(
    runs: &mut Vec<InternalRun<T>>,
    p: usize,
    o: Ghost<Seq<InternalRun<T>>>,
)
    requires
        0 < p,
        p + 1 < o@.len(),
        old(runs)@ == splice(o@, p as int, p + 1, Seq::<InternalRun<T>>::empty(), -1),
    ensures
        final(runs)@ == splice(
            o@,
            p - 1,
            p + 2,
            seq![InternalRun { end: (o@[p + 1].end - 1) as usize, value: o@[p - 1].value }],
            -1,
        ),
{
    let after_end = runs[p].end;
    runs[p - 1].end = after_end;
    let _ = runs.remove(p);
    proof {
        lemma_merge_shape(
            o@,
            p as int,
            -1,
            InternalRun { end: (o@[p + 1].end - 1) as usize, value: o@[p - 1].value },
        );
    }
}

/// Taking out the single-value run `p` without joining its neighbours.
#[verifier::spinoff_prover]
pub(crate) proof fn lemma_remove_unjoined<T: PartialEq + Clone>(
    o: Seq<InternalRun<T>>,
    p: int,
    index: int,
)
    requires
        ends_valid(o),
        covers(o, p, index),
        start_of(o, p) == o[p].end,
    ensures
        abstract_runs(splice(o, p, p + 1, Seq::<InternalRun<T>>::empty(), -1))
            == abstract_runs(o).take(p)
            + abstract_runs(o).skip(p + 1),
        remove_done(o, splice(o, p, p + 1, Seq::<InternalRun<T>>::empty(), -1), index, o[p].value),
        plain_values::<T>() && is_canonical(abstract_runs(o)) && (p == 0 || p + 1 == o.len()
            || o[p - 1].value != o[p + 1].value) ==> is_canonical(
            abstract_runs(splice(o, p, p + 1, Seq::<InternalRun<T>>::empty(), -1)),
        ),
        p == 0 || p + 1 == o.len() || o[p - 1].value != o[p + 1].value ==> abstract_runs(
            splice(o, p, p + 1, Seq::<InternalRun<T>>::empty(), -1),
        ) == runs_after_remove(abstract_runs(o), index),
{
    reveal(ends_valid);
    let a = abstract_runs(o);
    let m = Seq::<InternalRun<T>>::empty();
    lemma_decode_len(o);
    lemma_start_le_end(o, p);
    lemma_decode_at(o, p, index);
    lemma_splice(o, p, p + 1, m, -1);
    assert(a.subrange(p, p + 1) =~= seq![a[p]]);
    let mid = mid_runs(m, start_of(o, p));
    assert(mid =~= Seq::<Run<T>>::empty());
    assert(a.take(p) + mid + a.skip(p + 1) =~= a.take(p) + a.skip(p + 1));
    lemma_run_of(o, p, index);
    assert(a.take(p) + a.skip(p + 1) =~= a.remove(p));
    lemma_flatten_small(a[p], a[p], a[p]);
    assert(flatten(mid) =~= flatten(a.subrange(p, p + 1)).remove(index - start_of(o, p)));
    lemma_splice_remove(o, p, p + 1, m, index);
    if plain_values::<T>() && is_canonical(a) && (p == 0 || p + 1 == o.len() || o[p - 1].value
        != o[p + 1].value) {
        lemma_canonical_splice(a, p, p + 1, mid);
    }
}

/// Taking out the single-value run `p` and joining its neighbours, which hold
/// equal values.
#[verifier::spinoff_prover]
pub(crate) proof fn lemma_remove_joined<T: PartialEq + Clone>(
    o: Seq<InternalRun<T>>,
    p: int,
    index: int,
)
    requires
        ends_valid(o),
        covers(o, p, index),
        start_of(o, p) == o[p].end,
        0 < p,
        p + 1 < o.len(),
        plain_values::<T>() ==> o[p - 1].value == o[p + 1].value,
    ensures
        remove_done(
            o,
            splice(
                o,
                p - 1,
                p + 2,
                seq![InternalRun { end: (o[p + 1].end - 1) as usize, value: o[p - 1].value }],
                -1,
            ),
            index,
            o[p].value,
        ),
        plain_values::<T>() && is_canonical(abstract_runs(o)) ==> is_canonical(
            abstract_runs(
                splice(
                    o,
                    p - 1,
                    p + 2,
                    seq![InternalRun { end: (o[p + 1].end - 1) as usize, value: o[p - 1].value }],
                    -1,
                ),
            ),
        ),
        o[p - 1].value == o[p + 1].value ==> abstract_runs(
            splice(
                o,
                p - 1,
                p + 2,
                seq![InternalRun { end: (o[p + 1].end - 1) as usize, value: o[p - 1].value }],
                -1,
            ),
        ) == runs_after_remove(abstract_runs(o), index),
{
    reveal(ends_valid);
    let a = abstract_runs(o);
    let m = seq![InternalRun { end: (o[p + 1].end - 1) as usize, value: o[p - 1].value }];
    lemma_decode_len(o);
    lemma_start_le_end(o, p - 1);
    lemma_start_le_end(o, p);
    lemma_start_le_end(o, p + 1);
    lemma_decode_at(o, p, index);
    assert(o[p - 1].end < o[p].end);
    assert(a.subrange(p - 1, p + 2) =~= seq![a[p - 1], a[p], a[p + 1]]);
    lemma_splice(o, p - 1, p + 2, m, -1);
    let mid = seq![Run { len: (a[p - 1].len + a[p + 1].len) as usize, value: o[p - 1].value }];
    assert(mid_runs(m, start_of(o, p - 1)) =~= mid);
    lemma_run_of(o, p, index);
    if plain_values::<T>() {
        lemma_flatten_small(mid[0], mid[0], mid[0]);
        lemma_flatten_small(a[p - 1], a[p], a[p + 1]);
        assert(flatten(mid)
            =~= flatten(a.subrange(p - 1, p + 2)).remove(index - start_of(o, p - 1)));
        lemma_splice_remove(o, p - 1, p + 2, m, index);
        if is_canonical(a) {
            lemma_canonical_splice(a, p - 1, p + 2, mid);
        }
    }
}


/// Keeps the first `len` values: run `index`, which holds the last of them,
/// is cut short and the runs after it are dropped.
#[verifier::spinoff_prover]
pub(crate) fn truncate_runs<T>(runs: &mut Vec<InternalRun<T>>, index: usize, len: usize)
    requires
        ends_valid(old(runs)@),
        0 < len,
        covers(old(runs)@, index as int, len - 1),
    ensures
        ends_valid(final(runs)@),
        decode(final(runs)@) == decode(old(runs)@).take(len as int),
        is_canonical(abstract_runs(old(runs)@)) ==> is_canonical(abstract_runs(final(runs)@)),
        abstract_runs(final(runs)@) == runs_after_truncate(abstract_runs(old(runs)@), len as int),
{
    let ghost o = old(runs)@;
    proof {
        lemma_end_ge_index(o, index as int);
        reveal(ends_valid);
    }
    runs.truncate(index + 1);
    runs[index].end = len - 1;
    proof {
        let a = abstract_runs(o);
        let i = index as int;
        let n = o.len() as int;
        reveal(ends_valid);
        lemma_decode_len(o);
        lemma_start_le_end(o, i);
        let d = len - coded_len(o);
        let m = seq![InternalRun { end: (len - 1) as usize, value: o[i].value }];
        assert(runs@ =~= splice(o, i, n, m, d));
        lemma_splice(o, i, n, m, d);
        let mid = seq![Run { len: (len - start_of(o, i)) as usize, value: o[i].value }];
        assert(mid_runs(m, start_of(o, i)) =~= mid);
        lemma_flatten_small(mid[0], mid[0], mid[0]);
        let sub = a.subrange(i, n);
        assert(sub[0] == a[i]);
        assert forall|k: int|
            0 <= k < len - start_of(o, i) implies #[trigger] flatten(sub)[k] == o[i].value by {
            lemma_flatten_index(sub, 0, k);
            assert(sub.take(0) =~= Seq::<Run<T>>::empty());
        }
        assert(a.skip(n) =~= Seq::<Run<T>>::empty());
        lemma_run_of(o, i, len - 1);
        assert(abstract_runs(runs@) =~= runs_after_truncate(a, len as int));
        assert(decode(runs@) =~= decode(o).take(len as int));
        if is_canonical(a) {
            lemma_canonical_splice(a, i, n, mid);
        }
    }
}


/// The values at `start..end` all lie in run `p`: the run shrinks and the
/// runs after it move down (the run goes when nothing of it is left).
#[verifier::spinoff_prover]
pub(crate) fn drain_within_run<T>(
    runs: &mut Vec<InternalRun<T>>,
    p: usize,
    start: usize,
    end: usize,
)
    requires
        ends_valid(old(runs)@),
        start < end,
        covers(old(runs)@, p as int, start as int),
        covers(old(runs)@, p as int, end - 1),
    ensures
        ends_valid(final(runs)@),
        decode(final(runs)@) == decode(old(runs)@).take(start as int) + decode(old(runs)@).skip(
            end as int,
        ),
        is_canonical(abstract_runs(old(runs)@)) && (start > start_of(old(runs)@, p as int) || end
            <= old(runs)@[p as int].end || start == 0 || end == coded_len(old(runs)@) || decode(
            old(runs)@,
        )[start - 1] != decode(old(runs)@)[end as int]) ==> is_canonical(
            abstract_runs(final(runs)@),
        ),
        abstract_runs(final(runs)@) == runs_after_drain(
            abstract_runs(old(runs)@),
            start as int,
            end as int,
        ),
{
    let ghost o = old(runs)@;
    let c = end - start;
    proof {
        lemma_end_ge_index(o, p as int);
        assert forall|q: int| p + 1 <= q < o.len() implies #[trigger] o[q].end >= c by {
            reveal(ends_valid);
            assert(o[p as int].end < o[q].end);
        }
    }
    lower_ends(runs, p + 1, c);
    proof {
        lemma_shift_from_as_splice(o, p as int, p + 1, start - end);
        assert(o.subrange(p as int, p + 1) =~= seq![o[p as int]]);
    }
    let s = if p == 0 {
        0
    } else {
        runs[p - 1].end + 1
    };
    let e = runs[p].end;
    let ghost m: Seq<InternalRun<T>>;
    if start > s || end <= e {
        runs[p].end = e - c;
        proof {
            let x = InternalRun { end: (e - c) as usize, value: o[p as int].value };
            lemma_splice_update_mid(o, p as int, p + 1, seq![o[p as int]], start - end, 0, x);
            m = seq![o[p as int]].update(0, x);
            assert(m =~= seq![x]);
        }
    } else {
        remove_runs(runs, p, p + 1);
        proof {
            lemma_splice_cut_mid(o, p as int, p + 1, seq![o[p as int]], start - end, 0, 1);
            m = seq![o[p as int]].take(0) + seq![o[p as int]].skip(1);
            assert(m =~= Seq::<InternalRun<T>>::empty());
        }
    }
    proof {
        lemma_drain_within_view(o, p as int, start as int, end as int, m);
    }
}

/// The values that draining within run `p` leaves.
#[verifier::spinoff_prover]
proof fn lemma_drain_within_view<T>(
    o: Seq<InternalRun<T>>,
    p: int,
    start: int,
    end: int,
    m: Seq<InternalRun<T>>,
)
    requires
        ends_valid(o),
        start < end,
        covers(o, p, start),
        covers(o, p, end - 1),
        m.len() == 0 ==> start == start_of(o, p) && end - 1 == o[p].end,
        m.len() > 0 ==> start > start_of(o, p) || end - 1 < o[p].end,
        m.len() > 0
            ==> m == seq![
                InternalRun { end: (o[p].end - (end - start)) as usize, value: o[p].value },
            ],
    ensures
        ends_valid(splice(o, p, p + 1, m, start - end)),
        decode(splice(o, p, p + 1, m, start - end)) == decode(o).take(start) + decode(o).skip(end),
        is_canonical(abstract_runs(o)) && (m.len() > 0 || start == 0 || end == coded_len(o)
            || decode(o)[start - 1] != decode(o)[end]) ==> is_canonical(
            abstract_runs(splice(o, p, p + 1, m, start - end)),
        ),
        abstract_runs(splice(o, p, p + 1, m, start - end)) == runs_after_drain(
            abstract_runs(o),
            start,
            end,
        ),
{
    let a = abstract_runs(o);
    lemma_start_le_end(o, p);
    assert(splice_fits(o, p, p + 1, m, start - end) && (p > 0 ==> o[p - 1].end < o[p].end)) by {
        reveal(ends_valid);
        if p + 1 < o.len() {
            assert(o[p].end < o[p + 1].end);
            if p + 1 < o.len() - 1 {
                assert(o[p + 1].end < o[o.len() - 1].end);
            }
        }
        if p > 0 {
            assert(o[p - 1].end < o[p].end);
        }
    }
    lemma_splice(o, p, p + 1, m, start - end);
    assert(a.subrange(p, p + 1) =~= seq![a[p]]);
    lemma_flatten_small(a[p], a[p], a[p]);
    if m.len() > 0 {
        let mid = seq![
            Run {
                len: (o[p].end - (end - start) - start_of(o, p) + 1) as usize,
                value: o[p].value,
            },
        ];
        assert(mid_runs(m, start_of(o, p)) =~= mid);
        lemma_flatten_small(mid[0], mid[0], mid[0]);
    } else {
        assert(mid_runs(m, start_of(o, p)) =~= Seq::<Run<T>>::empty());
    }
    lemma_drain_within_runs(o, p, start, end, m);
    assert(flatten(mid_runs(m, start_of(o, p))) =~= flatten(a.subrange(p, p + 1)).take(
        start - start_of(o, p),
    ) + flatten(a.subrange(p, p + 1)).skip(end - start_of(o, p)));
    lemma_splice_drain(o, p, p + 1, m, start, end);
    if is_canonical(a) && (m.len() > 0 || start == 0 || end == coded_len(o) || decode(o)[start
        - 1] != decode(o)[end]) {
        lemma_drain_within_canonical(o, p, start, end, m);
    }
}

/// The runs that draining within run `p` leaves.
#[verifier::spinoff_prover]
proof fn lemma_drain_within_runs<T>(
    o: Seq<InternalRun<T>>,
    p: int,
    start: int,
    end: int,
    m: Seq<InternalRun<T>>,
)
    requires
        ends_valid(o),
        start < end,
        covers(o, p, start),
        covers(o, p, end - 1),
        m.len() == 0 ==> start == start_of(o, p) && end - 1 == o[p].end,
        m.len() > 0 ==> start > start_of(o, p) || end - 1 < o[p].end,
        m.len() > 0
            ==> m == seq![
                InternalRun { end: (o[p].end - (end - start)) as usize, value: o[p].value },
            ],
    ensures
        abstract_runs(o).take(p) + mid_runs(m, start_of(o, p)) + abstract_runs(o).skip(p + 1)
            == runs_after_drain(abstract_runs(o), start, end),
{
    let a = abstract_runs(o);
    reveal(runs_after_drain);
    lemma_run_of(o, p, start);
    lemma_run_of(o, p, end - 1);
    if m.len() > 0 {
        let mid = seq![
            Run {
                len: (o[p].end - (end - start) - start_of(o, p) + 1) as usize,
                value: o[p].value,
            },
        ];
        assert(mid_runs(m, start_of(o, p)) =~= mid);
        assert(a.take(p) + mid + a.skip(p + 1) =~= runs_after_drain(a, start, end));
    } else {
        assert(mid_runs(m, start_of(o, p)) =~= Seq::<Run<T>>::empty());
        assert(a.take(p) + Seq::<Run<T>>::empty() + a.skip(p + 1) =~= runs_after_drain(
            a,
            start,
            end,
        ));
    }
}

/// Draining within run `p` keeps the shortest coding, unless the whole run
/// goes and the runs around it hold equal values.
#[verifier::spinoff_prover]
proof fn lemma_drain_within_canonical<T>(
    o: Seq<InternalRun<T>>,
    p: int,
    start: int,
    end: int,
    m: Seq<InternalRun<T>>,
)
    requires
        ends_valid(o),
        start < end,
        covers(o, p, start),
        covers(o, p, end - 1),
        m.len() == 0 ==> start == start_of(o, p) && end - 1 == o[p].end,
        m.len() > 0 ==> start > start_of(o, p) || end - 1 < o[p].end,
        m.len() > 0
            ==> m == seq![
                InternalRun { end: (o[p].end - (end - start)) as usize, value: o[p].value },
            ],
        is_canonical(abstract_runs(o)),
        m.len() == 0 ==> start == 0 || end == coded_len(o) || decode(o)[start - 1] != decode(o)[end],
        ends_valid(splice(o, p, p + 1, m, start - end)),
        abstract_runs(splice(o, p, p + 1, m, start - end)) == abstract_runs(o).take(p) + mid_runs(
            m,
            start_of(o, p),
        ) + abstract_runs(o).skip(p + 1),
    ensures
        is_canonical(abstract_runs(splice(o, p, p + 1, m, start - end))),
{
    let a = abstract_runs(o);
    lemma_start_le_end(o, p);
    lemma_decode_len(o);
    let mid = mid_runs(m, start_of(o, p));
    if m.len() > 0 {
        assert(mid
            =~= seq![
            Run {
                len: (o[p].end - (end - start) - start_of(o, p) + 1) as usize,
                value: o[p].value,
            },
        ]);
        if p > 0 {
            assert(a[p - 1].value != a[p].value);
        }
        if p + 1 < o.len() {
            assert(a[p].value != a[p + 1].value);
        }
        lemma_canonical_splice(a, p, p + 1, mid);
    } else {
        assert(mid =~= Seq::<Run<T>>::empty());
        if p > 0 && p + 1 < o.len() {
            lemma_start_le_end(o, p - 1);
            lemma_start_le_end(o, p + 1);
            lemma_ends_lt(o, p - 1, p);
            lemma_decode_at(o, p - 1, start - 1);
            lemma_decode_at(o, p + 1, end);
        }
        lemma_canonical_splice(a, p, p + 1, mid);
    }
}

/// The values at `start..end` begin in run `p` and end in a later run `q`:
/// what is left of the two runs stays, the runs between go, and the runs
/// after `q` move down.
#[verifier::spinoff_prover]
pub(crate) fn drain_across_runs<T>(
    runs: &mut Vec<InternalRun<T>>,
    p: usize,
    q: usize,
    start: usize,
    end: usize,
)
    requires
        ends_valid(old(runs)@),
        start < end,
        p < q,
        covers(old(runs)@, p as int, start as int),
        covers(old(runs)@, q as int, end - 1),
    ensures
        ends_valid(final(runs)@),
        decode(final(runs)@) == decode(old(runs)@).take(start as int) + decode(old(runs)@).skip(
            end as int,
        ),
        is_canonical(abstract_runs(old(runs)@)) && (start == 0 || end == coded_len(old(runs)@)
            || decode(old(runs)@)[start - 1] != decode(old(runs)@)[end as int]) ==> is_canonical(
            abstract_runs(final(runs)@),
        ),
        abstract_runs(final(runs)@) == runs_after_drain(
            abstract_runs(old(runs)@),
            start as int,
            end as int,
        ),
{
    let ghost o = old(runs)@;
    let c = end - start;
    proof {
        lemma_end_ge_index(o, q as int);
        assert forall|k: int| q + 1 <= k < o.len() implies #[trigger] o[k].end >= c by {
            reveal(ends_valid);
            assert(o[q as int].end < o[k].end);
        }
    }
    lower_ends(runs, q + 1, c);
    let ghost m0 = o.subrange(p as int, q + 1);
    proof {
        lemma_shift_from_as_splice(o, p as int, q + 1, start - end);
    }
    let s = if p == 0 {
        0
    } else {
        runs[p - 1].end + 1
    };
    let e = runs[q].end;
    let keep_head = start > s;
    let keep_tail = end <= e;
    let ghost hx = InternalRun { end: (start - 1) as usize, value: o[p as int].value };
    let ghost tx = InternalRun { end: (e - c) as usize, value: o[q as int].value };
    let ghost m1 = if keep_tail {
        m0.update(q - p, tx)
    } else {
        m0
    };
    if keep_tail {
        runs[q].end = e - c;
        proof {
            lemma_splice_update_mid(o, p as int, q + 1, m0, start - end, q - p, tx);
        }
    }
    let ghost m2 = if keep_head {
        m1.update(0, hx)
    } else {
        m1
    };
    if keep_head {
        runs[p].end = start - 1;
        proof {
            lemma_splice_update_mid(o, p as int, q + 1, m1, start - end, 0, hx);
        }
    }
    let lo = if keep_head {
        p + 1
    } else {
        p
    };
    let hi = if keep_tail {
        q
    } else {
        q + 1
    };
    remove_runs(runs, lo, hi);
    proof {
        lemma_splice_cut_mid(o, p as int, q + 1, m2, start - end, lo - p, hi - p);
        let hx = InternalRun { end: (start - 1) as usize, value: o[p as int].value };
        let tx = InternalRun { end: (e - c) as usize, value: o[q as int].value };
        lemma_drain_mid_shape(o, p as int, q as int, keep_head, keep_tail, hx, tx);
        let m = (if keep_head {
            seq![hx]
        } else {
            Seq::empty()
        }) + (if keep_tail {
            seq![tx]
        } else {
            Seq::empty()
        });
        lemma_drain_across_view(
            o,
            p as int,
            q as int,
            start as int,
            end as int,
            keep_head,
            keep_tail,
            m,
        );
    }
}

/// The runs kept of runs `p..=q`: the first one cut short to `hx` when
/// `keep_head`, and the last one cut short to `tx` when `keep_tail`.
proof fn lemma_drain_mid_shape<T>(
    o: Seq<InternalRun<T>>,
    p: int,
    q: int,
    keep_head: bool,
    keep_tail: bool,
    hx: InternalRun<T>,
    tx: InternalRun<T>,
)
    requires
        0 <= p < q < o.len(),
    ensures
        ({
            let m0 = o.subrange(p, q + 1);
            let m1 = if keep_tail {
                m0.update(q - p, tx)
            } else {
                m0
            };
            let m2 = if keep_head {
                m1.update(0, hx)
            } else {
                m1
            };
            let lo = if keep_head {
                p + 1
            } else {
                p
            };
            let hi = if keep_tail {
                q
            } else {
                q + 1
            };
            m2.take(lo - p) + m2.skip(hi - p) == (if keep_head {
                seq![hx]
            } else {
                Seq::empty()
            }) + (if keep_tail {
                seq![tx]
            } else {
                Seq::empty()
            })
        }),
{
    let m0 = o.subrange(p, q + 1);
    let m1 = if keep_tail {
        m0.update(q - p, tx)
    } else {
        m0
    };
    let m2 = if keep_head {
        m1.update(0, hx)
    } else {
        m1
    };
    let lo = if keep_head {
        p + 1
    } else {
        p
    };
    let hi = if keep_tail {
        q
    } else {
        q + 1
    };
    if keep_head {
        assert(m2.take(lo - p) =~= seq![hx]);
    } else {
        assert(m2.take(lo - p) =~= Seq::<InternalRun<T>>::empty());
    }
    if keep_tail {
        assert(m2.skip(hi - p) =~= seq![tx]);
    } else {
        assert(m2.skip(hi - p) =~= Seq::<InternalRun<T>>::empty());
    }
}

/// The values that draining from run `p` to run `q` leaves.
#[verifier::spinoff_prover]
proof fn lemma_drain_across_view<T>(
    o: Seq<InternalRun<T>>,
    p: int,
    q: int,
    start: int,
    end: int,
    keep_head: bool,
    keep_tail: bool,
    m: Seq<InternalRun<T>>,
)
    requires
        ends_valid(o),
        start < end,
        p < q,
        covers(o, p, start),
        covers(o, q, end - 1),
        keep_head == (start > start_of(o, p)),
        keep_tail == (end <= o[q].end),
        m == (if keep_head {
            seq![InternalRun { end: (start - 1) as usize, value: o[p].value }]
        } else {
            Seq::empty()
        }) + (if keep_tail {
            seq![InternalRun { end: (o[q].end - (end - start)) as usize, value: o[q].value }]
        } else {
            Seq::empty()
        }),
    ensures
        ends_valid(splice(o, p, q + 1, m, start - end)),
        decode(splice(o, p, q + 1, m, start - end)) == decode(o).take(start) + decode(o).skip(end),
        is_canonical(abstract_runs(o)) && (start == 0 || end == coded_len(o) || decode(o)[start - 1]
            != decode(o)[end]) ==> is_canonical(abstract_runs(splice(o, p, q + 1, m, start - end))),
        abstract_runs(splice(o, p, q + 1, m, start - end)) == runs_after_drain(
            abstract_runs(o),
            start,
            end,
        ),
{
    let a = abstract_runs(o);
    let j = q + 1;
    lemma_start_le_end(o, p);
    lemma_start_le_end(o, q);
    assert(o[p].end < o[q].end && (p > 0 ==> o[p - 1].end < o[p].end) && splice_fits(
        o,
        p,
        j,
        m,
        start - end,
    )) by {
        reveal(ends_valid);
        if j < o.len() {
            assert(o[q].end < o[j].end);
            if j < o.len() - 1 {
                assert(o[j].end < o[o.len() - 1].end);
            }
        }
    }
    lemma_splice(o, p, j, m, start - end);
    lemma_drain_across_mid(o, p, q, start, end, keep_head, keep_tail, m);
    if is_canonical(a) && (start == 0
        || end == coded_len(o) || decode(o)[start - 1] != decode(o)[end]) {
        lemma_drain_across_canonical(o, p, q, start, end, keep_head, keep_tail, m);
    }
    lemma_splice_drain(o, p, j, m, start, end);
}


/// What the runs left by draining from run `p` to run `q` stand for.
#[verifier::spinoff_prover]
proof fn lemma_drain_across_mid<T>(
    o: Seq<InternalRun<T>>,
    p: int,
    q: int,
    start: int,
    end: int,
    keep_head: bool,
    keep_tail: bool,
    m: Seq<InternalRun<T>>,
)
    requires
        ends_valid(o),
        start < end,
        p < q,
        covers(o, p, start),
        covers(o, q, end - 1),
        o[p].end < o[q].end,
        keep_head == (start > start_of(o, p)),
        keep_tail == (end <= o[q].end),
        m == (if keep_head {
            seq![InternalRun { end: (start - 1) as usize, value: o[p].value }]
        } else {
            Seq::empty()
        }) + (if keep_tail {
            seq![InternalRun { end: (o[q].end - (end - start)) as usize, value: o[q].value }]
        } else {
            Seq::empty()
        }),
    ensures
        flatten(mid_runs(m, start_of(o, p))) == flatten(abstract_runs(o).subrange(p, q + 1)).take(
            start - start_of(o, p),
        ) + flatten(abstract_runs(o).subrange(p, q + 1)).skip(end - start_of(o, p)),
        abstract_runs(o).take(p) + mid_runs(m, start_of(o, p)) + abstract_runs(o).skip(q + 1)
            == runs_after_drain(abstract_runs(o), start, end),
{
    let a = abstract_runs(o);
    let j = q + 1;
    lemma_start_le_end(o, p);
    lemma_start_le_end(o, q);
    // what the replaced runs stand for: the first run, those between, the last run
    let sub = a.subrange(p, j);
    let inner = a.subrange(p + 1, q);
    assert(sub =~= seq![a[p]] + inner + seq![a[q]]);
    lemma_flatten_concat(seq![a[p]] + inner, seq![a[q]]);
    lemma_flatten_concat(seq![a[p]], inner);
    lemma_flatten_small(a[p], a[p], a[p]);
    lemma_flatten_small(a[q], a[q], a[q]);
    lemma_subrange_len(o, p + 1, q);
    let mid = mid_runs(m, start_of(o, p));
    let hr = seq![Run { len: (start - start_of(o, p)) as usize, value: o[p].value }];
    let tr = seq![Run { len: (o[q].end - end + 1) as usize, value: o[q].value }];
    let hm: Seq<Run<T>> = if keep_head { hr } else { Seq::empty() };
    let tm: Seq<Run<T>> = if keep_tail { tr } else { Seq::empty() };
    assert(mid =~= hm + tm);
    reveal(runs_after_drain);
    lemma_run_of(o, p, start);
    lemma_run_of(o, q, end - 1);
    assert(a.take(p) + mid + a.skip(q + 1) =~= runs_after_drain(a, start, end));
    lemma_flatten_concat(hm, tm);
    lemma_flatten_small(hr[0], hr[0], hr[0]);
    lemma_flatten_small(tr[0], tr[0], tr[0]);
    assert(flatten(Seq::<Run<T>>::empty()) =~= Seq::<T>::empty());
    assert(flatten(mid) =~= flatten(sub).take(start - start_of(o, p)) + flatten(sub).skip(
        end - start_of(o, p),
    ));
}


/// One value is appended to the stored runs, by growing the last run or by
/// adding a run: when `==` on `T` is equality, the last run grows exactly when
/// it holds that value, and the runs are `push_run` of one value.
#[verifier::spinoff_prover]
pub(crate) proof fn lemma_append_one<T: PartialEq>(
    o: Seq<InternalRun<T>>,
    n: Seq<InternalRun<T>>,
    value: T,
    grown: bool,
)
    requires
        ends_valid(o),
        coded_len(o) < usize::MAX,
        grown ==> o.len() > 0 && n == grow_last(o, 1),
        !grown ==> n == o.push(InternalRun { end: coded_len(o) as usize, value: value }),
        vstd::laws_eq::obeys_concrete_eq::<T>() ==> (grown <==> (o.len() > 0 && o[o.len()
            - 1].value == value)),
    ensures
        ends_valid(n),
        coded_len(n) == coded_len(o) + 1,
        decode(n).len() == decode(o).len() + 1,
        vstd::laws_eq::obeys_concrete_eq::<T>() ==> {
            &&& abstract_runs(n) == push_run(abstract_runs(o), 1, value)
            &&& decode(n) == decode(o).push(value)
            &&& is_canonical(abstract_runs(o)) ==> is_canonical(abstract_runs(n))
        },
{
    lemma_decode_len(o);
    if grown {
        lemma_store_grow_last(o, 1);
        lemma_start_le_end(o, o.len() - 1);
    } else {
        lemma_store_push(o, InternalRun { end: coded_len(o) as usize, value: value });
    }
    lemma_decode_len(n);
    if vstd::laws_eq::obeys_concrete_eq::<T>() {
        let a = abstract_runs(o);
        if grown {
            assert(a.last() == Run { len: a[a.len() - 1].len, value: o[o.len() - 1].value });
        }
        assert(abstract_runs(n) == push_run(a, 1, value));
        lemma_push_run(a, 1, value);
        assert(decode(o) + repeat(1, value) =~= decode(o).push(value));
    }
}

/// Draining from run `p` to run `q` keeps the shortest coding, unless the
/// values on the two sides of the drained part are equal.
#[verifier::spinoff_prover]
proof fn lemma_drain_across_canonical<T>(
    o: Seq<InternalRun<T>>,
    p: int,
    q: int,
    start: int,
    end: int,
    keep_head: bool,
    keep_tail: bool,
    m: Seq<InternalRun<T>>,
)
    requires
        ends_valid(o),
        start < end,
        p < q,
        covers(o, p, start),
        covers(o, q, end - 1),
        keep_head == (start > start_of(o, p)),
        keep_tail == (end <= o[q].end),
        m == (if keep_head {
            seq![InternalRun { end: (start - 1) as usize, value: o[p].value }]
        } else {
            Seq::empty()
        }) + (if keep_tail {
            seq![InternalRun { end: (o[q].end - (end - start)) as usize, value: o[q].value }]
        } else {
            Seq::empty()
        }),
        is_canonical(abstract_runs(o)),
        start == 0 || end == coded_len(o) || decode(o)[start - 1] != decode(o)[end],
        ends_valid(splice(o, p, q + 1, m, start - end)),
        abstract_runs(splice(o, p, q + 1, m, start - end)) == abstract_runs(o).take(p) + mid_runs(
            m,
            start_of(o, p),
        ) + abstract_runs(o).skip(q + 1),
    ensures
        is_canonical(abstract_runs(splice(o, p, q + 1, m, start - end))),
{
    let a = abstract_runs(o);
    lemma_start_le_end(o, p);
    lemma_start_le_end(o, q);
    lemma_decode_len(o);
    lemma_ends_lt(o, p, q);
    let mid = mid_runs(m, start_of(o, p));
    let hr = seq![Run { len: (start - start_of(o, p)) as usize, value: o[p].value }];
    let tr = seq![Run { len: (o[q].end - end + 1) as usize, value: o[q].value }];
    let hm: Seq<Run<T>> = if keep_head { hr } else { Seq::empty() };
    let tm: Seq<Run<T>> = if keep_tail { tr } else { Seq::empty() };
    assert(mid =~= hm + tm);
    // the values right before and right after the drained part
    if keep_head {
        lemma_decode_at(o, p, start - 1);
    } else if p > 0 {
        lemma_start_le_end(o, p - 1);
        lemma_ends_lt(o, p - 1, p);
        lemma_decode_at(o, p - 1, start - 1);
    }
    if keep_tail {
        lemma_decode_at(o, q, end);
    } else if q + 1 < o.len() {
        lemma_start_le_end(o, q + 1);
        lemma_decode_at(o, q + 1, end);
    }
    if p > 0 {
        assert(a[p - 1].value != a[p].value);
    }
    if q + 1 < o.len() {
        assert(a[q].value != a[q + 1].value);
    }
    assert(is_canonical(mid)) by {
        assert forall|x: int, y: int|
            #![trigger mid[x], mid[y]]
            0 <= x && y == x + 1 && y < mid.len() implies mid[x].value != mid[y].value by {
            assert(mid[x].value == o[p].value && mid[y].value == o[q].value);
        }
    }
    lemma_canonical_splice(a, p, q + 1, mid);
}

} // verus!
