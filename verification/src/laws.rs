use vstd::prelude::*;
use crate::rle_vec::RleVec;

verus! {

/// Removing the value just put in at `index` gives back that value and the
/// values as they were: what `RleVec::insert` does, `RleVec::remove` at the
/// same index undoes.
pub proof fn lemma_remove_undoes_insert<T>(s: Seq<T>, index: int, value: T)
    requires
        0 <= index <= s.len(),
    ensures
        s.insert(index, value)[index] == value,
        s.insert(index, value).remove(index) == s,
{
    assert(s.insert(index, value).remove(index) =~= s);
}

/// Putting back the value just removed at `index` gives the values as they
/// were: what `RleVec::remove` does, `RleVec::insert` of the returned value at
/// the same index undoes.
pub proof fn lemma_insert_undoes_remove<T>(s: Seq<T>, index: int)
    requires
        0 <= index < s.len(),
    ensures
        s.remove(index).insert(index, s[index]) == s,
{
    assert(s.remove(index).insert(index, s[index]) =~= s);
}

/// Keeping the first `s.len()` values after appending `t` gives `s` back:
/// `RleVec::truncate` undoes `RleVec::push_n` and `RleVec::extend`.
pub proof fn lemma_truncate_undoes_append<T>(s: Seq<T>, t: Seq<T>)
    ensures
        (s + t).take(s.len() as int) == s,
{
    assert((s + t).take(s.len() as int) =~= s);
}

/// Draining the values just put in at `index` gives the values as they were:
/// `RleVec::drain` undoes `RleVec::insert`.
pub proof fn lemma_drain_undoes_insert<T>(s: Seq<T>, index: int, value: T)
    requires
        0 <= index <= s.len(),
    ensures
        s.insert(index, value).take(index) + s.insert(index, value).skip(index + 1) == s,
{
    assert(s.insert(index, value).take(index) + s.insert(index, value).skip(index + 1) =~= s);
}

/// Setting the value at `index` twice keeps the second value, and setting the
/// value that is already there changes nothing: as `RleVec::set` does.
pub proof fn lemma_set_twice<T>(s: Seq<T>, index: int, a: T, b: T)
    requires
        0 <= index < s.len(),
    ensures
        s.update(index, a).update(index, b) == s.update(index, b),
        s.update(index, s[index]) == s,
{
    assert(s.update(index, a).update(index, b) =~= s.update(index, b));
    assert(s.update(index, s[index]) =~= s);
}

/// Removing the value just put in at `index` gives back the very runs there
/// were, for an `RleVec` in shortest coding: `RleVec::insert` and
/// `RleVec::remove` keep the shortest coding (for values whose `==` and
/// `clone` are plain), and two `RleVec`s in shortest coding that hold the same
/// values hold the same runs.
pub proof fn lemma_remove_undoes_insert_on_runs<T>(
    before: RleVec<T>,
    inserted: RleVec<T>,
    after: RleVec<T>,
    index: int,
    value: T,
)
    requires
        before.well_formed(),
        inserted.well_formed(),
        after.well_formed(),
        0 <= index <= before@.len(),
        before.is_canonical(),
        inserted@ == before@.insert(index, value),
        inserted.is_canonical(),
        after@ == inserted@.remove(index),
        after.is_canonical(),
    ensures
        after.run_list() == before.run_list(),
{
    lemma_remove_undoes_insert(before@, index, value);
    RleVec::lemma_same_values_same_runs(&after, &before);
}

} // verus!
