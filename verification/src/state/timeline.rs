//! Bounded ordered timeline: a day-keyed map with a fixed capacity, held as
//! a flat array sorted by strictly increasing key.  It backs both the
//! pool's cumulative-index history and the decay schedules.

use crate::error::TrzRewardsError;
use vstd::prelude::*;

verus! {

/// Bounded ordered map from a timestamp key to a value.
#[derive(Debug)]
pub struct OrderedTimeline<V> {
    /// Entries sorted by strictly increasing key.
    pub entries: Vec<(u64, V)>,
    /// Fixed capacity chosen at construction.
    pub capacity: usize,
}

impl<V> View for OrderedTimeline<V> {
    type V = Seq<(u64, V)>;

    open spec fn view(&self) -> Seq<(u64, V)> {
        self.entries@
    }
}

/// Keys strictly increase along the sequence.
pub open spec fn tl_sorted<V>(s: Seq<(u64, V)>) -> bool {
    forall|i: int, j: int| 0 <= i < j < s.len() ==> s[i].0 < s[j].0
}

/// Value bound to `key`: the first entry with that key, if any.
pub open spec fn tl_get<V>(s: Seq<(u64, V)>, key: u64) -> Option<V>
    decreases s.len(),
{
    if s.len() == 0 {
        None
    } else if s[0].0 == key {
        Some(s[0].1)
    } else {
        tl_get(s.drop_first(), key)
    }
}

/// Value of the last entry whose key is strictly below `key`, if any.  On a
/// sorted sequence this is the floor lookup: the value at the greatest key
/// strictly less than `key`.
pub open spec fn tl_floor_strict<V>(s: Seq<(u64, V)>, key: u64) -> Option<V>
    decreases s.len(),
{
    if s.len() == 0 {
        None
    } else if s.last().0 < key {
        Some(s.last().1)
    } else {
        tl_floor_strict(s.drop_last(), key)
    }
}

/// The sequence with `key` bound to `value`: replaces the entry with that
/// key, or inserts a fresh one at its sorted position.
pub open spec fn tl_upsert<V>(s: Seq<(u64, V)>, key: u64, value: V) -> Seq<(u64, V)>
    decreases s.len(),
{
    if s.len() == 0 {
        seq![(key, value)]
    } else if key < s[0].0 {
        seq![(key, value)] + s
    } else if key == s[0].0 {
        seq![(key, value)] + s.drop_first()
    } else {
        seq![s[0]] + tl_upsert(s.drop_first(), key, value)
    }
}

/// Number of leading entries whose key is at most `day`.
pub open spec fn tl_prefix_le<V>(s: Seq<(u64, V)>, day: u64) -> int
    decreases s.len(),
{
    if s.len() == 0 || s[0].0 > day {
        0
    } else {
        1 + tl_prefix_le(s.drop_first(), day)
    }
}

/// Outcome of merging `delta` into the entry at `key` by addition.
pub open spec fn spec_insert_or_add(s: Seq<(u64, u64)>, cap: int, key: u64, delta: u64) -> Result<
    Seq<(u64, u64)>,
    TrzRewardsError,
> {
    let existing: u64 = match tl_get(s, key) {
        Some(v) => v,
        None => 0u64,
    };
    if existing + delta > u64::MAX {
        Err(TrzRewardsError::MathOverflow)
    } else if tl_get(s, key) is None && s.len() >= cap {
        Err(TrzRewardsError::CapacityExceeded)
    } else {
        Ok(tl_upsert(s, key, (existing + delta) as u64))
    }
}

/// Outcome of reducing the entry at `key` by `delta`; the entry must exist
/// and hold at least `delta`.
pub open spec fn spec_sub_at(s: Seq<(u64, u64)>, key: u64, delta: u64) -> Result<
    Seq<(u64, u64)>,
    TrzRewardsError,
> {
    match tl_get(s, key) {
        None => Err(TrzRewardsError::NoWeightedStakeModifiersAtADate),
        Some(v) => {
            if v < delta {
                Err(TrzRewardsError::MathOverflow)
            } else {
                Ok(tl_upsert(s, key, (v - delta) as u64))
            }
        },
    }
}

/// An upsert keeps the keys strictly sorted.
pub proof fn lemma_upsert_sorted<V>(s: Seq<(u64, V)>, key: u64, value: V)
    requires
        tl_sorted(s),
    ensures
        tl_sorted(tl_upsert(s, key, value)),
    decreases s.len(),
{
    if s.len() == 0 {
    } else if key < s[0].0 {
        let r = seq![(key, value)] + s;
        assert forall|i: int, j: int| 0 <= i < j < r.len() implies r[i].0 < r[j].0 by {
            if i > 0 {
                assert(r[i] == s[i - 1]);
                assert(r[j] == s[j - 1]);
            }
        }
    } else if key == s[0].0 {
        let r = seq![(key, value)] + s.drop_first();
        assert forall|i: int, j: int| 0 <= i < j < r.len() implies r[i].0 < r[j].0 by {
            if i > 0 {
                assert(r[i] == s[i]);
                assert(r[j] == s[j]);
            } else {
                assert(r[j] == s[j]);
                assert(s[0].0 < s[j].0);
            }
        }
    } else {
        assert(tl_sorted(s.drop_first())) by {
            assert forall|i: int, j: int|
                0 <= i < j < s.drop_first().len() implies s.drop_first()[i].0
                < s.drop_first()[j].0 by {
                assert(s.drop_first()[i] == s[i + 1]);
                assert(s.drop_first()[j] == s[j + 1]);
            }
        }
        lemma_upsert_sorted(s.drop_first(), key, value);
        lemma_upsert_bounds(s.drop_first(), key, value);
        let t = tl_upsert(s.drop_first(), key, value);
        let r = seq![s[0]] + t;
        assert forall|i: int, j: int| 0 <= i < j < r.len() implies r[i].0 < r[j].0 by {
            if i > 0 {
                assert(r[i] == t[i - 1]);
                assert(r[j] == t[j - 1]);
            } else {
                assert(r[j] == t[j - 1]);
                if t[j - 1].0 != key {
                    assert(exists|m: int|
                        0 <= m < s.drop_first().len() && s.drop_first()[m] == t[j - 1]);
                    let m = choose|m: int|
                        0 <= m < s.drop_first().len() && s.drop_first()[m] == t[j - 1];
                    assert(s.drop_first()[m] == s[m + 1]);
                    assert(s[0].0 < s[m + 1].0);
                }
            }
        }
    }
}

/// Every entry of an upsert either carries `key` or comes from the input.
pub proof fn lemma_upsert_bounds<V>(s: Seq<(u64, V)>, key: u64, value: V)
    ensures
        forall|j: int|
            0 <= j < tl_upsert(s, key, value).len() ==> (#[trigger] tl_upsert(s, key, value)[j].0
                == key || exists|m: int| 0 <= m < s.len() && s[m] == tl_upsert(s, key, value)[j]),
    decreases s.len(),
{
    if s.len() == 0 {
    } else if key < s[0].0 {
        let r = seq![(key, value)] + s;
        assert forall|j: int|
            0 <= j < r.len() && r[j].0 != key implies exists|m: int|
            0 <= m < s.len() && s[m] == r[j] by {
            assert(r[j] == s[j - 1]);
        }
    } else if key == s[0].0 {
        let r = seq![(key, value)] + s.drop_first();
        assert forall|j: int|
            0 <= j < r.len() && r[j].0 != key implies exists|m: int|
            0 <= m < s.len() && s[m] == r[j] by {
            assert(r[j] == s.drop_first()[j - 1]);
            assert(s.drop_first()[j - 1] == s[j]);
        }
    } else {
        lemma_upsert_bounds(s.drop_first(), key, value);
        let t = tl_upsert(s.drop_first(), key, value);
        let r = seq![s[0]] + t;
        assert forall|j: int|
            0 <= j < r.len() && r[j].0 != key implies exists|m: int|
            0 <= m < s.len() && s[m] == r[j] by {
            if j == 0 {
                assert(r[0] == s[0]);
            } else {
                assert(r[j] == t[j - 1]);
                let m = choose|m: int|
                    0 <= m < s.drop_first().len() && s.drop_first()[m] == t[j - 1];
                assert(s.drop_first()[m] == s[m + 1]);
            }
        }
    }
}

/// An upsert binds `key`: looking it up afterwards finds `value`.
pub proof fn lemma_upsert_get_key<V>(s: Seq<(u64, V)>, key: u64, value: V)
    ensures
        tl_get(tl_upsert(s, key, value), key) == Some(value),
    decreases s.len(),
{
    if s.len() == 0 {
    } else if key < s[0].0 {
        assert(tl_upsert(s, key, value)[0] == (key, value));
    } else if key == s[0].0 {
        assert(tl_upsert(s, key, value)[0] == (key, value));
    } else {
        lemma_upsert_get_key(s.drop_first(), key, value);
        let r = seq![s[0]] + tl_upsert(s.drop_first(), key, value);
        assert(r[0] == s[0]);
        assert(r.drop_first() =~= tl_upsert(s.drop_first(), key, value));
    }
}

/// The due prefix of a schedule: every entry before the cut has a day at
/// most `day`, and the first entry past the cut (if any) lies later.
pub proof fn lemma_prefix_le_props<V>(s: Seq<(u64, V)>, day: u64)
    ensures
        0 <= tl_prefix_le(s, day) <= s.len(),
        forall|i: int| 0 <= i < tl_prefix_le(s, day) ==> s[i].0 <= day,
        tl_prefix_le(s, day) < s.len() ==> s[tl_prefix_le(s, day)].0 > day,
    decreases s.len(),
{
    if s.len() == 0 || s[0].0 > day {
    } else {
        lemma_prefix_le_props(s.drop_first(), day);
        assert forall|i: int| 0 <= i < tl_prefix_le(s, day) implies s[i].0 <= day by {
            if i > 0 {
                assert(s.drop_first()[i - 1] == s[i]);
            }
        }
        if tl_prefix_le(s, day) < s.len() {
            assert(s.drop_first()[tl_prefix_le(s, day) - 1] == s[tl_prefix_le(s, day)]);
        }
    }
}

/// Looking a key up past a prefix of smaller keys finds the same entry as
/// looking it up in the whole sequence.
pub proof fn lemma_get_skip_high<V>(s: Seq<(u64, V)>, n: int, key: u64)
    requires
        0 <= n <= s.len(),
        forall|i: int| 0 <= i < n ==> s[i].0 < key,
    ensures
        tl_get(s.skip(n), key) == tl_get(s, key),
    decreases n,
{
    if n == 0 {
        assert(s.skip(0) =~= s);
    } else {
        assert(s.drop_first().skip(n - 1) =~= s.skip(n));
        assert(forall|i: int| 0 <= i < n - 1 ==> s.drop_first()[i].0 < key);
        lemma_get_skip_high(s.drop_first(), n - 1, key);
    }
}

/// An upsert leaves the binding of every other key untouched.
pub proof fn lemma_upsert_get_other<V>(s: Seq<(u64, V)>, key: u64, value: V, other: u64)
    requires
        other != key,
    ensures
        tl_get(tl_upsert(s, key, value), other) == tl_get(s, other),
    decreases s.len(),
{
    let r = tl_upsert(s, key, value);
    if s.len() == 0 {
        assert(r =~= seq![(key, value)]);
        assert(r[0] == (key, value));
        assert(r.drop_first().len() == 0);
        assert(tl_get(r, other) == tl_get(r.drop_first(), other));
        assert(tl_get(r, other) is None);
    } else if key < s[0].0 {
        assert(r == seq![(key, value)] + s);
        assert(r[0] == (key, value));
        assert(r.drop_first() =~= s);
        assert(tl_get(r, other) == tl_get(s, other));
    } else if key == s[0].0 {
        assert(r == seq![(key, value)] + s.drop_first());
        assert(r[0] == (key, value));
        assert(r.drop_first() =~= s.drop_first());
        assert(tl_get(r, other) == tl_get(s.drop_first(), other));
        assert(tl_get(s, other) == tl_get(s.drop_first(), other));
    } else {
        lemma_upsert_get_other(s.drop_first(), key, value, other);
        assert(r == seq![s[0]] + tl_upsert(s.drop_first(), key, value));
        assert(r[0] == s[0]);
        assert(r.drop_first() =~= tl_upsert(s.drop_first(), key, value));
        if s[0].0 == other {
            assert(tl_get(r, other) == Some(s[0].1));
            assert(tl_get(s, other) == Some(s[0].1));
        } else {
            assert(tl_get(r, other) == tl_get(tl_upsert(s.drop_first(), key, value), other));
            assert(tl_get(s, other) == tl_get(s.drop_first(), other));
        }
    }
}

/// An upsert that replaces an existing entry of a sorted sequence keeps
/// its length.
pub proof fn lemma_upsert_len_existing<V>(s: Seq<(u64, V)>, key: u64, value: V)
    requires
        tl_sorted(s),
        tl_get(s, key) is Some,
    ensures
        tl_upsert(s, key, value).len() == s.len(),
    decreases s.len(),
{
    if s.len() == 0 {
    } else if key < s[0].0 {
        assert(tl_sorted(s.drop_first())) by {
            assert(forall|i: int, j: int|
                0 <= i < j < s.drop_first().len() ==> s.drop_first()[i] == s[i + 1]
                    && s.drop_first()[j] == s[j + 1]);
        }
        assert forall|i: int| 0 <= i < s.len() implies s[i].0 != key by {
            if i > 0 {
                assert(s[0].0 < s[i].0);
            }
        }
        lemma_get_at(s, key, s.len() as int);
        assert(false);
    } else if key == s[0].0 {
    } else {
        assert(tl_sorted(s.drop_first())) by {
            assert forall|i: int, j: int|
                0 <= i < j < s.drop_first().len() implies s.drop_first()[i].0
                < s.drop_first()[j].0 by {
                assert(s.drop_first()[i] == s[i + 1]);
                assert(s.drop_first()[j] == s[j + 1]);
            }
        }
        lemma_upsert_len_existing(s.drop_first(), key, value);
    }
}

/// Dropping leading entries keeps the keys strictly sorted.
pub proof fn lemma_skip_sorted<V>(s: Seq<(u64, V)>, n: int)
    requires
        tl_sorted(s),
        0 <= n <= s.len(),
    ensures
        tl_sorted(s.skip(n)),
{
    assert forall|i: int, j: int|
        0 <= i < j < s.skip(n).len() implies s.skip(n)[i].0 < s.skip(n)[j].0 by {
        assert(s.skip(n)[i] == s[n + i]);
        assert(s.skip(n)[j] == s[n + j]);
    }
}

/// Links the recursive upsert to the position found by a left-to-right
/// scan: all entries before `j` have keys below `key`, and entry `j` (if it
/// exists) is the first at or above it.
pub proof fn lemma_upsert_at<V>(s: Seq<(u64, V)>, key: u64, value: V, j: int)
    requires
        0 <= j <= s.len(),
        forall|i: int| 0 <= i < j ==> s[i].0 < key,
        j < s.len() ==> s[j].0 >= key,
    ensures
        j < s.len() && s[j].0 == key ==> tl_upsert(s, key, value) == s.update(j, (key, value)),
        (j == s.len() || s[j].0 > key) ==> tl_upsert(s, key, value) == s.take(j) + seq![
            (key, value),
        ] + s.skip(j),
    decreases s.len(),
{
    if s.len() == 0 {
        assert(tl_upsert(s, key, value) =~= s.take(0) + seq![(key, value)] + s.skip(0));
    } else if j == 0 {
        if s[0].0 == key {
            assert(tl_upsert(s, key, value) =~= s.update(0, (key, value)));
        } else {
            assert(tl_upsert(s, key, value) =~= s.take(0) + seq![(key, value)] + s.skip(0));
        }
    } else {
        lemma_upsert_at(s.drop_first(), key, value, j - 1);
        let t = tl_upsert(s.drop_first(), key, value);
        if j < s.len() && s[j].0 == key {
            assert(s.drop_first()[j - 1] == s[j]);
            assert(t == s.drop_first().update(j - 1, (key, value)));
            assert(seq![s[0]] + t =~= s.update(j, (key, value)));
        } else {
            assert(t == s.drop_first().take(j - 1) + seq![(key, value)] + s.drop_first().skip(
                j - 1,
            ));
            assert(s.drop_first().take(j - 1) =~= s.take(j).drop_first());
            assert(s.drop_first().skip(j - 1) =~= s.skip(j));
            assert(seq![s[0]] + t =~= s.take(j) + seq![(key, value)] + s.skip(j));
        }
    }
}

/// Links the recursive lookup to the position found by a left-to-right
/// scan.
pub proof fn lemma_get_at<V>(s: Seq<(u64, V)>, key: u64, j: int)
    requires
        0 <= j <= s.len(),
        forall|i: int| 0 <= i < j ==> s[i].0 != key,
        j < s.len() ==> s[j].0 == key,
    ensures
        j < s.len() ==> tl_get(s, key) == Some(s[j].1),
        j == s.len() ==> tl_get(s, key) is None,
    decreases s.len(),
{
    if s.len() == 0 {
    } else if j == 0 {
    } else {
        assert(forall|i: int| 0 <= i < j - 1 ==> s.drop_first()[i].0 != key);
        lemma_get_at(s.drop_first(), key, j - 1);
        if j < s.len() {
            assert(s.drop_first()[j - 1] == s[j]);
        }
    }
}

impl<V: Copy> OrderedTimeline<V> {
    /// Empty timeline with the given fixed capacity.
    pub fn new(capacity: usize) -> (r: OrderedTimeline<V>)
        ensures
            r@ =~= Seq::<(u64, V)>::empty(),
            r.capacity == capacity,
    {
        OrderedTimeline { entries: Vec::new(), capacity }
    }

    /// Number of entries.
    pub fn len(&self) -> (r: usize)
        ensures
            r == self@.len(),
    {
        self.entries.len()
    }

    /// Key of the entry at position `i`.
    pub fn key_at(&self, i: usize) -> (r: u64)
        requires
            i < self@.len(),
        ensures
            r == self@[i as int].0,
    {
        self.entries[i].0
    }

    /// Value of the entry at position `i`.
    pub fn value_at(&self, i: usize) -> (r: V)
        requires
            i < self@.len(),
        ensures
            r == self@[i as int].1,
    {
        self.entries[i].1
    }

    /// Replaces the value of the entry at position `i`, keeping its key.
    pub fn set_value_at(&mut self, i: usize, value: V)
        requires
            i < old(self)@.len(),
        ensures
            final(self)@ == old(self)@.update(i as int, (old(self)@[i as int].0, value)),
            final(self).capacity == old(self).capacity,
    {
        let key = self.entries[i].0;
        self.entries[i] = (key, value);
    }

    /// Value bound to `key`, if any.
    pub fn get(&self, key: u64) -> (r: Option<V>)
        ensures
            r == tl_get(self@, key),
    {
        let ghost s = self@;
        proof {
            assert(s.skip(0) =~= s);
        }
        let n = self.entries.len();
        let mut i: usize = 0;
        while i < n
            invariant
                0 <= i <= n,
                n == s.len(),
                s == self@,
                tl_get(s, key) == tl_get(s.skip(i as int), key),
                forall|m: int| 0 <= m < i ==> s[m].0 != key,
            decreases n - i,
        {
            if self.entries[i].0 == key {
                proof {
                    lemma_get_at(s, key, i as int);
                }
                return Some(self.entries[i].1);
            }
            proof {
                assert(s.skip(i as int).drop_first() =~= s.skip(i as int + 1));
            }
            i = i + 1;
        }
        proof {
            lemma_get_at(s, key, n as int);
        }
        None
    }

    /// Whether an entry with `key` exists.
    pub fn contains_key(&self, key: u64) -> (r: bool)
        ensures
            r == (tl_get(self@, key) is Some),
    {
        self.get(key).is_some()
    }

    /// Value at the greatest key strictly below `key`, if any.
    pub fn floor_strict(&self, key: u64) -> (r: Option<V>)
        ensures
            r == tl_floor_strict(self@, key),
    {
        let ghost s = self@;
        proof {
            assert(s.take(s.len() as int) =~= s);
        }
        let mut i: usize = self.entries.len();
        while i > 0
            invariant
                0 <= i <= s.len(),
                s == self@,
                tl_floor_strict(s, key) == tl_floor_strict(s.take(i as int), key),
            decreases i,
        {
            proof {
                assert(s.take(i as int).last() == s[i - 1]);
                assert(s.take(i as int).drop_last() =~= s.take(i as int - 1));
            }
            if self.entries[i - 1].0 < key {
                return Some(self.entries[i - 1].1);
            }
            i = i - 1;
        }
        None
    }

    /// Value bound to `key` among the entries from position `start` on.
    pub fn get_from(&self, start: usize, key: u64) -> (r: Option<V>)
        requires
            start <= self@.len(),
        ensures
            r == tl_get(self@.skip(start as int), key),
    {
        let ghost s = self@;
        let ghost suffix = self@.skip(start as int);
        let n = self.entries.len();
        let mut i: usize = start;
        proof {
            assert(suffix.skip(0) =~= suffix);
        }
        while i < n
            invariant
                start <= i <= n,
                n == s.len(),
                s == self@,
                suffix == s.skip(start as int),
                tl_get(suffix, key) == tl_get(suffix.skip(i - start), key),
                forall|m: int| start <= m < i ==> s[m].0 != key,
            decreases n - i,
        {
            proof {
                assert(suffix.skip(i - start)[0] == s[i as int]);
                assert(suffix.skip(i - start).drop_first() =~= suffix.skip(i + 1 - start));
            }
            if self.entries[i].0 == key {
                return Some(self.entries[i].1);
            }
            i = i + 1;
        }
        proof {
            assert(suffix.skip(n - start) =~= Seq::<(u64, V)>::empty());
        }
        None
    }

    /// Removes the first `n` entries.
    pub fn remove_prefix(&mut self, n: usize)
        requires
            n <= old(self)@.len(),
        ensures
            final(self)@ == old(self)@.skip(n as int),
            final(self).capacity == old(self).capacity,
    {
        let ghost s = old(self)@;
        let mut removed: usize = 0;
        while removed < n
            invariant
                0 <= removed <= n,
                n <= s.len(),
                self@ == s.skip(removed as int),
                self.capacity == old(self).capacity,
            decreases n - removed,
        {
            proof {
                assert(s.skip(removed as int).remove(0) =~= s.skip(removed as int + 1));
            }
            self.entries.remove(0);
            removed = removed + 1;
        }
    }

    /// Binds `key` to `value`: replaces an existing entry, or inserts a
    /// fresh one at its sorted position if the capacity allows it.
    pub fn set(&mut self, key: u64, value: V) -> (r: Result<(), TrzRewardsError>)
        requires
            tl_sorted(old(self)@),
        ensures
            final(self).capacity == old(self).capacity,
            r is Ok ==> (tl_get(old(self)@, key) is Some || old(self)@.len()
                < old(self).capacity) && final(self)@ == tl_upsert(old(self)@, key, value),
            r is Err ==> r == Err::<(), TrzRewardsError>(TrzRewardsError::CapacityExceeded)
                && tl_get(old(self)@, key) is None && old(self)@.len() >= old(self).capacity
                && final(self)@ == old(self)@,
            tl_sorted(final(self)@),
    {
        let ghost s = self@;
        let n = self.entries.len();
        let mut j: usize = 0;
        while j < n && self.entries[j].0 < key
            invariant
                0 <= j <= n,
                n == s.len(),
                s == self@,
                forall|i: int| 0 <= i < j ==> s[i].0 < key,
            decreases n - j,
        {
            j = j + 1;
        }
        proof {
            lemma_upsert_at(s, key, value, j as int);
        }
        if j < n && self.entries[j].0 == key {
            proof {
                lemma_get_at(s, key, j as int);
                lemma_upsert_sorted(s, key, value);
            }
            self.entries[j] = (key, value);
            Ok(())
        } else {
            proof {
                assert forall|i: int| 0 <= i < s.len() implies s[i].0 != key by {
                    if i >= j {
                        assert(s[j as int].0 < s[i].0 || i == j);
                    }
                }
                lemma_get_at(s, key, n as int);
            }
            if n >= self.capacity {
                return Err(TrzRewardsError::CapacityExceeded);
            }
            proof {
                lemma_upsert_sorted(s, key, value);
            }
            self.entries.insert(j, (key, value));
            proof {
                assert(self@ =~= s.take(j as int) + seq![(key, value)] + s.skip(j as int));
            }
            Ok(())
        }
    }
}

impl OrderedTimeline<u64> {
    /// Adds `delta` to the value at `key`, inserting the entry if it is
    /// absent and the capacity allows it.
    pub fn insert_or_add(&mut self, key: u64, delta: u64) -> (r: Result<(), TrzRewardsError>)
        requires
            tl_sorted(old(self)@),
        ensures
            final(self).capacity == old(self).capacity,
            tl_sorted(final(self)@),
            match spec_insert_or_add(old(self)@, old(self).capacity as int, key, delta) {
                Ok(s2) => r is Ok && final(self)@ == s2,
                Err(e) => r == Err::<(), TrzRewardsError>(e) && final(self)@ == old(self)@,
            },
    {
        let existing: u64 = match self.get(key) {
            Some(v) => v,
            None => 0,
        };
        let merged = match existing.checked_add(delta) {
            Some(v) => v,
            None => {
                return Err(TrzRewardsError::MathOverflow);
            },
        };
        self.set(key, merged)
    }

    /// Reduces the value at `key` by `delta`; fails if no entry is
    /// scheduled at that key or the entry is smaller than `delta`.
    pub fn sub_at(&mut self, key: u64, delta: u64) -> (r: Result<(), TrzRewardsError>)
        requires
            tl_sorted(old(self)@),
        ensures
            final(self).capacity == old(self).capacity,
            tl_sorted(final(self)@),
            match spec_sub_at(old(self)@, key, delta) {
                Ok(s2) => r is Ok && final(self)@ == s2,
                Err(e) => r == Err::<(), TrzRewardsError>(e) && final(self)@ == old(self)@,
            },
    {
        let existing: u64 = match self.get(key) {
            Some(v) => v,
            None => {
                return Err(TrzRewardsError::NoWeightedStakeModifiersAtADate);
            },
        };
        if existing < delta {
            return Err(TrzRewardsError::MathOverflow);
        }
        let reduced = existing - delta;
        match self.set(key, reduced) {
            Ok(()) => Ok(()),
            Err(e) => {
                proof {
                    assert(false);
                }
                Err(e)
            },
        }
    }
}

} // verus!
