//! Which hourly averages have reached the CSV file.

use std::collections::HashSet;
use vstd::prelude::*;

verus! {

broadcast use vstd::std_specs::hash::group_hash_axioms;

/// A stretch of readings that is averaged: the second at which its hour starts, and
/// whether the deep sensor took them.
pub type HourKey = (i64, bool);

/// The set of averages that were written, one set of hours for each sensor.
#[derive(Debug)]
pub struct WrittenBuckets {
    shallow: HashSet<i64>,
    deep: HashSet<i64>,
}

impl View for WrittenBuckets {
    type V = Set<HourKey>;

    closed spec fn view(&self) -> Set<HourKey> {
        Set::new(
            |k: HourKey|
                if k.1 {
                    self.deep@.contains(k.0)
                } else {
                    self.shallow@.contains(k.0)
                },
        )
    }
}

impl WrittenBuckets {
    /// Nothing has been written.
    pub fn new() -> (written: Self)
        ensures
            written@ == Set::<HourKey>::empty(),
    {
        let written = WrittenBuckets { shallow: HashSet::new(), deep: HashSet::new() };
        assert(written@ =~= Set::<HourKey>::empty());
        written
    }

    /// Whether the average has been written.
    pub fn contains(&self, hour: i64, deep: bool) -> (found: bool)
        ensures
            found == self@.contains((hour, deep)),
    {
        if deep {
            self.deep.contains(&hour)
        } else {
            self.shallow.contains(&hour)
        }
    }

    /// Notes that the average is written. Says whether that is news.
    pub fn insert(&mut self, hour: i64, deep: bool) -> (news: bool)
        ensures
            final(self)@ == old(self)@.insert((hour, deep)),
            news == !old(self)@.contains((hour, deep)),
    {
        let news = if deep {
            self.deep.insert(hour)
        } else {
            self.shallow.insert(hour)
        };
        assert(self@ =~= old(self)@.insert((hour, deep)));
        news
    }
}

} // verus!
