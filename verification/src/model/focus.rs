use vstd::prelude::*;

verus! {

/// A day of the week.
#[derive(Debug, PartialEq, Eq, Hash, Clone, Copy, Structural)]
pub enum Weekday {
    Mon,
    Tue,
    Wed,
    Thu,
    Fri,
    Sat,
    Sun,
}

/// A set of days of the week.
#[derive(Debug, PartialEq, Eq, Clone, Copy, Default, Structural)]
pub struct WeekdaySet {
    pub mon: bool,
    pub tue: bool,
    pub wed: bool,
    pub thu: bool,
    pub fri: bool,
    pub sat: bool,
    pub sun: bool,
}

impl WeekdaySet {
    /// The days in the set.
    pub open spec fn days(self) -> Set<Weekday> {
        Set::new(|d: Weekday| self.has(d))
    }

    pub open spec fn has(self, d: Weekday) -> bool {
        match d {
            Weekday::Mon => self.mon,
            Weekday::Tue => self.tue,
            Weekday::Wed => self.wed,
            Weekday::Thu => self.thu,
            Weekday::Fri => self.fri,
            Weekday::Sat => self.sat,
            Weekday::Sun => self.sun,
        }
    }

    /// The empty set.
    pub fn new() -> (res: WeekdaySet)
        ensures
            res.days() == Set::<Weekday>::empty(),
    {
        let res = WeekdaySet { mon: false, tue: false, wed: false, thu: false, fri: false, sat: false, sun: false };
        assert(res.days() =~= Set::<Weekday>::empty());
        res
    }

    /// The set with these days.
    pub fn of(days: &[Weekday]) -> (res: WeekdaySet)
        ensures
            forall|d: Weekday| #[trigger] res.days().contains(d) <==> days@.contains(d),
    {
        let mut res = WeekdaySet::new();
        let mut i: usize = 0;
        while i < days.len()
            invariant
                0 <= i <= days@.len(),
                forall|d: Weekday| #[trigger] res.days().contains(d) <==> days@.take(i as int).contains(d),
            decreases days@.len() - i,
        {
            res.insert(days[i]);
            proof {
                let t = days@.take(i + 1);
                assert(t =~= days@.take(i as int).push(days@[i as int]));
                assert forall|d: Weekday| #[trigger] res.days().contains(d) <==> t.contains(d) by {
                    if d == days@[i as int] {
                        assert(t[i as int] == d);
                    } else if t.contains(d) {
                        let k = choose|k: int| 0 <= k < t.len() && t[k] == d;
                        assert(days@.take(i as int)[k] == d);
                    } else if days@.take(i as int).contains(d) {
                        let k = choose|k: int| 0 <= k < i && days@.take(i as int)[k] == d;
                        assert(t[k] == d);
                    }
                }
            }
            i += 1;
        }
        assert(days@.take(days@.len() as int) =~= days@);
        res
    }

    /// Whether `d` is in the set.
    pub fn contains(&self, d: Weekday) -> (res: bool)
        ensures
            res == self.days().contains(d),
    {
        match d {
            Weekday::Mon => self.mon,
            Weekday::Tue => self.tue,
            Weekday::Wed => self.wed,
            Weekday::Thu => self.thu,
            Weekday::Fri => self.fri,
            Weekday::Sat => self.sat,
            Weekday::Sun => self.sun,
        }
    }

    /// Adds `d`.
    pub fn insert(&mut self, d: Weekday)
        ensures
            final(self).days() == old(self).days().insert(d),
    {
        match d {
            Weekday::Mon => self.mon = true,
            Weekday::Tue => self.tue = true,
            Weekday::Wed => self.wed = true,
            Weekday::Thu => self.thu = true,
            Weekday::Fri => self.fri = true,
            Weekday::Sat => self.sat = true,
            Weekday::Sun => self.sun = true,
        }
        assert(self.days() =~= old(self).days().insert(d));
    }

    /// Whether the set is empty.
    pub fn is_empty(&self) -> (res: bool)
        ensures
            res == (self.days() == Set::<Weekday>::empty()),
    {
        let res = !(self.mon || self.tue || self.wed || self.thu || self.fri || self.sat || self.sun);
        proof {
            if !res {
                let d = if self.mon { Weekday::Mon } else if self.tue { Weekday::Tue } else if self.wed { Weekday::Wed }
                    else if self.thu { Weekday::Thu } else if self.fri { Weekday::Fri } else if self.sat { Weekday::Sat }
                    else { Weekday::Sun };
                assert(self.days().contains(d));
            } else {
                assert(self.days() =~= Set::<Weekday>::empty());
            }
        }
        res
    }
}

/// A time of day, to the nanosecond.
#[derive(Debug, PartialEq, Eq, Clone, Copy, Structural)]
pub struct TimeOfDay {
    pub hour: u32,
    pub minute: u32,
    pub second: u32,
    pub nano: u32,
}

/// What a focus is limited to: some days of the week, or a span of the day
/// from `start` to `end` (which may wrap around midnight).
#[derive(Debug, PartialEq, Eq, Clone, Copy, Structural)]
pub enum FocusPredicate {
    Weekdays(WeekdaySet),
    TimeOfDayRange { start: TimeOfDay, end: TimeOfDay },
}

} // verus!
