use vstd::prelude::*;
use crate::model::task::TaskId;

verus! {

/// The number of entries of `s` whose layer is below `d`.
pub open spec fn count_below(s: Seq<(TaskId, usize)>, d: int) -> nat
    decreases s.len(),
{
    if s.len() == 0 {
        0
    } else {
        count_below(s.drop_last(), d) + if (s.last().1 as int) < d { 1nat } else { 0nat }
    }
}

/// Entries are ordered by layer.
pub open spec fn layers_sorted(s: Seq<(TaskId, usize)>) -> bool {
    forall|i: int, j: int| 0 <= i < j < s.len() ==> #[trigger] s[i].1 <= #[trigger] s[j].1
}

/// The tasks of `s`, in order.
pub open spec fn entry_ids(s: Seq<(TaskId, usize)>) -> Seq<TaskId> {
    s.map_values(|e: (TaskId, usize)| e.0)
}

pub proof fn lemma_count_below_bounds(s: Seq<(TaskId, usize)>, d: int)
    ensures
        count_below(s, d) <= s.len(),
    decreases s.len(),
{
    if s.len() > 0 {
        lemma_count_below_bounds(s.drop_last(), d);
    }
}

/// In a sorted sequence, the entries below layer `d` are exactly the first `count_below(s, d)`.
pub proof fn lemma_count_below_sorted(s: Seq<(TaskId, usize)>, d: int)
    requires
        layers_sorted(s),
    ensures
        count_below(s, d) <= s.len(),
        forall|i: int| 0 <= i < count_below(s, d) ==> (#[trigger] s[i].1 as int) < d,
        forall|i: int| count_below(s, d) <= i < s.len() ==> (#[trigger] s[i].1 as int) >= d,
    decreases s.len(),
{
    lemma_count_below_bounds(s, d);
    if s.len() > 0 {
        let t = s.drop_last();
        assert(layers_sorted(t));
        lemma_count_below_sorted(t, d);
        if (s.last().1 as int) < d {
            assert forall|i: int| 0 <= i < count_below(s, d) implies (#[trigger] s[i].1 as int) < d by {
                if i < s.len() - 1 {
                    assert(s[i].1 <= s[s.len() - 1].1);
                }
            }
            assert(count_below(t, d) == t.len()) by {
                if count_below(t, d) < t.len() {
                    let k = count_below(t, d) as int;
                    assert(t[k] == s[k]);
                    assert(s[k].1 <= s[s.len() - 1].1);
                }
            }
        } else {
            assert forall|i: int| count_below(s, d) <= i < s.len() implies (#[trigger] s[i].1 as int) >= d by {
                if i < s.len() - 1 {
                    assert(t[i] == s[i]);
                }
            }
            assert forall|i: int| 0 <= i < count_below(s, d) implies (#[trigger] s[i].1 as int) < d by {
                assert(t[i] == s[i]);
            }
        }
    }
}

pub proof fn lemma_entry_ids_insert(s: Seq<(TaskId, usize)>, i: int, e: (TaskId, usize))
    requires
        0 <= i <= s.len(),
    ensures
        entry_ids(s.insert(i, e)) == entry_ids(s).insert(i, e.0),
{
    assert(entry_ids(s.insert(i, e)) =~= entry_ids(s).insert(i, e.0));
}

pub proof fn lemma_entry_ids_remove(s: Seq<(TaskId, usize)>, i: int)
    requires
        0 <= i < s.len(),
    ensures
        entry_ids(s.remove(i)) == entry_ids(s).remove(i),
{
    assert(entry_ids(s.remove(i)) =~= entry_ids(s).remove(i));
}

pub proof fn lemma_seq_insert_contains<A>(s: Seq<A>, i: int, x: A)
    requires
        0 <= i <= s.len(),
    ensures
        forall|y: A| #[trigger] s.insert(i, x).contains(y) <==> (s.contains(y) || y == x),
{
    let t = s.insert(i, x);
    assert forall|y: A| #[trigger] t.contains(y) <==> (s.contains(y) || y == x) by {
        if t.contains(y) {
            let k = choose|k: int| 0 <= k < t.len() && t[k] == y;
            if k < i {
                assert(s[k] == y);
            } else if k > i {
                assert(s[k - 1] == y);
            }
        }
        if s.contains(y) {
            let k = choose|k: int| 0 <= k < s.len() && s[k] == y;
            if k < i {
                assert(t[k] == y);
            } else {
                assert(t[k + 1] == y);
            }
        }
        if y == x {
            assert(t[i] == y);
        }
    }
}

pub proof fn lemma_seq_remove_contains<A>(s: Seq<A>, i: int)
    requires
        0 <= i < s.len(),
        s.no_duplicates(),
    ensures
        forall|y: A| #[trigger] s.remove(i).contains(y) <==> (s.contains(y) && y != s[i]),
        s.remove(i).no_duplicates(),
{
    let t = s.remove(i);
    assert forall|y: A| #[trigger] t.contains(y) <==> (s.contains(y) && y != s[i]) by {
        if t.contains(y) {
            let k = choose|k: int| 0 <= k < t.len() && t[k] == y;
            if k < i {
                assert(s[k] == y);
            } else {
                assert(s[k + 1] == y);
            }
        }
        if s.contains(y) && y != s[i] {
            let k = choose|k: int| 0 <= k < s.len() && s[k] == y;
            if k < i {
                assert(t[k] == y);
            } else {
                assert(k != i);
                assert(t[k - 1] == y);
            }
        }
    }
    assert forall|a: int, b: int| 0 <= a < b < t.len() implies t[a] != t[b] by {
        let aa = if a < i { a } else { a + 1 };
        let bb = if b < i { b } else { b + 1 };
        assert(t[a] == s[aa] && t[b] == s[bb]);
    }
}

/// The incomplete tasks of a todo list, in layers. Layer 0 holds the tasks
/// that can be worked on; deeper layers hold tasks that wait on others.
/// Tasks are listed layer by layer, and in order within each layer.
#[derive(Debug)]
pub struct Layering {
    entries: Vec<(TaskId, usize)>,
}

impl Layering {
    #[verifier::type_invariant]
    closed spec fn inv(self) -> bool {
        &&& entry_ids(self.entries@).no_duplicates()
        &&& layers_sorted(self.entries@)
    }

    /// Each task with its layer, in order.
    pub closed spec fn entries(self) -> Seq<(TaskId, usize)> {
        self.entries@
    }

    /// The tasks, in order.
    pub open spec fn ids(self) -> Seq<TaskId> {
        entry_ids(self.entries())
    }

    /// The index of `id` in the order, if it is there.
    pub open spec fn index_of(self, id: TaskId) -> int {
        choose|i: int| 0 <= i < self.entries().len() && #[trigger] self.entries()[i].0 == id
    }

    /// The layer of `id`, if it is there.
    pub open spec fn depth_of(self, id: TaskId) -> Option<usize> {
        if self.ids().contains(id) {
            Some(self.entries()[self.index_of(id)].1)
        } else {
            None
        }
    }

    /// The tasks of layer `d`, in order.
    pub open spec fn layer(self, d: usize) -> Seq<TaskId> {
        entry_ids(self.entries().subrange(count_below(self.entries(), d as int) as int, count_below(self.entries(), d + 1) as int))
    }

    /// The invariant: no task is listed twice, and layers are in order.
    pub closed spec fn valid(self) -> bool {
        self.inv()
    }

    /// Establishes the invariant; has no effect at run time.
    pub fn facts(&self)
        ensures
            self.valid(),
            self.ids().no_duplicates(),
            layers_sorted(self.entries()),
            self.ids().len() == self.entries().len(),
    {
        proof {
            use_type_invariant(self);
            self.lemma_valid();
        }
    }

    pub proof fn lemma_valid_facts_len(self)
        requires
            self.valid(),
        ensures
            self.ids().len() == self.entries().len(),
            forall|i: int| 0 <= i < self.entries().len() ==> #[trigger] self.ids()[i] == self.entries()[i].0,
    {
    }

    pub proof fn lemma_valid(self)
        requires
            self.valid(),
        ensures
            self.ids().no_duplicates(),
            layers_sorted(self.entries()),
            self.ids().len() == self.entries().len(),
            forall|i: int| 0 <= i < self.entries().len() ==> #[trigger] self.ids()[i] == self.entries()[i].0,
            forall|id: TaskId| self.ids().contains(id) ==> {
                &&& 0 <= self.index_of(id) < self.entries().len()
                &&& self.entries()[self.index_of(id)].0 == id
                &&& forall|j: int| 0 <= j < self.entries().len() && #[trigger] self.entries()[j].0 == id ==> j == self.index_of(id)
            },
    {
        assert forall|id: TaskId| self.ids().contains(id) implies {
            &&& 0 <= self.index_of(id) < self.entries().len()
            &&& self.entries()[self.index_of(id)].0 == id
            &&& forall|j: int| 0 <= j < self.entries().len() && #[trigger] self.entries()[j].0 == id ==> j == self.index_of(id)
        } by {
            let k = choose|k: int| 0 <= k < self.ids().len() && self.ids()[k] == id;
            assert(self.entries()[k].0 == id);
            let i = self.index_of(id);
            assert forall|j: int| 0 <= j < self.entries().len() && #[trigger] self.entries()[j].0 == id implies j == i by {
                assert(self.ids()[j] == self.ids()[i]);
            }
        }
    }

    pub fn new() -> (res: Layering)
        ensures
            res.entries() == Seq::<(TaskId, usize)>::empty(),
            res.valid(),
    {
        Layering { entries: Vec::new() }
    }

    /// The number of tasks in all layers.
    pub fn len(&self) -> (res: usize)
        ensures
            res == self.entries().len(),
    {
        self.entries.len()
    }

    /// The task at index `i` of the order.
    pub fn get(&self, i: usize) -> (res: TaskId)
        requires
            i < self.entries().len(),
        ensures
            res == self.entries()[i as int].0,
    {
        self.entries[i].0
    }

    /// The index of `id` in the order, if it is there.
    pub fn position(&self, id: &TaskId) -> (res: Option<usize>)
        ensures
            match res {
                Some(i) => self.ids().contains(*id) && i == self.index_of(*id),
                None => !self.ids().contains(*id),
            },
    {
        self.facts();
        let mut i: usize = 0;
        while i < self.entries.len()
            invariant
                0 <= i <= self.entries@.len(),
                forall|j: int| 0 <= j < i ==> self.entries@[j].0 != *id,
                self.ids().no_duplicates(),
            decreases self.entries@.len() - i,
        {
            if self.entries[i].0 == *id {
                assert(self.ids()[i as int] == *id);
                assert(self.entries()[i as int].0 == *id);
                proof {
                    let k = self.index_of(*id);
                    assert(0 <= k < self.entries().len() && self.entries()[k].0 == *id);
                    assert(self.ids()[k] == self.ids()[i as int]);
                    assert(k == i);
                    assert(self.ids().contains(*id));
                }
                return Some(i);
            }
            i += 1;
        }
        proof {
            if self.ids().contains(*id) {
                let k = choose|k: int| 0 <= k < self.ids().len() && self.ids()[k] == *id;
                assert(self.entries@[k].0 == *id);
            }
        }
        None
    }

    pub fn contains(&self, id: &TaskId) -> (res: bool)
        ensures
            res == self.ids().contains(*id),
    {
        self.position(id).is_some()
    }

    /// The layer of `id`, if it is there.
    pub fn depth(&self, id: &TaskId) -> (res: Option<usize>)
        ensures
            res == self.depth_of(*id),
    {
        match self.position(id) {
            Some(i) => Some(self.entries[i].1),
            None => None,
        }
    }

    /// The index at which layer `d` starts, and the index after its end.
    pub fn layer_bounds(&self, d: usize) -> (res: (usize, usize))
        ensures
            res.0 == count_below(self.entries(), d as int),
            res.1 == count_below(self.entries(), d + 1),
            res.0 <= res.1 <= self.entries().len(),
    {
        self.facts();
        proof {
            lemma_count_below_sorted(self.entries(), d as int);
            lemma_count_below_sorted(self.entries(), d + 1);
        }
        let ghost s = self.entries();
        let ghost c0 = count_below(s, d as int);
        let ghost c1 = count_below(s, d + 1);
        proof {
            if c0 > c1 {
                assert(s[c1 as int].1 < d);
            }
        }
        let mut start: usize = 0;
        while start < self.entries.len() && self.entries[start].1 < d
            invariant
                0 <= start <= self.entries@.len(),
                s == self.entries@,
                start <= c0,
                c0 <= s.len(),
                forall|i: int| c0 <= i < s.len() ==> (#[trigger] s[i].1 as int) >= d,
            decreases self.entries@.len() - start,
        {
            start += 1;
        }
        proof {
            if start < c0 {
                assert((s[start as int].1 as int) < d);
            }
        }
        let mut end: usize = start;
        while end < self.entries.len() && self.entries[end].1 <= d
            invariant
                start <= end <= self.entries@.len(),
                s == self.entries@,
                end <= c1,
                c1 <= s.len(),
                start == c0,
                forall|i: int| c1 <= i < s.len() ==> (#[trigger] s[i].1 as int) >= d + 1,
            decreases self.entries@.len() - end,
        {
            end += 1;
        }
        proof {
            if end < c1 {
                assert((s[end as int].1 as int) < d + 1);
            }
        }
        (start, end)
    }

    /// Puts `id`, which is in no layer, at position `pos` of layer `d`.
    pub fn put_in_layer(&mut self, id: TaskId, d: usize, pos: usize)
        requires
            !old(self).ids().contains(id),
            count_below(old(self).entries(), d as int) + pos <= count_below(old(self).entries(), d + 1),
        ensures
            final(self).entries() == old(self).entries().insert(count_below(old(self).entries(), d as int) + pos, (id, d)),
            final(self).valid(),
    {
        self.facts();
        let (start, _end) = self.layer_bounds(d);
        let idx = start + pos;
        proof {
            let s = self.entries@;
            let t = s.insert(idx as int, (id, d));
            lemma_count_below_sorted(s, d as int);
            lemma_count_below_sorted(s, d + 1);
            assert forall|i: int, j: int| 0 <= i < j < t.len() implies #[trigger] t[i].1 <= #[trigger] t[j].1 by {
                if j < idx {
                } else if j == idx {
                    assert(i < start ==> s[i].1 < d);
                } else if i < idx {
                    assert(s[j - 1].1 >= d || i < idx);
                    if i < start {
                        assert(s[i].1 < d);
                        assert(s[j - 1].1 >= d);
                    } else {
                        assert(s[i].1 <= s[j - 1].1);
                    }
                } else if i == idx {
                    assert(s[j - 1].1 >= d);
                } else {
                    assert(s[i - 1].1 <= s[j - 1].1);
                }
            }
            assert(entry_ids(t) =~= entry_ids(s).insert(idx as int, id));
            assert(entry_ids(t).no_duplicates()) by {
                assert forall|i: int, j: int| 0 <= i < j < entry_ids(t).len() implies entry_ids(t)[i] != entry_ids(t)[j] by {
                    if i == idx {
                        assert(entry_ids(s).contains(entry_ids(t)[j]) || j == idx);
                        assert(entry_ids(t)[j] == entry_ids(s)[j - 1]);
                    } else if j == idx {
                        assert(entry_ids(t)[i] == entry_ids(s)[i]);
                    } else {
                        let ii = if i < idx { i } else { i - 1 };
                        let jj = if j < idx { j } else { j - 1 };
                        assert(entry_ids(t)[i] == entry_ids(s)[ii]);
                        assert(entry_ids(t)[j] == entry_ids(s)[jj]);
                    }
                }
            }
        }
        let mut entries = Vec::new();
        std::mem::swap(&mut entries, &mut self.entries);
        entries.insert(idx, (id, d));
        self.entries = entries;
        self.facts();
    }

    /// Removes `id` from layer `d`, where it is.
    pub fn remove_from_layer(&mut self, id: &TaskId, d: usize)
        requires
            old(self).depth_of(*id) == Some(d),
        ensures
            final(self).entries() == old(self).entries().remove(old(self).index_of(*id)),
            final(self).valid(),
    {
        self.facts();
        let idx = self.position(id).unwrap();
        proof {
            let s = self.entries@;
            let t = s.remove(idx as int);
            assert forall|i: int, j: int| 0 <= i < j < t.len() implies #[trigger] t[i].1 <= #[trigger] t[j].1 by {
                let ii = if i < idx { i } else { i + 1 };
                let jj = if j < idx { j } else { j + 1 };
                assert(t[i] == s[ii] && t[j] == s[jj]);
            }
            assert(entry_ids(t) =~= entry_ids(s).remove(idx as int));
            assert(entry_ids(t).no_duplicates()) by {
                assert forall|i: int, j: int| 0 <= i < j < entry_ids(t).len() implies entry_ids(t)[i] != entry_ids(t)[j] by {
                    let ii = if i < idx { i } else { i + 1 };
                    let jj = if j < idx { j } else { j + 1 };
                    assert(entry_ids(t)[i] == entry_ids(s)[ii]);
                    assert(entry_ids(t)[j] == entry_ids(s)[jj]);
                }
            }
        }
        let mut entries = Vec::new();
        std::mem::swap(&mut entries, &mut self.entries);
        entries.remove(idx);
        self.entries = entries;
        self.facts();
    }

    /// Each task with its layer, in order.
    pub fn entries_vec(&self) -> (res: Vec<(TaskId, usize)>)
        ensures
            res@ == self.entries(),
    {
        let mut res: Vec<(TaskId, usize)> = Vec::new();
        let mut i: usize = 0;
        while i < self.entries.len()
            invariant
                0 <= i <= self.entries@.len(),
                res@ == self.entries@.take(i as int),
            decreases self.entries@.len() - i,
        {
            res.push(self.entries[i]);
            proof {
                assert(self.entries@.take(i + 1) =~= self.entries@.take(i as int).push(self.entries@[i as int]));
            }
            i += 1;
        }
        assert(self.entries@.take(self.entries@.len() as int) =~= self.entries@);
        res
    }

    /// The layering with these entries, if no task is listed twice and the
    /// layers are in order.
    pub fn from_entries(entries: Vec<(TaskId, usize)>) -> (res: Option<Layering>)
        ensures
            res is Some <==> entry_ids(entries@).no_duplicates() && layers_sorted(entries@),
            res matches Some(l) ==> l.entries() == entries@ && l.valid(),
    {
        let mut i: usize = 0;
        while i < entries.len()
            invariant
                0 <= i <= entries@.len(),
                entry_ids(entries@.take(i as int)).no_duplicates(),
                layers_sorted(entries@.take(i as int)),
            decreases entries@.len() - i,
        {
            let ghost pre = entries@.take(i as int);
            let ghost next = entries@.take(i + 1);
            proof {
                assert(next =~= pre.push(entries@[i as int]));
                assert(entry_ids(next) =~= entry_ids(pre).push(entries@[i as int].0));
            }
            if i > 0 && entries[i - 1].1 > entries[i].1 {
                proof {
                    assert(!layers_sorted(entries@)) by {
                        let a = i - 1;
                        assert(entries@[a as int].1 > entries@[i as int].1);
                    }
                }
                return None;
            }
            let mut j: usize = 0;
            while j < i
                invariant
                    0 <= j <= i < entries@.len(),
                    forall|k: int| 0 <= k < j ==> entries@[k].0 != entries@[i as int].0,
                decreases i - j,
            {
                if entries[j].0 == entries[i].0 {
                    proof {
                        assert(!entry_ids(entries@).no_duplicates()) by {
                            assert(entry_ids(entries@)[j as int] == entry_ids(entries@)[i as int]);
                        }
                    }
                    return None;
                }
                j += 1;
            }
            proof {
                assert forall|a: int, b: int| 0 <= a < b < next.len() implies #[trigger] next[a].1 <= #[trigger] next[b].1 by {
                    if b < i {
                        assert(pre[a].1 <= pre[b].1);
                    } else if a < i - 1 {
                        assert(pre[a].1 <= pre[i - 1].1);
                    }
                }
                assert forall|a: int, b: int| 0 <= a < b < entry_ids(next).len() implies entry_ids(next)[a] != entry_ids(next)[b] by {
                    if b < i {
                        assert(entry_ids(pre)[a] != entry_ids(pre)[b]);
                    } else {
                        assert(entries@[a].0 != entries@[i as int].0);
                    }
                }
            }
            i += 1;
        }
        assert(entries@.take(entries@.len() as int) =~= entries@);
        let l = Layering { entries };
        proof {
            assert(l.entries() == entries@);
        }
        Some(l)
    }

    /// The tasks, in order.
    pub fn to_vec(&self) -> (res: Vec<TaskId>)
        ensures
            res@ == self.ids(),
    {
        let mut res: Vec<TaskId> = Vec::new();
        let mut i: usize = 0;
        while i < self.entries.len()
            invariant
                0 <= i <= self.entries@.len(),
                res@ == entry_ids(self.entries@.take(i as int)),
            decreases self.entries@.len() - i,
        {
            res.push(self.entries[i].0);
            proof {
                assert(entry_ids(self.entries@.take(i + 1)) =~= entry_ids(self.entries@.take(i as int)).push(self.entries@[i as int].0));
            }
            i += 1;
        }
        assert(self.entries@.take(self.entries@.len() as int) =~= self.entries@);
        res
    }
}

impl Default for Layering {
    fn default() -> (res: Layering)
        ensures
            res.entries() == Seq::<(TaskId, usize)>::empty(),
    {
        Layering::new()
    }
}


/// Removing `x` leaves every other task in its layer.
pub proof fn lemma_depth_of_remove(before: Layering, after: Layering, x: TaskId)
    requires
        before.valid(),
        after.valid(),
        before.ids().contains(x),
        after.entries() == before.entries().remove(before.index_of(x)),
    ensures
        after.depth_of(x) is None,
        forall|t: TaskId| t != x ==> #[trigger] after.depth_of(t) == before.depth_of(t),
{
    before.lemma_valid();
    after.lemma_valid();
    let k = before.index_of(x);
    lemma_entry_ids_remove(before.entries(), k);
    lemma_seq_remove_contains(entry_ids(before.entries()), k);
    assert(before.ids()[k] == x);
    assert forall|t: TaskId| t != x implies #[trigger] after.depth_of(t) == before.depth_of(t) by {
        if before.ids().contains(t) {
            let j = before.index_of(t);
            let j2 = if j < k { j } else { j - 1 };
            assert(j != k);
            assert(after.entries()[j2] == before.entries()[j]);
            assert(after.ids().contains(t)) by {
                assert(after.ids()[j2] == t);
            }
            assert(after.index_of(t) == j2);
        } else {
            assert(!after.ids().contains(t));
        }
    }
}

/// Inserting `x` leaves every other task in its layer.
pub proof fn lemma_depth_of_insert(before: Layering, after: Layering, i: int, x: TaskId, d: usize)
    requires
        before.valid(),
        after.valid(),
        0 <= i <= before.entries().len(),
        !before.ids().contains(x),
        after.entries() == before.entries().insert(i, (x, d)),
    ensures
        after.depth_of(x) == Some(d),
        forall|t: TaskId| t != x ==> #[trigger] after.depth_of(t) == before.depth_of(t),
{
    before.lemma_valid();
    after.lemma_valid();
    lemma_entry_ids_insert(before.entries(), i, (x, d));
    lemma_seq_insert_contains(entry_ids(before.entries()), i, x);
    assert(after.entries()[i] == (x, d));
    assert(after.ids()[i] == x);
    assert(after.index_of(x) == i);
    assert forall|t: TaskId| t != x implies #[trigger] after.depth_of(t) == before.depth_of(t) by {
        if before.ids().contains(t) {
            let j = before.index_of(t);
            let j2 = if j < i { j } else { j + 1 };
            assert(after.entries()[j2] == before.entries()[j]);
            assert(after.ids()[j2] == t);
            assert(after.index_of(t) == j2);
        } else {
            assert(!after.ids().contains(t));
        }
    }
}

} // verus!
