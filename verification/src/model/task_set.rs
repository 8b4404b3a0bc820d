use vstd::prelude::*;
use crate::model::task::TaskId;
use vstd::std_specs::iter::IteratorSpec;

verus! {

/// A set of tasks. Iterating it in the order of a todo list is done with
/// `iter_sorted`.
#[derive(Debug)]
pub struct TaskSet {
    ids: Vec<TaskId>,
}

impl View for TaskSet {
    type V = Set<TaskId>;

    closed spec fn view(&self) -> Set<TaskId> {
        self.ids@.to_set()
    }
}

impl TaskSet {
    #[verifier::type_invariant]
    closed spec fn inv(self) -> bool {
        self.ids@.no_duplicates()
    }

    /// The members, each once, in the order they were inserted.
    pub closed spec fn members(self) -> Seq<TaskId> {
        self.ids@
    }

    /// Establishes what the members are; has no effect at run time.
    pub fn members_facts(&self)
        ensures
            self.members().no_duplicates(),
            self.members().to_set() == self@,
            self.members().len() == self@.len(),
            self@.finite(),
    {
        proof {
            use_type_invariant(self);
            self.ids@.unique_seq_to_set();
        }
    }

    /// The empty set.
    pub fn new() -> (res: TaskSet)
        ensures
            res@ == Set::<TaskId>::empty(),
    {
        let res = TaskSet { ids: Vec::new() };
        assert(res@ =~= Set::<TaskId>::empty());
        res
    }

    /// The set holding `id` alone.
    pub fn of(id: TaskId) -> (res: TaskSet)
        ensures
            res@ == set![id],
    {
        let mut res = TaskSet::new();
        res.insert(id);
        assert(res@ =~= set![id]);
        res
    }

    pub fn contains(&self, id: &TaskId) -> (res: bool)
        ensures
            res == self@.contains(*id),
    {
        let mut i: usize = 0;
        while i < self.ids.len()
            invariant
                0 <= i <= self.ids@.len(),
                forall|j: int| 0 <= j < i ==> self.ids@[j] != *id,
            decreases self.ids@.len() - i,
        {
            if self.ids[i] == *id {
                assert(self.ids@.contains(*id));
                return true;
            }
            i += 1;
        }
        false
    }

    /// Adds `id` to the set.
    pub fn insert(&mut self, id: TaskId)
        ensures
            final(self)@ == old(self)@.insert(id),
    {
        proof {
            use_type_invariant(&*self);
        }
        if !self.contains(&id) {
            let mut ids = Vec::new();
            std::mem::swap(&mut ids, &mut self.ids);
            ids.push(id);
            self.ids = ids;
            proof {
                old(self).ids@.lemma_push_to_set_commute(id);
            }
            assert(self@ =~= old(self)@.insert(id));
        } else {
            assert(self@ =~= old(self)@.insert(id));
        }
    }

    pub fn len(&self) -> (res: usize)
        ensures
            res == self@.len(),
    {
        self.members_facts();
        self.ids.len()
    }

    pub fn is_empty(&self) -> (res: bool)
        ensures
            res == (self@ == Set::<TaskId>::empty()),
    {
        self.members_facts();
        proof {
            if self.ids@.len() > 0 {
                assert(self@.contains(self.ids@[0]));
            } else {
                assert(self@ =~= Set::<TaskId>::empty());
            }
        }
        self.ids.len() == 0
    }

    /// The set of the ids in `v`.
    pub fn from_vec(v: &Vec<TaskId>) -> (res: TaskSet)
        ensures
            res@ == v@.to_set(),
    {
        let mut res = TaskSet::new();
        let mut i: usize = 0;
        while i < v.len()
            invariant
                0 <= i <= v@.len(),
                res@ == v@.take(i as int).to_set(),
            decreases v@.len() - i,
        {
            res.insert(v[i]);
            proof {
                assert(v@.take(i + 1) =~= v@.take(i as int).push(v@[i as int]));
                v@.take(i as int).lemma_push_to_set_commute(v@[i as int]);
            }
            i += 1;
        }
        assert(v@.take(v@.len() as int) =~= v@);
        res
    }

    /// The members of either set.
    pub fn union(self, other: TaskSet) -> (res: TaskSet)
        ensures
            res@ == self@.union(other@),
    {
        proof {
            use_type_invariant(&other);
        }
        let mut res = self;
        let mut i: usize = 0;
        while i < other.ids.len()
            invariant
                0 <= i <= other.ids@.len(),
                res@ == self@.union(other.ids@.take(i as int).to_set()),
            decreases other.ids@.len() - i,
        {
            res.insert(other.ids[i]);
            proof {
                assert(other.ids@.take(i + 1) =~= other.ids@.take(i as int).push(other.ids@[i as int]));
                other.ids@.take(i as int).lemma_push_to_set_commute(other.ids@[i as int]);
                assert(res@ =~= self@.union(other.ids@.take(i + 1).to_set()));
            }
            i += 1;
        }
        assert(other.ids@.take(other.ids@.len() as int) =~= other.ids@);
        res
    }

    /// The members of this set that are not in `other`.
    pub fn difference(&self, other: &TaskSet) -> (res: TaskSet)
        ensures
            res@ == self@.difference(other@),
    {
        let mut res = TaskSet::new();
        let mut i: usize = 0;
        while i < self.ids.len()
            invariant
                0 <= i <= self.ids@.len(),
                res@ == self.ids@.take(i as int).to_set().difference(other@),
            decreases self.ids@.len() - i,
        {
            let id = self.ids[i];
            if !other.contains(&id) {
                res.insert(id);
            }
            proof {
                assert(self.ids@.take(i + 1) =~= self.ids@.take(i as int).push(id));
                self.ids@.take(i as int).lemma_push_to_set_commute(id);
                assert(res@ =~= self.ids@.take(i + 1).to_set().difference(other@));
            }
            i += 1;
        }
        assert(self.ids@.take(self.ids@.len() as int) =~= self.ids@);
        res
    }

    /// The members, each once, in no particular order.
    pub fn into_iter_unsorted(self) -> (res: std::vec::IntoIter<TaskId>)
        ensures
            res.remaining().no_duplicates(),
            res.remaining().to_set() == self@,
    {
        proof {
            use_type_invariant(&self);
        }
        let TaskSet { ids } = self;
        ids.into_iter()
    }

    /// The members, each once, in no particular order.
    pub fn to_vec_unsorted(&self) -> (res: Vec<TaskId>)
        ensures
            res@ == self.members(),
    {
        self.ids.clone()
    }
}

impl Default for TaskSet {
    fn default() -> (res: TaskSet)
        ensures
            res@ == Set::<TaskId>::empty(),
    {
        TaskSet::new()
    }
}

impl PartialEq for TaskSet {
    fn eq(&self, other: &TaskSet) -> (res: bool) {
        self.members_facts();
        other.members_facts();
        if self.ids.len() != other.ids.len() {
            proof {
                if self@ == other@ {
                }
            }
            return false;
        }
        let mut i: usize = 0;
        while i < self.ids.len()
            invariant
                0 <= i <= self.ids@.len(),
                self.ids@.len() == other.ids@.len(),
                forall|j: int| 0 <= j < i ==> other@.contains(#[trigger] self.ids@[j]),
            decreases self.ids@.len() - i,
        {
            if !other.contains(&self.ids[i]) {
                assert(self@.contains(self.ids@[i as int]));
                return false;
            }
            i += 1;
        }
        proof {
            assert(self@.subset_of(other@));
            vstd::set_lib::lemma_subset_equality(self@, other@);
        }
        true
    }
}

impl vstd::std_specs::cmp::PartialEqSpecImpl for TaskSet {
    open spec fn obeys_eq_spec() -> bool {
        true
    }

    open spec fn eq_spec(&self, other: &TaskSet) -> bool {
        self@ == other@
    }
}

} // verus!
