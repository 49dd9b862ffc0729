//! The process-local waiting set: the identities currently expected to
//! type an invite token next, so that free text from them is read as a
//! token.  Membership ends with any terminal outcome of a token attempt —
//! success or failure alike — or with an admin action for the identity;
//! the surrounding program unmarks at those points.  Deliberately not
//! durable; the program guards one instance with a mutual-exclusion lock
//! and holds the lock only across a single call here.

use vstd::prelude::*;

verus! {

pub struct WaitingSet {
    members: Vec<i64>,
}

impl View for WaitingSet {
    type V = Set<int>;

    closed spec fn view(&self) -> Set<int> {
        Set::new(
            |x: int| exists|i: int| 0 <= i < self.members@.len() && (#[trigger] self.members@[i]) as int == x,
        )
    }
}

impl WaitingSet {
    /// Each identity is stored once, so removal needs no second pass.
    pub closed spec fn wf(&self) -> bool {
        forall|i: int, j: int|
            0 <= i < j < self.members@.len() ==> (#[trigger] self.members@[i]) != (
            #[trigger] self.members@[j])
    }

    pub fn new() -> (r: WaitingSet)
        ensures
            r.wf(),
            r@ == Set::<int>::empty(),
    {
        let r = WaitingSet { members: Vec::new() };
        proof {
            assert(r@ =~= Set::<int>::empty());
        }
        r
    }

    fn find(&self, tg_user_id: i64) -> (r: Option<usize>)
        ensures
            match r {
                Some(i) => i < self.members@.len() && self.members@[i as int] == tg_user_id,
                None => !self@.contains(tg_user_id as int),
            },
    {
        let mut i: usize = 0;
        while i < self.members.len()
            invariant
                i <= self.members@.len(),
                forall|j: int| 0 <= j < i ==> (#[trigger] self.members@[j]) != tg_user_id,
            decreases self.members@.len() - i,
        {
            if self.members[i] == tg_user_id {
                return Some(i);
            }
            i += 1;
        }
        None
    }

    /// Expect a token from this identity.
    pub fn mark(&mut self, tg_user_id: i64)
        requires
            old(self).wf(),
        ensures
            final(self).wf(),
            final(self)@ == old(self)@.insert(tg_user_id as int),
    {
        match self.find(tg_user_id) {
            Some(_) => {
                proof {
                    assert(old(self)@.contains(tg_user_id as int));
                    assert(self@ =~= old(self)@.insert(tg_user_id as int));
                }
            },
            None => {
                let ghost prev = self.members@;
                self.members.push(tg_user_id);
                proof {
                    assert forall|x: int| self@.contains(x) implies old(self)@.insert(
                        tg_user_id as int,
                    ).contains(x) by {
                        let i = choose|i: int|
                            0 <= i < self.members@.len() && (#[trigger] self.members@[i]) as int
                                == x;
                        if i < prev.len() {
                            assert(prev[i] as int == x);
                        }
                    }
                    assert forall|x: int|
                        old(self)@.insert(tg_user_id as int).contains(x) implies self@.contains(
                        x,
                    ) by {
                        if x == tg_user_id as int {
                            assert(self.members@[prev.len() as int] as int == x);
                        } else {
                            let i = choose|i: int|
                                0 <= i < prev.len() && (#[trigger] prev[i]) as int == x;
                            assert(self.members@[i] as int == x);
                        }
                    }
                    assert(self@ =~= old(self)@.insert(tg_user_id as int));
                }
            },
        }
    }

    /// Stop expecting a token from this identity.
    pub fn unmark(&mut self, tg_user_id: i64)
        requires
            old(self).wf(),
        ensures
            final(self).wf(),
            final(self)@ == old(self)@.remove(tg_user_id as int),
    {
        match self.find(tg_user_id) {
            Some(i) => {
                let ghost prev = self.members@;
                self.members.remove(i);
                proof {
                    assert forall|x: int| self@.contains(x) implies old(self)@.remove(
                        tg_user_id as int,
                    ).contains(x) by {
                        let j = choose|j: int|
                            0 <= j < self.members@.len() && (#[trigger] self.members@[j]) as int
                                == x;
                        let k: int = if j < i as int {
                            j
                        } else {
                            j + 1
                        };
                        assert(prev[k] as int == x);
                        if x == tg_user_id as int {
                            assert(prev[k] == prev[i as int]);
                        }
                    }
                    assert forall|x: int|
                        old(self)@.remove(tg_user_id as int).contains(x) implies self@.contains(
                        x,
                    ) by {
                        let j = choose|j: int| 0 <= j < prev.len() && (#[trigger] prev[j]) as int == x;
                        if j < i as int {
                            assert(self.members@[j] as int == x);
                        } else {
                            assert(j != i as int);
                            assert(self.members@[j - 1] as int == x);
                        }
                    }
                    assert(self@ =~= old(self)@.remove(tg_user_id as int));
                }
            },
            None => {
                proof {
                    assert(self@ =~= old(self)@.remove(tg_user_id as int));
                }
            },
        }
    }

    /// Is this identity expected to type a token?
    pub fn is_waiting(&self, tg_user_id: i64) -> (r: bool)
        ensures
            r == self@.contains(tg_user_id as int),
    {
        match self.find(tg_user_id) {
            Some(_) => true,
            None => false,
        }
    }
}

} // verus!
