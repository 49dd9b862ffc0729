//! The credential store: the authoritative mapping from internal usernames
//! to secrets that the proxy process consumes.  The store's state is
//! modelled here as a map with unique keys; reading it from and writing it
//! back to the service's config file is plain I/O and stays with the
//! surrounding program.

use vstd::prelude::*;

verus! {

pub struct CredentialStore {
    entries: Vec<(String, String)>,
}

spec fn has_key(entries: Seq<(String, String)>, k: Seq<char>) -> bool {
    exists|i: int| 0 <= i < entries.len() && (#[trigger] entries[i]).0@ == k
}

spec fn key_idx(entries: Seq<(String, String)>, k: Seq<char>) -> int {
    choose|i: int| 0 <= i < entries.len() && (#[trigger] entries[i]).0@ == k
}

impl View for CredentialStore {
    type V = Map<Seq<char>, Seq<char>>;

    closed spec fn view(&self) -> Map<Seq<char>, Seq<char>> {
        Map::new(
            |k: Seq<char>| has_key(self.entries@, k),
            |k: Seq<char>| self.entries@[key_idx(self.entries@, k)].1@,
        )
    }
}

impl CredentialStore {
    /// One entry per username.
    pub closed spec fn wf(&self) -> bool {
        forall|i: int, j: int|
            0 <= i < j < self.entries@.len() ==> (#[trigger] self.entries@[i]).0@ != (
            #[trigger] self.entries@[j]).0@
    }

    pub fn new() -> (r: CredentialStore)
        ensures
            r.wf(),
            r@ == Map::<Seq<char>, Seq<char>>::empty(),
    {
        let r = CredentialStore { entries: Vec::new() };
        proof {
            assert(r@ =~= Map::<Seq<char>, Seq<char>>::empty());
        }
        r
    }

    fn find(&self, username: &str) -> (r: Option<usize>)
        requires
            self.wf(),
        ensures
            match r {
                Some(i) => i < self.entries@.len() && self.entries@[i as int].0@ == username@
                    && i as int == key_idx(self.entries@, username@) && has_key(
                    self.entries@,
                    username@,
                ),
                None => !has_key(self.entries@, username@),
            },
    {
        let mut i: usize = 0;
        while i < self.entries.len()
            invariant
                i <= self.entries@.len(),
                self.wf(),
                forall|j: int| 0 <= j < i ==> (#[trigger] self.entries@[j]).0@ != username@,
            decreases self.entries@.len() - i,
        {
            if crate::strutil::str_eq(self.entries[i].0.as_str(), username) {
                proof {
                    let k = key_idx(self.entries@, username@);
                    assert(self.entries@[i as int].0@ == username@);
                    assert(has_key(self.entries@, username@));
                    assert(0 <= k < self.entries@.len() && self.entries@[k].0@ == username@);
                    if k != i as int {
                        assert(self.entries@[k].0@ != self.entries@[i as int].0@);
                    }
                }
                return Some(i);
            }
            i += 1;
        }
        None
    }

    /// Write or overwrite the secret for a username.
    pub fn upsert_user(&mut self, username: &str, secret: &str)
        requires
            old(self).wf(),
        ensures
            final(self).wf(),
            final(self)@ == old(self)@.insert(username@, secret@),
    {
        let ghost prev = self.entries@;
        match self.find(username) {
            Some(i) => {
                self.entries[i].1 = secret.to_owned();
                proof {
                    assert(self.entries@ =~= prev.update(
                        i as int,
                        (prev[i as int].0, self.entries@[i as int].1),
                    ));
                    assert forall|k: Seq<char>| #[trigger]
                        has_key(self.entries@, k) == has_key(prev, k) by {
                        if has_key(self.entries@, k) {
                            let a = key_idx(self.entries@, k);
                            assert(prev[a].0@ == k);
                        }
                        if has_key(prev, k) {
                            let a = key_idx(prev, k);
                            assert(self.entries@[a].0@ == k);
                        }
                    }
                    assert forall|k: Seq<char>|
                        has_key(self.entries@, k) implies self.entries@[key_idx(
                        self.entries@,
                        k,
                    )].1@ == old(self)@.insert(username@, secret@)[k] by {
                        let a = key_idx(self.entries@, k);
                        if k == username@ {
                            assert(a == i as int);
                        } else {
                            assert(a != i as int);
                            let b = key_idx(prev, k);
                            assert(prev[a].0@ == k);
                            assert(b == a);
                        }
                    }
                    assert(self@ =~= old(self)@.insert(username@, secret@));
                }
            },
            None => {
                self.entries.push((username.to_owned(), secret.to_owned()));
                proof {
                    assert forall|k: Seq<char>| #[trigger]
                        has_key(self.entries@, k) == (has_key(prev, k) || k == username@) by {
                        if has_key(self.entries@, k) {
                            let a = key_idx(self.entries@, k);
                            if a < prev.len() {
                                assert(prev[a].0@ == k);
                            }
                        }
                        if has_key(prev, k) {
                            let a = key_idx(prev, k);
                            assert(self.entries@[a].0@ == k);
                        }
                        if k == username@ {
                            assert(self.entries@[prev.len() as int].0@ == k);
                        }
                    }
                    assert forall|k: Seq<char>|
                        has_key(self.entries@, k) implies self.entries@[key_idx(
                        self.entries@,
                        k,
                    )].1@ == old(self)@.insert(username@, secret@)[k] by {
                        let a = key_idx(self.entries@, k);
                        if k == username@ {
                            assert(a == prev.len() as int);
                        } else {
                            assert(a < prev.len());
                            assert(prev[a].0@ == k);
                            let b = key_idx(prev, k);
                            assert(b == a);
                        }
                    }
                    assert(self@ =~= old(self)@.insert(username@, secret@));
                }
            },
        }
    }

    /// Remove a username's entry; reports whether one was present.
    pub fn remove_user(&mut self, username: &str) -> (removed: bool)
        requires
            old(self).wf(),
        ensures
            final(self).wf(),
            removed == old(self)@.contains_key(username@),
            final(self)@ == old(self)@.remove(username@),
            !old(self)@.contains_key(username@) ==> final(self)@ == old(self)@,
    {
        let ghost prev = self.entries@;
        match self.find(username) {
            Some(i) => {
                self.entries.remove(i);
                proof {
                    assert forall|k: Seq<char>|
                        has_key(self.entries@, k) implies (has_key(prev, k) && k != username@) by {
                        let a = key_idx(self.entries@, k);
                        let b: int = if a < i as int {
                            a
                        } else {
                            a + 1
                        };
                        assert(prev[b].0@ == k);
                        if k == username@ {
                            assert(prev[b].0@ == prev[i as int].0@);
                        }
                    }
                    assert forall|k: Seq<char>|
                        has_key(prev, k) && k != username@ implies has_key(self.entries@, k) by {
                        let a = key_idx(prev, k);
                        assert(a != i as int);
                        if a < i as int {
                            assert(self.entries@[a].0@ == k);
                        } else {
                            assert(self.entries@[a - 1].0@ == k);
                        }
                    }
                    assert forall|k: Seq<char>|
                        has_key(self.entries@, k) implies self.entries@[key_idx(
                        self.entries@,
                        k,
                    )].1@ == old(self)@.remove(username@)[k] by {
                        let a = key_idx(self.entries@, k);
                        let b: int = if a < i as int {
                            a
                        } else {
                            a + 1
                        };
                        assert(prev[b].0@ == k);
                        let c = key_idx(prev, k);
                        assert(c == b);
                    }
                    assert(self@ =~= old(self)@.remove(username@));
                }
                true
            },
            None => {
                proof {
                    assert(self@ =~= old(self)@.remove(username@));
                }
                false
            },
        }
    }

    /// The stored secret for a username, if any.
    pub fn get_secret(&self, username: &str) -> (r: Option<String>)
        requires
            self.wf(),
        ensures
            r is Some <==> self@.contains_key(username@),
            r is Some ==> r->0@ == self@[username@],
    {
        match self.find(username) {
            Some(i) => Some(self.entries[i].1.clone()),
            None => None,
        }
    }

    /// All entries, as `(username, secret)` pairs, for the program part
    /// that writes the service's config file: sound (every pair is in the
    /// map), complete (every key of the map appears), and without
    /// duplicate usernames.
    pub fn entries(&self) -> (r: &Vec<(String, String)>)
        requires
            self.wf(),
        ensures
            forall|i: int|
                0 <= i < r@.len() ==> self@.contains_key((#[trigger] r@[i]).0@) && self@[r@[i].0@]
                    == r@[i].1@,
            forall|k: Seq<char>|
                self@.contains_key(k) ==> exists|i: int|
                    0 <= i < r@.len() && (#[trigger] r@[i]).0@ == k,
            forall|i: int, j: int| 0 <= i < j < r@.len() ==> (#[trigger] r@[i]).0@ != (
                #[trigger] r@[j]).0@,
    {
        proof {
            assert forall|i: int|
                0 <= i < self.entries@.len() implies self@.contains_key(
                (#[trigger] self.entries@[i]).0@,
            ) && self@[self.entries@[i].0@] == self.entries@[i].1@ by {
                let k = self.entries@[i].0@;
                assert(has_key(self.entries@, k));
                let a = key_idx(self.entries@, k);
                if a != i {
                    assert(self.entries@[a].0@ != self.entries@[i].0@);
                }
            }
            assert forall|k: Seq<char>| self@.contains_key(k) implies exists|i: int|
                0 <= i < self.entries@.len() && (#[trigger] self.entries@[i]).0@ == k by {
                assert(has_key(self.entries@, k));
            }
        }
        &self.entries
    }
}

} // verus!
