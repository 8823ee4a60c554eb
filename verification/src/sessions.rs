//! In-memory session store keyed by chat id, and the freshness check.
//! Persistence of the collection is a caller concern.

use vstd::prelude::*;
use crate::types::UserData;

verus! {

/// First index of the key, or -1.
pub open spec fn user_index_of(s: Seq<(i64, UserData)>, id: i64) -> int
    decreases s.len(),
{
    if s.len() == 0 {
        -1
    } else if s[0].0 == id {
        0
    } else {
        let r = user_index_of(s.drop_first(), id);
        if r < 0 {
            -1
        } else {
            r + 1
        }
    }
}

pub proof fn lemma_user_index_of(s: Seq<(i64, UserData)>, id: i64)
    ensures
        user_index_of(s, id) == -1 ==> forall|j: int| 0 <= j < s.len() ==> (#[trigger] s[j]).0
            != id,
        user_index_of(s, id) >= 0 ==> 0 <= user_index_of(s, id) < s.len() && s[user_index_of(
            s,
            id,
        )].0 == id && forall|j: int| 0 <= j < user_index_of(s, id) ==> (#[trigger] s[j]).0 != id,
    decreases s.len(),
{
    if s.len() > 0 && s[0].0 != id {
        lemma_user_index_of(s.drop_first(), id);
        let r = user_index_of(s.drop_first(), id);
        if r < 0 {
            assert forall|j: int| 0 <= j < s.len() implies (#[trigger] s[j]).0 != id by {
                if j > 0 {
                    assert(s.drop_first()[j - 1] == s[j]);
                    assert(s.drop_first()[j - 1].0 != id);
                }
            }
        } else {
            assert(s.drop_first()[r] == s[r + 1]);
            assert forall|j: int| 0 <= j < r + 1 implies (#[trigger] s[j]).0 != id by {
                if j > 0 {
                    assert(s.drop_first()[j - 1] == s[j]);
                    assert(s.drop_first()[j - 1].0 != id);
                }
            }
        }
    }
}

/// Session records by owner id.
#[derive(Debug)]
pub struct Database {
    pub users: Vec<(i64, UserData)>,
}

impl Database {
    /// No two records share an owner id; what the original keyed map gave,
    /// `new` establishes and every mutation preserves.
    pub open spec fn wf(self) -> bool {
        forall|i: int, j: int|
            0 <= i < j < self.users@.len() ==> (#[trigger] self.users@[i]).0 != (
            #[trigger] self.users@[j]).0
    }

    pub fn new() -> (d: Self)
        ensures
            d.users@.len() == 0,
            d.wf(),
    {
        Database { users: Vec::new() }
    }

    /// Stores or replaces the record for this owner.
    pub fn add_user(&mut self, chat_id: i64, user: UserData)
        requires
            old(self).wf(),
        ensures
            final(self).wf(),
            ({
                let i = user_index_of(old(self).users@, chat_id);
                if i < 0 {
                    final(self).users@ == old(self).users@.push((chat_id, user))
                } else {
                    final(self).users@ == old(self).users@.update(i, (chat_id, user))
                }
            }),
    {
        proof {
            lemma_user_index_of(self.users@, chat_id);
        }
        let n = self.users.len();
        let mut i: usize = 0;
        while i < n
            invariant
                n == self.users@.len(),
                0 <= i <= n,
                *self == *old(self),
                old(self).wf(),
                forall|j: int| 0 <= j < i ==> (#[trigger] self.users@[j]).0 != chat_id,
            decreases n - i,
        {
            if self.users[i].0 == chat_id {
                proof {
                    let s = old(self).users@;
                    let ki = user_index_of(s, chat_id);
                    lemma_user_index_of(s, chat_id);
                    assert(ki >= 0);
                    if ki < i as int {
                        assert(s[ki].0 != chat_id);
                    }
                    if ki > i as int {
                        assert(s[i as int].0 != chat_id);
                    }
                    assert(ki == i as int);
                }
                self.users[i] = (chat_id, user);
                proof {
                    let s = old(self).users@;
                    let fin = self.users@;
                    assert(fin =~= s.update(i as int, (chat_id, user)));
                    assert forall|a: int, b: int|
                        0 <= a < b < fin.len() implies (#[trigger] fin[a]).0 != (
                    #[trigger] fin[b]).0 by {
                        assert(s[i as int].0 == chat_id);
                        assert(fin[a].0 == s[a].0);
                        assert(fin[b].0 == s[b].0);
                    }
                }
                return ;
            }
            i += 1;
        }
        proof {
            let s = old(self).users@;
            lemma_user_index_of(s, chat_id);
            if user_index_of(s, chat_id) >= 0 {
                assert(s[user_index_of(s, chat_id)].0 != chat_id);
            }
        }
        self.users.push((chat_id, user));
    }

    /// The record for this owner, if present.
    pub fn get_user(&self, chat_id: i64) -> (r: Option<UserData>)
        ensures
            ({
                let i = user_index_of(self.users@, chat_id);
                match r {
                    Some(u) => i >= 0 && u == self.users@[i].1,
                    None => i < 0,
                }
            }),
    {
        proof {
            lemma_user_index_of(self.users@, chat_id);
        }
        let n = self.users.len();
        let mut i: usize = 0;
        while i < n
            invariant
                n == self.users@.len(),
                0 <= i <= n,
                forall|j: int| 0 <= j < i ==> (#[trigger] self.users@[j]).0 != chat_id,
            decreases n - i,
        {
            if self.users[i].0 == chat_id {
                proof {
                    let s = self.users@;
                    let ki = user_index_of(s, chat_id);
                    lemma_user_index_of(s, chat_id);
                    assert(ki >= 0);
                    if ki < i as int {
                        assert(s[ki].0 != chat_id);
                    }
                    if ki > i as int {
                        assert(s[i as int].0 != chat_id);
                    }
                    assert(ki == i as int);
                }
                return Some(self.users[i].1.clone());
            }
            i += 1;
        }
        proof {
            let s = self.users@;
            lemma_user_index_of(s, chat_id);
            if user_index_of(s, chat_id) >= 0 {
                assert(s[user_index_of(s, chat_id)].0 != chat_id);
            }
        }
        None
    }

    /// Drops the record for this owner, if present; afterwards no record at
    /// all carries this owner's id.
    pub fn remove_user(&mut self, chat_id: i64)
        requires
            old(self).wf(),
        ensures
            final(self).wf(),
            ({
                let i = user_index_of(old(self).users@, chat_id);
                if i < 0 {
                    final(self).users@ == old(self).users@
                } else {
                    final(self).users@ == old(self).users@.remove(i)
                }
            }),
            forall|j: int|
                0 <= j < final(self).users@.len() ==> (#[trigger] final(self).users@[j]).0
                    != chat_id,
    {
        proof {
            lemma_user_index_of(self.users@, chat_id);
        }
        let n = self.users.len();
        let mut i: usize = 0;
        while i < n
            invariant
                n == self.users@.len(),
                0 <= i <= n,
                *self == *old(self),
                old(self).wf(),
                forall|j: int| 0 <= j < i ==> (#[trigger] self.users@[j]).0 != chat_id,
            decreases n - i,
        {
            if self.users[i].0 == chat_id {
                proof {
                    let s = old(self).users@;
                    let ki = user_index_of(s, chat_id);
                    lemma_user_index_of(s, chat_id);
                    assert(ki >= 0);
                    if ki < i as int {
                        assert(s[ki].0 != chat_id);
                    }
                    if ki > i as int {
                        assert(s[i as int].0 != chat_id);
                    }
                    assert(ki == i as int);
                    assert(s[i as int].0 == chat_id);
                }
                self.users.remove(i);
                proof {
                    let s = old(self).users@;
                    let fin = self.users@;
                    assert(fin == s.remove(i as int));
                    assert forall|j: int| 0 <= j < fin.len() implies (#[trigger] fin[j]).0
                        != chat_id by {
                        if j < i as int {
                            assert(fin[j] == s[j]);
                            assert(s[j].0 != chat_id);
                        } else {
                            assert(fin[j] == s[j + 1]);
                            assert(s[i as int].0 != s[j + 1].0);
                        }
                    }
                    assert forall|a: int, b: int|
                        0 <= a < b < fin.len() implies (#[trigger] fin[a]).0 != (
                    #[trigger] fin[b]).0 by {
                        let a2 = if a < i as int {
                            a
                        } else {
                            a + 1
                        };
                        let b2 = if b < i as int {
                            b
                        } else {
                            b + 1
                        };
                        assert(fin[a] == s[a2]);
                        assert(fin[b] == s[b2]);
                        assert(s[a2].0 != s[b2].0);
                    }
                }
                return ;
            }
            i += 1;
        }
        proof {
            let s = old(self).users@;
            lemma_user_index_of(s, chat_id);
            if user_index_of(s, chat_id) >= 0 {
                assert(s[user_index_of(s, chat_id)].0 != chat_id);
            }
        }
    }
}

/// Freshness: a session whose deadline is at or before now has expired.
pub fn is_session_expired(data: &UserData, now_ms: i64) -> (r: bool)
    ensures
        r == (data.cookies.expires <= now_ms),
{
    data.cookies.expires <= now_ms
}

} // verus!
