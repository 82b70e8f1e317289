use vstd::prelude::*;

use crate::registry::{index_matches, Contract};
use crate::types::{AccountId, BalanceEntry, ClassId, CtrId, TokenId};

verus! {

impl Contract {
    /// Position in the owner-index table of the entry for
    /// (`owner`, `ctr_id`, `class_id`), if there is one.
    pub(crate) fn find_entry(&self, owner: &AccountId, ctr_id: CtrId, class_id: ClassId) -> (r: Option<usize>)
        requires
            index_matches(self.balances@, self.index@),
        ensures
            r.is_none() <==> !self.index@.contains_key((owner@, ctr_id, class_id)),
            r.is_some() ==> r.unwrap() < self.balances@.len()
                && self.balances@[r.unwrap() as int].key() == (owner@, ctr_id, class_id),
    {
        let ghost k = (owner@, ctr_id, class_id);
        let mut i: usize = 0;
        while i < self.balances.len()
            invariant
                index_matches(self.balances@, self.index@),
                i <= self.balances@.len(),
                k == (owner@, ctr_id, class_id),
                forall|j: int| 0 <= j < i ==> #[trigger] self.balances@[j].key() != k,
            decreases self.balances@.len() - i,
        {
            let e = &self.balances[i];
            let same_owner = e.owner == *owner;
            assert(same_owner == (e.owner@ == owner@));
            if e.ctr_id == ctr_id && e.class_id == class_id && same_owner {
                assert(self.balances@[i as int].key() == k);
                return Some(i);
            }
            assert(self.balances@[i as int].key() != k);
            i = i + 1;
        }
        proof {
            if self.index@.contains_key(k) {
                let j = choose|j: int| 0 <= j < self.balances@.len() && #[trigger] self.balances@[j].key() == k;
                assert(self.balances@[j].key() == k);
            }
        }
        None
    }

    /// The token id indexed for (`owner`, `ctr_id`, `class_id`).
    pub(crate) fn lookup_entry(&self, owner: &AccountId, ctr_id: CtrId, class_id: ClassId) -> (r: Option<TokenId>)
        requires
            index_matches(self.balances@, self.index@),
        ensures
            r == self.index@.get((owner@, ctr_id, class_id)),
    {
        match self.find_entry(owner, ctr_id, class_id) {
            Some(i) => Some(self.balances[i].token),
            None => None,
        }
    }

    /// Records `token` as the token of class `class_id` that `owner` holds
    /// under issuer `ctr_id`, replacing an earlier entry for that class.
    pub(crate) fn index_upsert(&mut self, owner: &AccountId, ctr_id: CtrId, class_id: ClassId, token: TokenId)
        requires
            index_matches(old(self).balance_table()@, old(self).index_ghost()@),
        ensures
            index_matches(final(self).balance_table()@, final(self).index_ghost()@),
            final(self).index_ghost()@ == old(self).index_ghost()@.insert((owner@, ctr_id, class_id), token),
            final(self).admin_account() == old(self).admin_account(),
            final(self).issuer_table() == old(self).issuer_table(),
            final(self).ban_table() == old(self).ban_table(),
            final(self).token_table() == old(self).token_table(),
            final(self).cursor_table() == old(self).cursor_table(),
            final(self).cursor_ghost() == old(self).cursor_ghost(),
    {
        let ghost k = (owner@, ctr_id, class_id);
        let ghost pre = self.balances@;
        match self.find_entry(owner, ctr_id, class_id) {
            Some(i) => {
                self.balances[i].token = token;
                self.index = Ghost(self.index@.insert(k, token));
                proof {
                    assert forall|j: int| 0 <= j < self.balances@.len() && j != i implies
                        #[trigger] self.balances@[j] == pre[j] by {}
                    assert forall|kk: (Seq<char>, CtrId, ClassId)| #[trigger] self.index@.contains_key(kk) implies
                        exists|j: int| 0 <= j < self.balances@.len() && #[trigger] self.balances@[j].key() == kk by {
                        if kk == k {
                            assert(self.balances@[i as int].key() == kk);
                        } else {
                            let j = choose|j: int| 0 <= j < pre.len() && #[trigger] pre[j].key() == kk;
                            assert(self.balances@[j].key() == kk);
                        }
                    }
                }
            },
            None => {
                self.balances.push(BalanceEntry { owner: owner.clone(), ctr_id, class_id, token });
                self.index = Ghost(self.index@.insert(k, token));
                proof {
                    let n = pre.len() as int;
                    assert(self.balances@[n].key() == k);
                    assert forall|kk: (Seq<char>, CtrId, ClassId)| #[trigger] self.index@.contains_key(kk) implies
                        exists|j: int| 0 <= j < self.balances@.len() && #[trigger] self.balances@[j].key() == kk by {
                        if kk == k {
                            assert(self.balances@[n].key() == kk);
                        } else {
                            let j = choose|j: int| 0 <= j < pre.len() && #[trigger] pre[j].key() == kk;
                            assert(self.balances@[j].key() == kk);
                        }
                    }
                }
            },
        }
    }

    /// Removes the entry for (`owner`, `ctr_id`, `class_id`) from the owner
    /// index, if there is one.
    pub(crate) fn index_remove(&mut self, owner: &AccountId, ctr_id: CtrId, class_id: ClassId)
        requires
            index_matches(old(self).balance_table()@, old(self).index_ghost()@),
        ensures
            index_matches(final(self).balance_table()@, final(self).index_ghost()@),
            final(self).index_ghost()@ == old(self).index_ghost()@.remove((owner@, ctr_id, class_id)),
            final(self).admin_account() == old(self).admin_account(),
            final(self).issuer_table() == old(self).issuer_table(),
            final(self).ban_table() == old(self).ban_table(),
            final(self).token_table() == old(self).token_table(),
            final(self).cursor_table() == old(self).cursor_table(),
            final(self).cursor_ghost() == old(self).cursor_ghost(),
    {
        let ghost k = (owner@, ctr_id, class_id);
        let ghost pre = self.balances@;
        match self.find_entry(owner, ctr_id, class_id) {
            Some(i) => {
                self.balances.remove(i);
                self.index = Ghost(self.index@.remove(k));
                proof {
                    let b = self.balances@;
                    assert forall|j: int| 0 <= j < b.len() implies #[trigger] b[j] == (if j < i { pre[j] } else { pre[j + 1] }) by {}
                    assert forall|j: int| 0 <= j < b.len() implies {
                        &&& self.index@.contains_key(#[trigger] b[j].key())
                        &&& self.index@[b[j].key()] == b[j].token
                    } by {
                        let jj = if j < i { j } else { j + 1 };
                        assert(b[j] == pre[jj]);
                        assert(pre[jj].key() != k);
                    }
                    assert forall|kk: (Seq<char>, CtrId, ClassId)| #[trigger] self.index@.contains_key(kk) implies
                        exists|j: int| 0 <= j < b.len() && #[trigger] b[j].key() == kk by {
                        let jj = choose|jj: int| 0 <= jj < pre.len() && #[trigger] pre[jj].key() == kk;
                        assert(jj != i);
                        let j = if jj < i { jj } else { jj - 1 };
                        assert(b[j] == pre[jj]);
                    }
                    assert forall|x: int, y: int| 0 <= x < b.len() && 0 <= y < b.len()
                        && #[trigger] b[x].key() == #[trigger] b[y].key() implies x == y by {
                        let xx = if x < i { x } else { x + 1 };
                        let yy = if y < i { y } else { y + 1 };
                        assert(b[x] == pre[xx]);
                        assert(b[y] == pre[yy]);
                    }
                }
            },
            None => {
                assert(self.index@.remove(k) =~= self.index@);
            },
        }
    }
}

} // verus!
