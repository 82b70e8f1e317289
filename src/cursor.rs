use vstd::prelude::*;

use crate::registry::{cursors_match, Contract};
use crate::types::{AccountId, CtrId, SoulCursor, TokenId};

verus! {

impl Contract {
    /// Position in the cursor table of the cursor of `source`, if any.
    pub(crate) fn find_cursor(&self, source: &AccountId) -> (r: Option<usize>)
        requires
            cursors_match(self.ongoing_soul_tx@, self.cursors@),
        ensures
            r.is_none() <==> !self.cursors@.contains_key(source@),
            r.is_some() ==> r.unwrap() < self.ongoing_soul_tx@.len()
                && self.ongoing_soul_tx@[r.unwrap() as int].source@ == source@,
    {
        let mut i: usize = 0;
        while i < self.ongoing_soul_tx.len()
            invariant
                cursors_match(self.ongoing_soul_tx@, self.cursors@),
                i <= self.ongoing_soul_tx@.len(),
                forall|j: int| 0 <= j < i ==> #[trigger] self.ongoing_soul_tx@[j].source@ != source@,
            decreases self.ongoing_soul_tx@.len() - i,
        {
            if self.ongoing_soul_tx[i].source == *source {
                return Some(i);
            }
            i = i + 1;
        }
        proof {
            if self.cursors@.contains_key(source@) {
                let j = choose|j: int| 0 <= j < self.ongoing_soul_tx@.len() && #[trigger] self.ongoing_soul_tx@[j].source@ == source@;
                assert(self.ongoing_soul_tx@[j].source@ == source@);
            }
        }
        None
    }

    /// The position the transfer out of `source` has reached, if one is in progress.
    pub(crate) fn cursor_of(&self, source: &AccountId) -> (r: Option<(CtrId, TokenId)>)
        requires
            cursors_match(self.ongoing_soul_tx@, self.cursors@),
        ensures
            r == self.cursors@.get(source@),
    {
        match self.find_cursor(source) {
            Some(i) => Some((self.ongoing_soul_tx[i].ctr_id, self.ongoing_soul_tx[i].token)),
            None => None,
        }
    }

    /// Records (`ctr_id`, `token`) as the position of the transfer out of `source`.
    pub(crate) fn cursor_set(&mut self, source: &AccountId, ctr_id: CtrId, token: TokenId)
        requires
            cursors_match(old(self).cursor_table()@, old(self).cursor_ghost()@),
        ensures
            cursors_match(final(self).cursor_table()@, final(self).cursor_ghost()@),
            final(self).cursor_ghost()@ == old(self).cursor_ghost()@.insert(source@, (ctr_id, token)),
            final(self).admin_account() == old(self).admin_account(),
            final(self).issuer_table() == old(self).issuer_table(),
            final(self).ban_table() == old(self).ban_table(),
            final(self).balance_table() == old(self).balance_table(),
            final(self).index_ghost() == old(self).index_ghost(),
            final(self).token_table() == old(self).token_table(),
    {
        let ghost k = source@;
        let ghost pre = self.ongoing_soul_tx@;
        match self.find_cursor(source) {
            Some(i) => {
                self.ongoing_soul_tx[i].ctr_id = ctr_id;
                self.ongoing_soul_tx[i].token = token;
                self.cursors = Ghost(self.cursors@.insert(k, (ctr_id, token)));
                proof {
                    assert forall|j: int| 0 <= j < self.ongoing_soul_tx@.len() && j != i implies
                        #[trigger] self.ongoing_soul_tx@[j] == pre[j] by {}
                    assert forall|kk: Seq<char>| #[trigger] self.cursors@.contains_key(kk) implies
                        exists|j: int| 0 <= j < self.ongoing_soul_tx@.len() && #[trigger] self.ongoing_soul_tx@[j].source@ == kk by {
                        if kk == k {
                            assert(self.ongoing_soul_tx@[i as int].source@ == kk);
                        } else {
                            let j = choose|j: int| 0 <= j < pre.len() && #[trigger] pre[j].source@ == kk;
                            assert(self.ongoing_soul_tx@[j].source@ == kk);
                        }
                    }
                }
            },
            None => {
                self.ongoing_soul_tx.push(SoulCursor { source: source.clone(), ctr_id, token });
                self.cursors = Ghost(self.cursors@.insert(k, (ctr_id, token)));
                proof {
                    let n = pre.len() as int;
                    assert(self.ongoing_soul_tx@[n].source@ == k);
                    assert forall|kk: Seq<char>| #[trigger] self.cursors@.contains_key(kk) implies
                        exists|j: int| 0 <= j < self.ongoing_soul_tx@.len() && #[trigger] self.ongoing_soul_tx@[j].source@ == kk by {
                        if kk == k {
                            assert(self.ongoing_soul_tx@[n].source@ == kk);
                        } else {
                            let j = choose|j: int| 0 <= j < pre.len() && #[trigger] pre[j].source@ == kk;
                            assert(self.ongoing_soul_tx@[j].source@ == kk);
                        }
                    }
                }
            },
        }
    }

    /// Ends the transfer out of `source`: its cursor is removed.
    pub(crate) fn cursor_remove(&mut self, source: &AccountId)
        requires
            cursors_match(old(self).cursor_table()@, old(self).cursor_ghost()@),
        ensures
            cursors_match(final(self).cursor_table()@, final(self).cursor_ghost()@),
            final(self).cursor_ghost()@ == old(self).cursor_ghost()@.remove(source@),
            final(self).admin_account() == old(self).admin_account(),
            final(self).issuer_table() == old(self).issuer_table(),
            final(self).ban_table() == old(self).ban_table(),
            final(self).balance_table() == old(self).balance_table(),
            final(self).index_ghost() == old(self).index_ghost(),
            final(self).token_table() == old(self).token_table(),
    {
        let ghost k = source@;
        let ghost pre = self.ongoing_soul_tx@;
        match self.find_cursor(source) {
            Some(i) => {
                self.ongoing_soul_tx.remove(i);
                self.cursors = Ghost(self.cursors@.remove(k));
                proof {
                    let b = self.ongoing_soul_tx@;
                    assert forall|j: int| 0 <= j < b.len() implies #[trigger] b[j] == (if j < i { pre[j] } else { pre[j + 1] }) by {}
                    assert forall|j: int| 0 <= j < b.len() implies {
                        &&& self.cursors@.contains_key(#[trigger] b[j].source@)
                        &&& self.cursors@[b[j].source@] == (b[j].ctr_id, b[j].token)
                    } by {
                        let jj = if j < i { j } else { j + 1 };
                        assert(b[j] == pre[jj]);
                        assert(pre[jj].source@ != k);
                    }
                    assert forall|kk: Seq<char>| #[trigger] self.cursors@.contains_key(kk) implies
                        exists|j: int| 0 <= j < b.len() && #[trigger] b[j].source@ == kk by {
                        let jj = choose|jj: int| 0 <= jj < pre.len() && #[trigger] pre[jj].source@ == kk;
                        assert(jj != i);
                        let j = if jj < i { jj } else { jj - 1 };
                        assert(b[j] == pre[jj]);
                    }
                    assert forall|x: int, y: int| 0 <= x < b.len() && 0 <= y < b.len()
                        && #[trigger] b[x].source@ == #[trigger] b[y].source@ implies x == y by {
                        let xx = if x < i { x } else { x + 1 };
                        let yy = if y < i { y } else { y + 1 };
                        assert(b[x] == pre[xx]);
                        assert(b[y] == pre[yy]);
                    }
                }
            },
            None => {
                assert(self.cursors@.remove(k) =~= self.cursors@);
            },
        }
    }
}

} // verus!
