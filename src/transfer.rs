use vstd::prelude::*;

use crate::registry::{Contract, MAX_ID};
use crate::types::{AccountId, ClassId, CtrId, RegistryError, TokenId};

verus! {

/// Position (`c1`, `t1`) comes before (`c2`, `t2`) in the transfer order:
/// by issuer id, then by token id.
pub open(crate) spec fn pos_lt(c1: int, t1: int, c2: int, t2: int) -> bool {
    c1 < c2 || (c1 == c2 && t1 < t2)
}

/// The owner index `m` after the entries `mv` of `src`, keyed by (issuer,
/// class), have moved to `dst`: they leave `src` and replace whatever `dst`
/// held for the same issuer and class.
pub open(crate) spec fn rekey(
    m: Map<(Seq<char>, CtrId, ClassId), TokenId>,
    src: Seq<char>,
    dst: Seq<char>,
    mv: Map<(CtrId, ClassId), TokenId>,
) -> Map<(Seq<char>, CtrId, ClassId), TokenId> {
    Map::new(
        |key: (Seq<char>, CtrId, ClassId)|
            (key.0 == dst && mv.contains_key((key.1, key.2)))
            || (m.contains_key(key) && !(key.0 == src && mv.contains_key((key.1, key.2)))),
        |key: (Seq<char>, CtrId, ClassId)|
            if key.0 == dst && mv.contains_key((key.1, key.2)) { mv[(key.1, key.2)] } else { m[key] },
    )
}

/// Token `t` of issuer `c` is one of the moved entries `mv`.
pub open(crate) spec fn is_moved(pre: Contract, mv: Map<(CtrId, ClassId), TokenId>, c: int, t: int) -> bool {
    &&& mv.contains_key((c as CtrId, pre.record(c, t).metadata.class))
    &&& mv[(c as CtrId, pre.record(c, t).metadata.class)] == t
}

/// `post` stores the same tokens as `pre`, the moved ones now owned by `dst`.
pub open(crate) spec fn store_after_moves(pre: Contract, post: Contract, dst: Seq<char>, mv: Map<(CtrId, ClassId), TokenId>) -> bool {
    &&& forall|c: int| #[trigger] post.supply_of(c) == pre.supply_of(c)
    &&& forall|c: int, t: int| pre.has_token(c, t) ==> {
        &&& (#[trigger] post.record(c, t)).metadata == pre.record(c, t).metadata
        &&& post.record(c, t).owner == if is_moved(pre, mv, c, t) { dst } else { pre.record(c, t).owner }
    }
}

/// The entry of `src` for (issuer, class) `key` stands after (`sc`, `st`).
pub open(crate) spec fn pending_entry(pre: Contract, src: Seq<char>, key: (CtrId, ClassId), sc: int, st: int) -> bool {
    &&& pre.index@.contains_key((src, key.0, key.1))
    &&& pos_lt(sc, st, key.0 as int, pre.index@[(src, key.0, key.1)] as int)
}

/// Every entry in `mv` is an entry of `src` in `pre` after (`sc`, `st`).
pub open(crate) spec fn moves_from(pre: Contract, src: Seq<char>, mv: Map<(CtrId, ClassId), TokenId>, sc: int, st: int) -> bool {
    forall|key: (CtrId, ClassId)| #[trigger] mv.contains_key(key) ==> {
        &&& pending_entry(pre, src, key, sc, st)
        &&& mv[key] == pre.index@[(src, key.0, key.1)]
    }
}

/// No entry of `src` stands after (`sc`, `st`) in `s`.
pub open(crate) spec fn nothing_after(s: Contract, src: Seq<char>, sc: int, st: int) -> bool {
    forall|key: (Seq<char>, CtrId, ClassId)| #[trigger] s.index@.contains_key(key) && key.0 == src
        ==> !pos_lt(sc, st, key.1 as int, s.index@[key] as int)
}

/// Every entry of `src` in `s` stands after (`sc`, `st`).
pub open(crate) spec fn all_after(s: Contract, src: Seq<char>, sc: int, st: int) -> bool {
    forall|key: (Seq<char>, CtrId, ClassId)| #[trigger] s.index@.contains_key(key) && key.0 == src
        ==> pos_lt(sc, st, key.1 as int, s.index@[key] as int)
}

/// `src` has no entry in the owner index of `s`.
pub open(crate) spec fn holds_nothing(s: Contract, src: Seq<char>) -> bool {
    forall|key: (Seq<char>, CtrId, ClassId)| #[trigger] s.index@.contains_key(key) ==> key.0 != src
}

/// Every entry of `src` stands after the position its transfer resumes
/// from, so a transfer run to completion leaves none behind.
pub open(crate) spec fn resumable(s: Contract, src: Seq<char>) -> bool {
    all_after(s, src, start_of(s, src).0 as int, start_of(s, src).1 as int)
}

/// The cursor a transfer out of `src` resumes from: (0, 0), before every
/// token, when none is in progress.
pub open(crate) spec fn start_of(s: Contract, src: Seq<char>) -> (CtrId, TokenId) {
    if s.cursors@.contains_key(src) { s.cursors@[src] } else { (0, 0) }
}

impl Contract {
    /// Moves token `t` of issuer `c` from `src` to `dst`, in the store and in
    /// the owner index.
    pub(crate) fn move_token(&mut self, src: &AccountId, dst: &AccountId, c: CtrId, t: TokenId)
        requires
            old(self).wf(),
            old(self).holds(src@, c as int, t as int),
            src@ != dst@,
        ensures
            final(self).wf(),
            final(self).index_ghost()@ == old(self).index_ghost()@.remove((src@, c, old(self).record(c as int, t as int).metadata.class)).insert(
                (dst@, c, old(self).record(c as int, t as int).metadata.class), t),
            final(self).token_table()@.len() == old(self).token_table()@.len(),
            forall|d: int| #[trigger] final(self).supply_of(d) == old(self).supply_of(d),
            forall|d: int, u: int| old(self).has_token(d, u) ==> {
                &&& (#[trigger] final(self).record(d, u)).metadata == old(self).record(d, u).metadata
                &&& final(self).record(d, u).owner == if d == c && u == t { dst@ } else { old(self).record(d, u).owner }
            },
            final(self).admin_account() == old(self).admin_account(),
            final(self).issuer_table() == old(self).issuer_table(),
            final(self).ban_table() == old(self).ban_table(),
            final(self).cursor_table() == old(self).cursor_table(),
            final(self).cursor_ghost() == old(self).cursor_ghost(),
    {
        let ghost pre = *self;
        let n: usize = self.ctr_tokens.len();
        assert(c - 1 < n);
        let ci: usize = (c - 1) as usize;
        let len: usize = self.ctr_tokens[ci].len();
        assert(t - 1 < len);
        let ti: usize = (t - 1) as usize;
        let class = self.ctr_tokens[ci][ti].metadata.class;
        assert(class == pre.record(c as int, t as int).metadata.class);
        self.index_remove(src, c, class);
        self.index_upsert(dst, c, class, t);
        self.ctr_tokens[ci][ti].owner = dst.clone();
        proof {
            assert forall|d: int| #[trigger] self.supply_of(d) == pre.supply_of(d) by {
                if 1 <= d <= self.ctr_tokens@.len() && d != c {
                    assert(self.ctr_tokens@[d - 1] == pre.ctr_tokens@[d - 1]);
                }
            }
            assert forall|d: int, u: int| pre.has_token(d, u) implies {
                &&& (#[trigger] self.record(d, u)).metadata == pre.record(d, u).metadata
                &&& self.record(d, u).owner == if d == c && u == t { dst@ } else { pre.record(d, u).owner }
            } by {
                if d != c {
                    assert(self.ctr_tokens@[d - 1] == pre.ctr_tokens@[d - 1]);
                } else if u != t {
                    assert(self.ctr_tokens@[d - 1]@[u - 1] == pre.ctr_tokens@[d - 1]@[u - 1]);
                }
            }
            assert forall|x: int| 0 <= x < self.ctr_tokens@.len() implies #[trigger] self.ctr_tokens@[x]@.len() <= MAX_ID by {
                if x != ci {
                    assert(self.ctr_tokens@[x] == pre.ctr_tokens@[x]);
                }
            }
            assert forall|k: (Seq<char>, CtrId, ClassId)| #[trigger] self.index@.contains_key(k) implies {
                &&& self.has_token(k.1 as int, self.index@[k] as int)
                &&& self.record(k.1 as int, self.index@[k] as int).owner == k.0
                &&& self.record(k.1 as int, self.index@[k] as int).metadata.class == k.2
            } by {
                if k != (dst@, c, class) {
                    assert(pre.index@.contains_key(k));
                    assert(k != (src@, c, class));
                    assert(pre.has_token(k.1 as int, pre.index@[k] as int));
                    if k.1 == c && pre.index@[k] == t {
                        assert(pre.record(c as int, t as int).owner == k.0);
                        assert(k.0 == src@);
                        assert(k.2 == class);
                    }
                }
            }
        }
    }

    /// One step of the transfer of all tokens of `caller` to `to`: moves, in
    /// order of issuer id then token id, at most `limit` of the tokens that
    /// `caller` holds after its cursor, in the store and in the owner index.
    /// Returns `to`, the last token id moved (the cursor's when none was) and
    /// whether the transfer is complete; when it is not, the cursor records
    /// the last position moved and the caller calls again. Fails, changing
    /// nothing, if `to` is banned or is `caller`.
    pub fn sbt_soul_transfer(&mut self, caller: &AccountId, to: AccountId, limit: u64) -> (r: Result<(AccountId, TokenId, bool), RegistryError>)
        requires
            old(self).wf(),
        ensures
            final(self).wf(),
            old(self).is_banned_spec(to@) ==> r == Err::<(AccountId, TokenId, bool), RegistryError>(RegistryError::BannedRecipient)
                && *final(self) == *old(self),
            !old(self).is_banned_spec(to@) && to@ == caller@ ==> r == Err::<(AccountId, TokenId, bool), RegistryError>(RegistryError::TransferToSelf)
                && *final(self) == *old(self),
            !old(self).is_banned_spec(to@) && to@ != caller@ ==> r.is_ok(),
            r.is_ok() && holds_nothing(*old(self), caller@) && !old(self).cursor_view().contains_key(caller@) ==> {
                &&& r.unwrap().1 == 0
                &&& r.unwrap().2
                &&& final(self).index_view() == old(self).index_view()
                &&& final(self).token_table() == old(self).token_table()
                &&& final(self).cursor_view() == old(self).cursor_view()
            },
            r.is_ok() ==> ({
                let sc = start_of(*old(self), caller@).0 as int;
                let st = start_of(*old(self), caller@).1 as int;
                let (dst, last, done) = r.unwrap();
                &&& dst@ == to@
                &&& final(self).admin_account() == old(self).admin_account()
                &&& final(self).issuer_table() == old(self).issuer_table()
                &&& final(self).ban_table() == old(self).ban_table()
                &&& exists|mv: Map<(CtrId, ClassId), TokenId>| {
                    &&& mv.dom().finite()
                    &&& mv.len() <= limit
                    &&& moves_from(*old(self), caller@, mv, sc, st)
                    &&& final(self).index_view() == rekey(old(self).index_view(), caller@, to@, mv)
                    &&& store_after_moves(*old(self), *final(self), to@, mv)
                    &&& done ==> {
                        &&& forall|key: (CtrId, ClassId)| pending_entry(*old(self), caller@, key, sc, st) ==> #[trigger] mv.contains_key(key)
                        &&& final(self).cursor_view() == old(self).cursor_view().remove(caller@)
                        &&& nothing_after(*final(self), caller@, sc, st)
                        &&& resumable(*old(self), caller@) ==> holds_nothing(*final(self), caller@)
                    }
                    &&& !done ==> {
                        &&& mv.len() == limit
                        &&& final(self).cursor_view().contains_key(caller@)
                        &&& final(self).cursor_view() == old(self).cursor_view().insert(caller@, final(self).cursor_view()[caller@])
                        &&& final(self).cursor_view()[caller@].1 == last
                        &&& exists|key: (CtrId, ClassId)| pending_entry(*old(self), caller@, key, sc, st) && !mv.contains_key(key)
                        &&& resumable(*old(self), caller@) ==> resumable(*final(self), caller@)
                    }
                }
            }),
    {
        if self.is_banned(&to) {
            return Err(RegistryError::BannedRecipient);
        }
        if to == *caller {
            return Err(RegistryError::TransferToSelf);
        }
        let (sc, st): (CtrId, TokenId) = match self.cursor_of(caller) {
            Some(p) => p,
            None => (0, 0),
        };
        let ghost pre = *self;
        let ghost src = caller@;
        let ghost dst = to@;
        let ghost mut mv: Map<(CtrId, ClassId), TokenId> = Map::empty();
        let ghost mut found: (CtrId, ClassId) = (0, 0);
        let mut moved: u64 = 0;
        let mut lc: CtrId = sc;
        let mut lt: TokenId = st;
        let mut more = false;
        let n: usize = self.ctr_tokens.len();
        let mut ci: usize = if sc == 0 {
            0
        } else if sc - 1 >= n as u64 {
            n
        } else {
            (sc - 1) as usize
        };
        assert(rekey(pre.index@, src, dst, mv) =~= pre.index@);
        while ci < n && !more
            invariant
                self.wf(),
                pre.wf(),
                n == self.ctr_tokens@.len(),
                n == pre.ctr_tokens@.len(),
                src == caller@,
                dst == to@,
                src != dst,
                (sc, st) == start_of(pre, src),
                ci <= n,
                sc == 0 || ci as int >= sc - 1 || ci == n,
                mv.len() > 0 && !more ==> pos_lt(lc as int, lt as int, ci + 1, 1),
                moved == mv.len(),
                mv.dom().finite(),
                moved <= limit,
                moves_from(pre, src, mv, sc as int, st as int),
                forall|key: (CtrId, ClassId)| #[trigger] mv.contains_key(key) ==> (!more ==> key.0 <= ci)
                    && !pos_lt(lc as int, lt as int, key.0 as int, mv[key] as int),
                mv.len() == 0 ==> lc == sc && lt == st,
                moved == 0 ==> self.ctr_tokens == pre.ctr_tokens,
                self.index@ == rekey(pre.index@, src, dst, mv),
                store_after_moves(pre, *self, dst, mv),
                !more ==> forall|key: (CtrId, ClassId)| pending_entry(pre, src, key, sc as int, st as int) && key.0 <= ci
                    ==> #[trigger] mv.contains_key(key),
                more ==> moved == limit && pending_entry(pre, src, found, sc as int, st as int) && !mv.contains_key(found),
                more ==> forall|key: (CtrId, ClassId)| pending_entry(pre, src, key, sc as int, st as int) && !mv.contains_key(key)
                    ==> pos_lt(lc as int, lt as int, key.0 as int, #[trigger] pre.index@[(src, key.0, key.1)] as int),
                self.admin == pre.admin,
                self.sbt_contracts == pre.sbt_contracts,
                self.banlist == pre.banlist,
                self.ongoing_soul_tx == pre.ongoing_soul_tx,
                self.cursors == pre.cursors,
            decreases n - ci + (if more { 0int } else { 1int }),
        {
            let c: CtrId = ci as u64 + 1;
            let len: usize = self.ctr_tokens[ci].len();
            assert(self.supply_of(c as int) == pre.supply_of(c as int));
            let mut ti: usize = if c == sc {
                if st < len as u64 { st as usize } else { len }
            } else {
                0
            };
            while ti < len && !more
                invariant
                    self.wf(),
                    pre.wf(),
                    n == self.ctr_tokens@.len(),
                    n == pre.ctr_tokens@.len(),
                    self.ctr_tokens@[ci as int]@.len() == len,
                    src == caller@,
                    dst == to@,
                    src != dst,
                    (sc, st) == start_of(pre, src),
                    ci < n,
                    c == ci + 1,
                    len == pre.supply_of(c as int),
                    ti <= len,
                    c > sc || (c == sc && (ti >= st || ti == len)),
                    moved == mv.len(),
                    mv.dom().finite(),
                    moved <= limit,
                    moves_from(pre, src, mv, sc as int, st as int),
                    forall|key: (CtrId, ClassId)| #[trigger] mv.contains_key(key) ==> pos_lt(key.0 as int, mv[key] as int, c as int, ti + 1)
                        && !pos_lt(lc as int, lt as int, key.0 as int, mv[key] as int),
                    mv.len() == 0 ==> lc == sc && lt == st,
                    moved == 0 ==> self.ctr_tokens == pre.ctr_tokens,
                    mv.len() > 0 ==> pos_lt(lc as int, lt as int, c as int, ti + 1),
                    self.index@ == rekey(pre.index@, src, dst, mv),
                    store_after_moves(pre, *self, dst, mv),
                    !more ==> forall|key: (CtrId, ClassId)| pending_entry(pre, src, key, sc as int, st as int)
                        && pos_lt(key.0 as int, pre.index@[(src, key.0, key.1)] as int, c as int, ti + 1)
                        ==> #[trigger] mv.contains_key(key),
                    more ==> moved == limit && pending_entry(pre, src, found, sc as int, st as int) && !mv.contains_key(found),
                    more ==> forall|key: (CtrId, ClassId)| pending_entry(pre, src, key, sc as int, st as int) && !mv.contains_key(key)
                        ==> pos_lt(lc as int, lt as int, key.0 as int, #[trigger] pre.index@[(src, key.0, key.1)] as int),
                    self.admin == pre.admin,
                    self.sbt_contracts == pre.sbt_contracts,
                    self.banlist == pre.banlist,
                    self.ongoing_soul_tx == pre.ongoing_soul_tx,
                    self.cursors == pre.cursors,
                decreases len - ti + (if more { 0int } else { 1int }),
            {
                let t: TokenId = ti as u64 + 1;
                let owner_now = self.ctr_tokens[ci][ti].owner == *caller;
                let class = self.ctr_tokens[ci][ti].metadata.class;
                let ghost k: (CtrId, ClassId) = (c, class);
                proof {
                    assert(pre.has_token(c as int, t as int));
                    assert(self.record(c as int, t as int) == self.ctr_tokens@[ci as int]@[ti as int]@);
                    if is_moved(pre, mv, c as int, t as int) {
                        let kk = (c, pre.record(c as int, t as int).metadata.class);
                        assert(mv.contains_key(kk));
                    }
                    assert(self.record(c as int, t as int) == pre.record(c as int, t as int));
                }
                let held = owner_now && match self.lookup_entry(caller, c, class) {
                    Some(x) => x == t,
                    None => false,
                };
                proof {
                    if pre.holds(src, c as int, t as int) {
                        if mv.contains_key(k) {
                            assert(mv[k] == pre.index@[(src, c, class)]);
                        }
                        assert(self.index@.contains_key((src, c, class)));
                    }
                    if held {
                        assert(pre.index@.contains_key((src, c, class)));
                    }
                    assert(held == pre.holds(src, c as int, t as int));
                }
                if held {
                    if moved == limit {
                        more = true;
                        proof {
                            found = k;
                            assert(pending_entry(pre, src, found, sc as int, st as int));
                            assert(!mv.contains_key(found));
                        }
                    } else {
                        let ghost before = *self;
                        self.move_token(caller, &to, c, t);
                        proof {
                            assert(self.supply_of(c as int) == before.supply_of(c as int));
                            assert(!mv.contains_key(k));
                            let mv2 = mv.insert(k, t);
                            assert(self.index@ =~= rekey(pre.index@, src, dst, mv2));
                            assert forall|d: int, u: int| pre.has_token(d, u) implies {
                                &&& (#[trigger] self.record(d, u)).metadata == pre.record(d, u).metadata
                                &&& self.record(d, u).owner == if is_moved(pre, mv2, d, u) { dst } else { pre.record(d, u).owner }
                            } by {
                                assert(before.has_token(d, u));
                            }
                            mv = mv2;
                        }
                        moved = moved + 1;
                        lc = c;
                        lt = t;
                    }
                }
                if !more {
                    ti = ti + 1;
                }
            }
            if !more {
                ci = ci + 1;
            }
        }
        let ghost mid = *self;
        if more {
            self.cursor_set(caller, lc, lt);
            proof {
                if holds_nothing(pre, src) {
                    assert(pre.index@.contains_key((src, found.0, found.1)));
                }
                assert(self.cursor_view() =~= pre.cursor_view().insert(src, (lc, lt)));
                assert(start_of(*self, src) == (lc, lt));
                if resumable(pre, src) {
                    assert forall|key: (Seq<char>, CtrId, ClassId)| #[trigger] self.index@.contains_key(key) && key.0 == src
                        implies pos_lt(lc as int, lt as int, key.1 as int, self.index@[key] as int) by {
                        let kk = (key.1, key.2);
                        assert(pre.index@.contains_key(key));
                        assert(pending_entry(pre, src, kk, sc as int, st as int));
                        assert(!mv.contains_key(kk));
                        assert(pre.index@[(src, kk.0, kk.1)] == self.index@[key]);
                    }
                }
                assert(self.index_view() == rekey(pre.index_view(), caller@, to@, mv));
                assert(store_after_moves(pre, mid, to@, mv));
                assert forall|c: int| #[trigger] self.supply_of(c) == pre.supply_of(c) by {
                    assert(mid.supply_of(c) == pre.supply_of(c));
                }
                assert forall|c: int, t: int| pre.has_token(c, t) implies #[trigger] self.record(c, t) == mid.record(c, t) by {}
                assert(store_after_moves(pre, *self, to@, mv));
            }
            Ok((to, lt, false))
        } else {
            self.cursor_remove(caller);
            proof {
                if holds_nothing(pre, src) && !pre.cursor_view().contains_key(src) {
                    assert forall|key: (CtrId, ClassId)| !mv.contains_key(key) by {
                        if mv.contains_key(key) {
                            assert(pre.index@.contains_key((src, key.0, key.1)));
                        }
                    }
                    assert(mv =~= Map::<(CtrId, ClassId), TokenId>::empty());
                    assert(mv.len() == 0);
                    assert(self.index@ =~= pre.index@);
                    assert(self.cursor_view() =~= pre.cursor_view());
                }
                assert forall|key: (CtrId, ClassId)| pending_entry(pre, src, key, sc as int, st as int)
                    implies #[trigger] mv.contains_key(key) by {
                    assert(pre.has_token(key.0 as int, pre.index@[(src, key.0, key.1)] as int));
                }
                assert forall|key: (Seq<char>, CtrId, ClassId)| #[trigger] self.index@.contains_key(key) && key.0 == src
                    implies !pos_lt(sc as int, st as int, key.1 as int, self.index@[key] as int) by {
                    let kk = (key.1, key.2);
                    assert(pre.index@.contains_key(key));
                    assert(!mv.contains_key(kk));
                    assert(pre.has_token(key.1 as int, pre.index@[key] as int));
                }
                if resumable(pre, src) {
                    assert forall|key: (Seq<char>, CtrId, ClassId)| #[trigger] self.index@.contains_key(key)
                        implies key.0 != src by {
                        if key.0 == src {
                            let kk = (key.1, key.2);
                            assert(pre.index@.contains_key(key));
                            assert(pending_entry(pre, src, kk, sc as int, st as int));
                        }
                    }
                }
                assert(self.index_view() == rekey(pre.index_view(), caller@, to@, mv));
                assert(store_after_moves(pre, mid, to@, mv));
                assert forall|c: int| #[trigger] self.supply_of(c) == pre.supply_of(c) by {
                    assert(mid.supply_of(c) == pre.supply_of(c));
                }
                assert forall|c: int, t: int| pre.has_token(c, t) implies #[trigger] self.record(c, t) == mid.record(c, t) by {}
                assert(store_after_moves(pre, *self, to@, mv));
            }
            Ok((to, lt, true))
        }
    }
}

} // verus!
