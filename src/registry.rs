use vstd::prelude::*;

use crate::types::{AccountId, BalanceEntry, ClassId, CtrId, RecordView, RegistryError, SoulCursor, TokenId, TokenRecord};

verus! {

/// Largest number of tokens an issuer can mint: ids must fit in a `u64`.
pub const MAX_ID: u64 = 0xffff_ffff_ffff_fffe;

/// The owner-index table `b` holds each key once and lists exactly the map `m`.
pub open(crate) spec fn index_matches(b: Seq<BalanceEntry>, m: Map<(Seq<char>, CtrId, ClassId), TokenId>) -> bool {
    &&& forall|i: int| 0 <= i < b.len() ==> {
        &&& m.contains_key(#[trigger] b[i].key())
        &&& m[b[i].key()] == b[i].token
    }
    &&& forall|k: (Seq<char>, CtrId, ClassId)| #[trigger] m.contains_key(k)
        ==> exists|i: int| 0 <= i < b.len() && #[trigger] b[i].key() == k
    &&& forall|i: int, j: int| 0 <= i < b.len() && 0 <= j < b.len()
        && #[trigger] b[i].key() == #[trigger] b[j].key() ==> i == j
}

/// The cursor table `s` holds each source once and lists exactly the map `m`.
pub open(crate) spec fn cursors_match(s: Seq<SoulCursor>, m: Map<Seq<char>, (CtrId, TokenId)>) -> bool {
    &&& forall|i: int| 0 <= i < s.len() ==> {
        &&& m.contains_key(#[trigger] s[i].source@)
        &&& m[s[i].source@] == (s[i].ctr_id, s[i].token)
    }
    &&& forall|a: Seq<char>| #[trigger] m.contains_key(a)
        ==> exists|i: int| 0 <= i < s.len() && #[trigger] s[i].source@ == a
    &&& forall|i: int, j: int| 0 <= i < s.len() && 0 <= j < s.len()
        && #[trigger] s[i].source@ == #[trigger] s[j].source@ ==> i == j
}

/// The soul-bound token registry: issuer directory, ban list, per-issuer
/// token store, owner index and soul-transfer cursors.
pub struct Contract {
    pub(crate) admin: AccountId,
    /// Issuer with id `i + 1` stands at index `i`: the account to id and the
    /// id to account lookups are one table and cannot drift apart.
    pub(crate) sbt_contracts: Vec<AccountId>,
    /// Accounts that may not receive tokens.
    pub(crate) banlist: Vec<AccountId>,
    /// Owner index: one entry per (owner, issuer, class).
    pub(crate) balances: Vec<BalanceEntry>,
    pub(crate) index: Ghost<Map<(Seq<char>, CtrId, ClassId), TokenId>>,
    /// Token store: the token `t` of issuer `c` stands at `ctr_tokens[c - 1][t - 1]`,
    /// so the next id of an issuer is one past the length of its row.
    pub(crate) ctr_tokens: Vec<Vec<TokenRecord>>,
    /// Soul transfers in progress, one per source account.
    pub(crate) ongoing_soul_tx: Vec<SoulCursor>,
    pub(crate) cursors: Ghost<Map<Seq<char>, (CtrId, TokenId)>>,
}

impl Contract {
    /// Registered issuer accounts, by issuer id minus one.
    pub open(crate) spec fn issuers(&self) -> Seq<Seq<char>> {
        self.sbt_contracts@.map_values(|a: AccountId| a@)
    }

    /// Whether `a` is a registered issuer with id `c`.
    pub open(crate) spec fn issuer_has_id(&self, a: Seq<char>, c: int) -> bool {
        1 <= c <= self.issuers().len() && self.issuers()[c - 1] == a
    }

    /// Whether `a` is a registered issuer.
    pub open(crate) spec fn is_issuer_spec(&self, a: Seq<char>) -> bool {
        self.issuers().contains(a)
    }

    /// Whether `a` is on the ban list.
    pub open(crate) spec fn is_banned_spec(&self, a: Seq<char>) -> bool {
        self.banlist@.map_values(|b: AccountId| b@).contains(a)
    }

    /// The `admin` field as it is stored.
    pub open(crate) spec fn admin_account(&self) -> AccountId {
        self.admin
    }

    /// The `sbt_contracts` field as it is stored.
    pub open(crate) spec fn issuer_table(&self) -> Vec<AccountId> {
        self.sbt_contracts
    }

    /// The `banlist` field as it is stored.
    pub open(crate) spec fn ban_table(&self) -> Vec<AccountId> {
        self.banlist
    }

    /// The `balances` field as it is stored.
    pub open(crate) spec fn balance_table(&self) -> Vec<BalanceEntry> {
        self.balances
    }

    /// The `index` field as it is stored.
    pub open(crate) spec fn index_ghost(&self) -> Ghost<Map<(Seq<char>, CtrId, ClassId), TokenId>> {
        self.index
    }

    /// The `ctr_tokens` field as it is stored.
    pub open(crate) spec fn token_table(&self) -> Vec<Vec<TokenRecord>> {
        self.ctr_tokens
    }

    /// The `ongoing_soul_tx` field as it is stored.
    pub open(crate) spec fn cursor_table(&self) -> Vec<SoulCursor> {
        self.ongoing_soul_tx
    }

    /// The `cursors` field as it is stored.
    pub open(crate) spec fn cursor_ghost(&self) -> Ghost<Map<Seq<char>, (CtrId, TokenId)>> {
        self.cursors
    }

    /// Number of issuers the token store has a row for.
    pub open(crate) spec fn token_rows(&self) -> nat {
        self.ctr_tokens@.len()
    }

    /// Number of tokens issuer `c` has minted: its counter.
    pub open(crate) spec fn supply_of(&self, c: int) -> nat {
        if 1 <= c <= self.ctr_tokens@.len() {
            self.ctr_tokens@[c - 1]@.len()
        } else {
            0
        }
    }

    /// The stored tokens of issuer `c`, token `t` at index `t - 1`.
    pub open(crate) spec fn tokens_of(&self, c: int) -> Seq<RecordView> {
        if 1 <= c <= self.ctr_tokens@.len() {
            self.ctr_tokens@[c - 1]@.map_values(|r: TokenRecord| r@)
        } else {
            Seq::empty()
        }
    }

    /// Token `t` of issuer `c` exists.
    pub open(crate) spec fn has_token(&self, c: int, t: int) -> bool {
        1 <= t <= self.supply_of(c)
    }

    /// The stored token `t` of issuer `c`.
    pub open(crate) spec fn record(&self, c: int, t: int) -> RecordView {
        self.tokens_of(c)[t - 1]
    }

    /// The owner index as a map from (owner, issuer, class) to token id.
    pub open(crate) spec fn index_view(&self) -> Map<(Seq<char>, CtrId, ClassId), TokenId> {
        self.index@
    }

    /// Token `t` of issuer `c` is listed in the owner index under `o`.
    pub open(crate) spec fn holds(&self, o: Seq<char>, c: int, t: int) -> bool {
        &&& self.has_token(c, t)
        &&& self.record(c, t).owner == o
        &&& self.index@.contains_key((o, c as CtrId, self.record(c, t).metadata.class))
        &&& self.index@[(o, c as CtrId, self.record(c, t).metadata.class)] == t
    }

    /// The in-progress transfer position of each source account.
    pub open(crate) spec fn cursor_view(&self) -> Map<Seq<char>, (CtrId, TokenId)> {
        self.cursors@
    }

    /// The registry's invariant: issuers are distinct and each has a token
    /// row; the owner-index table and the cursor table hold each key once and
    /// match their maps; every index entry names an existing token whose
    /// owner and class are those of its key.
    pub open(crate) spec fn wf(&self) -> bool {
        &&& self.issuers().no_duplicates()
        &&& self.ctr_tokens@.len() == self.sbt_contracts@.len()
        &&& forall|c: int| 0 <= c < self.ctr_tokens@.len() ==> #[trigger] self.ctr_tokens@[c]@.len() <= MAX_ID
        &&& index_matches(self.balances@, self.index@)
        // every index entry names an existing token with that owner and class
        &&& forall|k: (Seq<char>, CtrId, ClassId)| #[trigger] self.index@.contains_key(k) ==> {
            &&& self.has_token(k.1 as int, self.index@[k] as int)
            &&& self.record(k.1 as int, self.index@[k] as int).owner == k.0
            &&& self.record(k.1 as int, self.index@[k] as int).metadata.class == k.2
        }
        &&& cursors_match(self.ongoing_soul_tx@, self.cursors@)
    }

    /// An empty registry administered by `admin`.
    pub fn new(admin: AccountId) -> (r: Contract)
        ensures
            r.wf(),
            r.admin_account()@ == admin@,
            r.issuers() == Seq::<Seq<char>>::empty(),
            forall|a: Seq<char>| !r.is_banned_spec(a),
            r.ban_table()@.len() == 0,
            r.index_view() == Map::<(Seq<char>, CtrId, ClassId), TokenId>::empty(),
            r.cursor_view() == Map::<Seq<char>, (CtrId, TokenId)>::empty(),
    {
        let r = Contract {
            admin,
            sbt_contracts: Vec::new(),
            banlist: Vec::new(),
            balances: Vec::new(),
            index: Ghost(Map::empty()),
            ctr_tokens: Vec::new(),
            ongoing_soul_tx: Vec::new(),
            cursors: Ghost(Map::empty()),
        };
        assert(r.issuers() =~= Seq::<Seq<char>>::empty());
        r
    }

    /// Registered issuer accounts in order of registration.
    pub fn sbt_contracts(&self) -> (r: Vec<AccountId>)
        ensures
            r@.map_values(|a: AccountId| a@) == self.issuers(),
    {
        let mut out: Vec<AccountId> = Vec::new();
        let mut i: usize = 0;
        while i < self.sbt_contracts.len()
            invariant
                i <= self.sbt_contracts@.len(),
                out@.len() == i,
                forall|j: int| 0 <= j < i ==> #[trigger] out@[j]@ == self.issuers()[j],
            decreases self.sbt_contracts@.len() - i,
        {
            let a = self.sbt_contracts[i].clone();
            assert(a@ == self.issuers()[i as int]);
            out.push(a);
            i = i + 1;
        }
        assert(out@.map_values(|a: AccountId| a@) =~= self.issuers());
        out
    }

    /// The id of issuer `issuer`, if it is registered.
    pub fn ctr_id(&self, issuer: &AccountId) -> (r: Option<CtrId>)
        requires
            self.wf(),
        ensures
            r.is_some() <==> self.is_issuer_spec(issuer@),
            r.is_some() ==> self.issuer_has_id(issuer@, r.unwrap() as int),
    {
        let mut i: usize = 0;
        while i < self.sbt_contracts.len()
            invariant
                self.wf(),
                i <= self.sbt_contracts@.len(),
                forall|j: int| 0 <= j < i ==> self.issuers()[j] != issuer@,
            decreases self.sbt_contracts@.len() - i,
        {
            if self.sbt_contracts[i] == *issuer {
                assert(self.issuers()[i as int] == issuer@);
                return Some(i as u64 + 1);
            }
            i = i + 1;
        }
        proof {
            if self.is_issuer_spec(issuer@) {
                let j = choose|j: int| 0 <= j < self.issuers().len() && self.issuers()[j] == issuer@;
                assert(self.issuers()[j] == issuer@);
            }
        }
        None
    }

    /// Whether `account` is a registered issuer.
    pub fn is_issuer(&self, account: &AccountId) -> (r: bool)
        requires
            self.wf(),
        ensures
            r == self.is_issuer_spec(account@),
    {
        self.ctr_id(account).is_some()
    }

    /// Whether `account` is banned.
    pub fn is_banned(&self, account: &AccountId) -> (r: bool)
        ensures
            r == self.is_banned_spec(account@),
    {
        let mut i: usize = 0;
        while i < self.banlist.len()
            invariant
                i <= self.banlist@.len(),
                forall|j: int| 0 <= j < i ==> self.banlist@[j]@ != account@,
            decreases self.banlist@.len() - i,
        {
            if self.banlist[i] == *account {
                assert(self.banlist@.map_values(|b: AccountId| b@)[i as int] == account@);
                return true;
            }
            i = i + 1;
        }
        proof {
            if self.is_banned_spec(account@) {
                let bs = self.banlist@.map_values(|b: AccountId| b@);
                let j = choose|j: int| 0 <= j < bs.len() && bs[j] == account@;
                assert(self.banlist@[j]@ == account@);
            }
        }
        false
    }

    /// Registers `issuer` under the next issuer id. Returns `Ok(false)`, and
    /// changes nothing, if it was already registered. Only the admin may call.
    pub fn admin_add_sbt_issuer(&mut self, caller: &AccountId, issuer: AccountId) -> (r: Result<bool, RegistryError>)
        requires
            old(self).wf(),
        ensures
            final(self).wf(),
            caller@ != old(self).admin_account()@ ==> r == Err::<bool, RegistryError>(RegistryError::NotAdmin) && *final(self) == *old(self),
            caller@ == old(self).admin_account()@ && old(self).is_issuer_spec(issuer@) ==> r == Ok::<bool, RegistryError>(false) && *final(self) == *old(self),
            caller@ == old(self).admin_account()@ && !old(self).is_issuer_spec(issuer@) ==> {
                &&& r == Ok::<bool, RegistryError>(true)
                &&& final(self).issuers() == old(self).issuers().push(issuer@)
                &&& final(self).admin_account() == old(self).admin_account()
                &&& final(self).ban_table() == old(self).ban_table()
                &&& final(self).index_view() == old(self).index_view()
                &&& final(self).cursor_view() == old(self).cursor_view()
                &&& forall|c: int| 1 <= c <= old(self).issuers().len() ==> #[trigger] final(self).tokens_of(c) == old(self).tokens_of(c)
                &&& final(self).tokens_of(final(self).issuers().len() as int) == Seq::<RecordView>::empty()
                &&& final(self).issuer_has_id(issuer@, final(self).issuers().len() as int)
                &&& final(self).is_issuer_spec(issuer@)
                &&& final(self).supply_of(final(self).issuers().len() as int) == 0
            },
    {
        if *caller != self.admin {
            return Err(RegistryError::NotAdmin);
        }
        if self.is_issuer(&issuer) {
            return Ok(false);
        }
        let ghost pre = *self;
        proof {
            assert(!pre.issuers().contains(issuer@));
        }
        self.sbt_contracts.push(issuer);
        self.ctr_tokens.push(Vec::new());
        proof {
            assert(self.issuers() =~= pre.issuers().push(issuer@));
            assert forall|i: int, j: int| 0 <= i < j < self.issuers().len() implies self.issuers()[i] != self.issuers()[j] by {
                if j == pre.issuers().len() {
                    assert(pre.issuers().contains(pre.issuers()[i]));
                }
            }
            assert forall|c: int| 1 <= c <= pre.issuers().len() implies #[trigger] self.tokens_of(c) == pre.tokens_of(c) by {
                assert(self.ctr_tokens@[c - 1] == pre.ctr_tokens@[c - 1]);
            }
            assert(self.tokens_of(self.issuers().len() as int) =~= Seq::<RecordView>::empty());
            assert forall|k: (Seq<char>, CtrId, ClassId)| #[trigger] self.index@.contains_key(k) implies {
                &&& self.has_token(k.1 as int, self.index@[k] as int)
                &&& self.record(k.1 as int, self.index@[k] as int).owner == k.0
                &&& self.record(k.1 as int, self.index@[k] as int).metadata.class == k.2
            } by {
                assert(pre.has_token(k.1 as int, pre.index@[k] as int));
                assert(self.ctr_tokens@[k.1 - 1] == pre.ctr_tokens@[k.1 - 1]);
            }
        }
        Ok(true)
    }

    /// Bans `account`: it can no longer receive tokens. Tokens it already
    /// holds stay with it. Only the admin may call.
    pub fn admin_ban(&mut self, caller: &AccountId, account: AccountId) -> (r: Result<(), RegistryError>)
        requires
            old(self).wf(),
        ensures
            final(self).wf(),
            caller@ != old(self).admin_account()@ ==> r == Err::<(), RegistryError>(RegistryError::NotAdmin) && *final(self) == *old(self),
            caller@ == old(self).admin_account()@ ==> {
                &&& r == Ok::<(), RegistryError>(())
                &&& forall|a: Seq<char>| #[trigger] final(self).is_banned_spec(a) == (old(self).is_banned_spec(a) || a == account@)
                &&& final(self).admin_account() == old(self).admin_account()
                &&& final(self).issuer_table() == old(self).issuer_table()
                &&& final(self).balance_table() == old(self).balance_table()
                &&& final(self).index_ghost() == old(self).index_ghost()
                &&& final(self).token_table() == old(self).token_table()
                &&& final(self).cursor_table() == old(self).cursor_table()
                &&& final(self).cursor_ghost() == old(self).cursor_ghost()
            },
    {
        if *caller != self.admin {
            return Err(RegistryError::NotAdmin);
        }
        let ghost pre = *self;
        self.banlist.push(account);
        proof {
            let bs = self.banlist@.map_values(|b: AccountId| b@);
            let ps = pre.banlist@.map_values(|b: AccountId| b@);
            assert(bs =~= ps.push(account@));
            assert forall|a: Seq<char>| #[trigger] self.is_banned_spec(a) == (pre.is_banned_spec(a) || a == account@) by {
                if pre.is_banned_spec(a) {
                    let j = choose|j: int| 0 <= j < ps.len() && ps[j] == a;
                    assert(bs[j] == a);
                }
                if a == account@ {
                    assert(bs[ps.len() as int] == a);
                }
                if self.is_banned_spec(a) && a != account@ {
                    let j = choose|j: int| 0 <= j < bs.len() && bs[j] == a;
                    assert(ps[j] == a);
                }
            }
        }
        Ok(())
    }
}

} // verus!
