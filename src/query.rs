use vstd::prelude::*;

use crate::registry::Contract;
use crate::types::{AccountId, ClassId, CtrId, OwnedToken, Token, TokenId};

verus! {

impl Contract {
    /// Ids among the first `n` tokens of issuer `c` that `o` holds, with a
    /// class in `lo..=hi`, in ascending order.
    pub open(crate) spec fn held_ids(&self, o: Seq<char>, c: int, n: int, lo: int, hi: int) -> Seq<TokenId>
        decreases n,
    {
        if n <= 0 {
            Seq::empty()
        } else {
            let prev = self.held_ids(o, c, n - 1, lo, hi);
            if self.holds(o, c, n) && lo <= self.record(c, n).metadata.class <= hi {
                prev.push(n as TokenId)
            } else {
                prev
            }
        }
    }

    /// All tokens of issuer `c` that `o` holds, with a class in `lo..=hi`.
    pub open(crate) spec fn owned_by(&self, o: Seq<char>, c: int, lo: int, hi: int) -> Seq<TokenId> {
        self.held_ids(o, c, self.supply_of(c) as int, lo, hi)
    }

    /// The tokens of `o` under issuers `c..=end`, grouped by issuer in
    /// ascending order, with at most `budget` tokens in all; an issuer with
    /// none is left out.
    pub open(crate) spec fn groups_from(&self, o: Seq<char>, c: int, end: int, lo: int, hi: int, budget: int) -> Seq<(int, Seq<TokenId>)>
        decreases end + 1 - c,
    {
        if c > end || budget <= 0 {
            Seq::empty()
        } else {
            let all = self.owned_by(o, c, lo, hi);
            let ids = if all.len() > budget { all.take(budget) } else { all };
            if ids.len() == 0 {
                self.groups_from(o, c + 1, end, lo, hi, budget)
            } else {
                seq![(c, ids)] + self.groups_from(o, c + 1, end, lo, hi, budget - ids.len())
            }
        }
    }

    /// `r` lists the groups `g` of (issuer id, token ids): each issuer by its
    /// account, each token by its id and metadata.
    pub open(crate) spec fn listing_matches(&self, r: Seq<(AccountId, Vec<OwnedToken>)>, g: Seq<(int, Seq<TokenId>)>) -> bool {
        &&& r.len() == g.len()
        &&& forall|i: int| 0 <= i < r.len() ==> {
            &&& 1 <= g[i].0 <= self.issuers().len()
            &&& (#[trigger] r[i]).0@ == self.issuers()[g[i].0 - 1]
            &&& r[i].1@.len() == g[i].1.len()
            &&& forall|j: int| 0 <= j < r[i].1@.len() ==> {
                &&& (#[trigger] r[i].1@[j]).token == g[i].1[j]
                &&& r[i].1@[j].metadata@ == self.record(g[i].0, g[i].1[j] as int).metadata
            }
        }
    }

    /// Every id that `held_ids` lists is a token that `o` holds.
    pub proof fn lemma_held_ids_held(&self, o: Seq<char>, c: int, n: int, lo: int, hi: int)
        requires
            self.wf(),
        ensures
            forall|j: int| 0 <= j < self.held_ids(o, c, n, lo, hi).len() ==> {
                &&& self.holds(o, c, #[trigger] self.held_ids(o, c, n, lo, hi)[j] as int)
                &&& 1 <= self.held_ids(o, c, n, lo, hi)[j] <= n
            },
        decreases n,
    {
        if n > 0 {
            self.lemma_held_ids_held(o, c, n - 1, lo, hi);
            let prev = self.held_ids(o, c, n - 1, lo, hi);
            if self.holds(o, c, n) && lo <= self.record(c, n).metadata.class <= hi {
                assert(self.ctr_tokens@[c - 1]@.len() <= crate::registry::MAX_ID);
                assert((n as TokenId) as int == n);
                let cur = self.held_ids(o, c, n, lo, hi);
                assert(cur == prev.push(n as TokenId));
                assert forall|j: int| 0 <= j < cur.len() implies {
                    &&& self.holds(o, c, #[trigger] cur[j] as int)
                    &&& 1 <= cur[j] <= n
                } by {
                    if j < prev.len() {
                        assert(cur[j] == prev[j]);
                    }
                }
            }
        }
    }

    /// The ids of the tokens of issuer `c` that `owner` holds, with a class
    /// in `lo..=hi`, in ascending order.
    pub(crate) fn held_tokens(&self, owner: &AccountId, c: CtrId, lo: ClassId, hi: ClassId) -> (r: Vec<TokenId>)
        requires
            self.wf(),
            1 <= c <= self.issuers().len(),
        ensures
            r@ == self.owned_by(owner@, c as int, lo as int, hi as int),
    {
        let n: usize = self.ctr_tokens.len();
        assert(c - 1 < n);
        let ci: usize = (c - 1) as usize;
        let row = &self.ctr_tokens[ci];
        let mut out: Vec<TokenId> = Vec::new();
        let mut i: usize = 0;
        while i < row.len()
            invariant
                self.wf(),
                1 <= c <= self.issuers().len(),
                ci == c - 1,
                *row == self.ctr_tokens@[ci as int],
                i <= row@.len(),
                out@ == self.held_ids(owner@, c as int, i as int, lo as int, hi as int),
            decreases row@.len() - i,
        {
            let rec = &row[i];
            let t: TokenId = i as u64 + 1;
            assert(self.record(c as int, t as int) == rec@);
            let same_owner = rec.owner == *owner;
            let class = rec.metadata.class;
            if same_owner && lo <= class && class <= hi {
                match self.lookup_entry(owner, c, class) {
                    Some(x) => {
                        if x == t {
                            out.push(t);
                        }
                    },
                    None => {},
                }
            }
            i = i + 1;
        }
        out
    }

    /// The token `token_id` of issuer `issuer`, if both exist.
    pub fn sbt(&self, issuer: &AccountId, token_id: TokenId) -> (r: Option<Token>)
        requires
            self.wf(),
        ensures
            r.is_some() <==> exists|c: int| #[trigger] self.issuer_has_id(issuer@, c) && self.has_token(c, token_id as int),
            r.is_some() ==> exists|c: int| {
                &&& #[trigger] self.issuer_has_id(issuer@, c)
                &&& r.unwrap().token == token_id
                &&& r.unwrap().owner@ == self.record(c, token_id as int).owner
                &&& r.unwrap().metadata@ == self.record(c, token_id as int).metadata
            },
    {
        let c = match self.ctr_id(issuer) {
            Some(c) => c,
            None => return None,
        };
        let n: usize = self.ctr_tokens.len();
        assert(c - 1 < n);
        let ci: usize = (c - 1) as usize;
        let row = &self.ctr_tokens[ci];
        if token_id == 0 || token_id > row.len() as u64 {
            proof {
                assert forall|d: int| #[trigger] self.issuer_has_id(issuer@, d) implies d == c by {
                    assert(self.issuers()[d - 1] == self.issuers()[c - 1]);
                }
            }
            return None;
        }
        let rec = &row[(token_id - 1) as usize];
        assert(self.record(c as int, token_id as int) == rec@);
        Some(Token { token: token_id, owner: rec.owner.clone(), metadata: rec.metadata.duplicate() })
    }

    /// Number of tokens issuer `issuer` has minted; 0 for an account that is
    /// not an issuer.
    pub fn sbt_supply(&self, issuer: &AccountId) -> (r: u64)
        requires
            self.wf(),
        ensures
            !self.is_issuer_spec(issuer@) ==> r == 0,
            forall|c: int| #[trigger] self.issuer_has_id(issuer@, c) ==> r == self.supply_of(c),
    {
        match self.ctr_id(issuer) {
            Some(c) => {
                let n: usize = self.ctr_tokens.len();
                assert(c - 1 < n);
                proof {
                    assert forall|d: int| #[trigger] self.issuer_has_id(issuer@, d) implies d == c by {
                        assert(self.issuers()[d - 1] == self.issuers()[c - 1]);
                    }
                }
                self.ctr_tokens[(c - 1) as usize].len() as u64
            },
            None => 0,
        }
    }

    /// Number of tokens of issuer `issuer` that `owner` holds, only of class
    /// `class` if one is given; 0 for an account that is not an issuer.
    pub fn sbt_supply_by_owner(&self, owner: &AccountId, issuer: &AccountId, class: Option<ClassId>) -> (r: u64)
        requires
            self.wf(),
        ensures
            !self.is_issuer_spec(issuer@) ==> r == 0,
            forall|c: int| #[trigger] self.issuer_has_id(issuer@, c) ==> r == match class {
                Some(k) => self.owned_by(owner@, c, k as int, k as int).len(),
                None => self.owned_by(owner@, c, 0, u64::MAX as int).len(),
            },
    {
        match self.ctr_id(issuer) {
            Some(c) => {
                proof {
                    assert forall|d: int| #[trigger] self.issuer_has_id(issuer@, d) implies d == c by {
                        assert(self.issuers()[d - 1] == self.issuers()[c - 1]);
                    }
                }
                let ids = match class {
                    Some(k) => self.held_tokens(owner, c, k, k),
                    None => self.held_tokens(owner, c, 0, u64::MAX),
                };
                ids.len() as u64
            },
            None => 0,
        }
    }

    /// The tokens of `owner` with their metadata, grouped by issuer in
    /// ascending issuer id and, within an issuer, ascending token id. Only
    /// the issuer `issuer` if one is given (none for an account that is not
    /// an issuer), only classes from `from_class` on if one is given, and at
    /// most `limit` tokens in all if one is given.
    pub fn sbt_tokens_by_owner(
        &self,
        owner: &AccountId,
        issuer: Option<AccountId>,
        from_class: Option<ClassId>,
        limit: Option<u32>,
    ) -> (r: Vec<(AccountId, Vec<OwnedToken>)>)
        requires
            self.wf(),
        ensures
            ({
                let lo: int = match from_class { Some(k) => k as int, None => 0 };
                let budget: int = match limit { Some(l) => l as int, None => u64::MAX as int };
                match issuer {
                    None => self.listing_matches(r@, self.groups_from(owner@, 1, self.issuers().len() as int, lo, u64::MAX as int, budget)),
                    Some(a) => {
                        &&& !self.is_issuer_spec(a@) ==> r@.len() == 0
                        &&& forall|c: int| #[trigger] self.issuer_has_id(a@, c)
                            ==> self.listing_matches(r@, self.groups_from(owner@, c, c, lo, u64::MAX as int, budget))
                    },
                }
            }),
    {
        let lo: ClassId = match from_class {
            Some(k) => k,
            None => 0,
        };
        let budget: u64 = match limit {
            Some(l) => l as u64,
            None => u64::MAX,
        };
        let n: usize = self.sbt_contracts.len();
        let (first, end): (usize, usize) = match &issuer {
            None => (0, n),
            Some(a) => match self.ctr_id(a) {
                Some(c) => {
                    proof {
                        assert forall|d: int| #[trigger] self.issuer_has_id(a@, d) implies d == c by {
                            assert(self.issuers()[d - 1] == self.issuers()[c - 1]);
                        }
                    }
                    ((c - 1) as usize, c as usize)
                },
                None => return Vec::new(),
            },
        };
        let ghost hi = u64::MAX as int;
        let ghost full = self.groups_from(owner@, first + 1, end as int, lo as int, hi, budget as int);
        let ghost mut done: Seq<(int, Seq<TokenId>)> = Seq::empty();
        let mut out: Vec<(AccountId, Vec<OwnedToken>)> = Vec::new();
        let mut rem: u64 = budget;
        let mut ci: usize = first;
        while ci < end && rem > 0
            invariant
                self.wf(),
                n == self.issuers().len(),
                hi == u64::MAX as int,
                first <= ci <= end <= n,
                done + self.groups_from(owner@, ci + 1, end as int, lo as int, hi, rem as int) == full,
                self.listing_matches(out@, done),
            decreases end - ci,
        {
            let c: CtrId = ci as u64 + 1;
            let ghost done_before = done;
            let ghost rem_before = rem;
            let ghost rest = self.groups_from(owner@, c as int, end as int, lo as int, hi, rem as int);
            let mut ids = self.held_tokens(owner, c, lo, u64::MAX);
            proof {
                self.lemma_held_ids_held(owner@, c as int, self.supply_of(c as int) as int, lo as int, hi);
            }
            let ghost all = ids@;
            assert forall|x: int| 0 <= x < all.len() implies #[trigger] self.holds(owner@, c as int, all[x] as int) by {
                assert(all[x] == self.owned_by(owner@, c as int, lo as int, hi)[x]);
            }
            if ids.len() as u64 > rem {
                ids.truncate(rem as usize);
            }
            assert(ids@ == (if all.len() > rem { all.take(rem as int) } else { all }));
            if ids.len() > 0 {
                let row = &self.ctr_tokens[ci];
                let row_len: usize = row.len();
                let mut toks: Vec<OwnedToken> = Vec::new();
                let mut j: usize = 0;
                while j < ids.len()
                    invariant
                        self.wf(),
                        1 <= c <= self.issuers().len(),
                        ci == c - 1,
                        *row == self.ctr_tokens@[ci as int],
                        row_len == row@.len(),
                        j <= ids@.len(),
                        ids@.len() <= all.len(),
                        forall|x: int| 0 <= x < ids@.len() ==> ids@[x] == all[x],
                        forall|x: int| 0 <= x < all.len() ==> {
                            &&& self.holds(owner@, c as int, #[trigger] all[x] as int)
                        },
                        toks@.len() == j,
                        forall|x: int| 0 <= x < j ==> {
                            &&& (#[trigger] toks@[x]).token == ids@[x]
                            &&& toks@[x].metadata@ == self.record(c as int, ids@[x] as int).metadata
                        },
                    decreases ids@.len() - j,
                {
                    let t = ids[j];
                    assert(self.holds(owner@, c as int, all[j as int] as int));
                    assert(self.supply_of(c as int) == row@.len());
                    assert(1 <= t <= row_len);
                    let rec = &row[(t - 1) as usize];
                    assert(self.record(c as int, t as int) == rec@);
                    toks.push(OwnedToken { token: t, metadata: rec.metadata.duplicate() });
                    j = j + 1;
                }
                let name = self.sbt_contracts[ci].clone();
                proof {
                    assert(name@ == self.issuers()[c - 1]);
                    done = done.push((c as int, ids@));
                }
                let ghost out_before = out@;
                out.push((name, toks));
                rem = rem - ids.len() as u64;
                proof {
                    assert(self.listing_matches(out@, done)) by {
                        assert forall|i: int| 0 <= i < out@.len() - 1 implies #[trigger] out@[i] == out_before[i] by {}
                    }
                }
            }
            proof {
                let ids_g = if all.len() > rem_before { all.take(rem_before as int) } else { all };
                assert(ids_g =~= ids@);
                assert(all == self.owned_by(owner@, c as int, lo as int, hi));
                if ids@.len() > 0 {
                    assert(rest == seq![(c as int, ids@)] + self.groups_from(owner@, c + 1, end as int, lo as int, hi, rem as int));
                    assert(done_before + rest =~= done + self.groups_from(owner@, c + 1, end as int, lo as int, hi, rem as int));
                } else {
                    assert(rest == self.groups_from(owner@, c + 1, end as int, lo as int, hi, rem as int));
                }
            }
            ci = ci + 1;
        }
        proof {
            assert(self.groups_from(owner@, ci + 1, end as int, lo as int, hi, rem as int) =~= Seq::<(int, Seq<TokenId>)>::empty());
            assert(done =~= full);
        }
        out
    }
}

} // verus!
