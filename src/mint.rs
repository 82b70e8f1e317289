use vstd::prelude::*;

use crate::registry::{Contract, MAX_ID};
use crate::types::{AccountId, ClassId, CtrId, MetadataView, RecordView, RegistryError, TokenId, TokenMetadata, TokenRecord};

verus! {

/// The requests of a mint batch in order, each as (owner, metadata).
pub open(crate) spec fn batch_items(batch: Seq<(AccountId, Vec<TokenMetadata>)>) -> Seq<(Seq<char>, MetadataView)>
    decreases batch.len(),
{
    if batch.len() == 0 {
        Seq::empty()
    } else {
        batch_items(batch.drop_last()) + owner_items(batch.last().0@, batch.last().1@)
    }
}

/// The requests of one batch element, each paired with its owner.
pub open(crate) spec fn owner_items(owner: Seq<char>, ms: Seq<TokenMetadata>) -> Seq<(Seq<char>, MetadataView)> {
    ms.map_values(|m: TokenMetadata| (owner, m@))
}

/// The token records that minting `items` creates.
pub open(crate) spec fn records_of(items: Seq<(Seq<char>, MetadataView)>) -> Seq<RecordView> {
    items.map_values(|it: (Seq<char>, MetadataView)| RecordView { owner: it.0, metadata: it.1 })
}

/// The owner index after minting `items` under issuer `c` with ids `first`,
/// `first + 1`, ...: each request in turn sets the entry for its owner and
/// class, so a later token of a class replaces an earlier one.
pub open(crate) spec fn index_after_mint(
    m: Map<(Seq<char>, CtrId, ClassId), TokenId>,
    c: CtrId,
    items: Seq<(Seq<char>, MetadataView)>,
    first: nat,
) -> Map<(Seq<char>, CtrId, ClassId), TokenId>
    decreases items.len(),
{
    if items.len() == 0 {
        m
    } else {
        index_after_mint(m, c, items.drop_last(), first).insert(
            (items.last().0, c, items.last().1.class),
            (first + items.len() - 1) as TokenId,
        )
    }
}

/// Some owner in the batch is banned.
pub open(crate) spec fn batch_has_banned(r: Contract, batch: Seq<(AccountId, Vec<TokenMetadata>)>) -> bool {
    exists|i: int| 0 <= i < batch.len() && r.is_banned_spec(#[trigger] batch[i].0@)
}

proof fn lemma_batch_items_step(batch: Seq<(AccountId, Vec<TokenMetadata>)>, i: int)
    requires
        0 <= i < batch.len(),
    ensures
        batch_items(batch.take(i + 1)) == batch_items(batch.take(i)) + owner_items(batch[i].0@, batch[i].1@),
{
    assert(batch.take(i + 1).drop_last() =~= batch.take(i));
}

impl Contract {
    /// Stores a new token of issuer `c` under the next id of that issuer and
    /// indexes it for its owner and class. Returns the new id.
    pub(crate) fn put_token(&mut self, c: CtrId, owner: &AccountId, metadata: TokenMetadata) -> (r: TokenId)
        requires
            old(self).wf(),
            1 <= c <= old(self).issuers().len(),
            old(self).supply_of(c as int) < MAX_ID,
        ensures
            final(self).wf(),
            r == old(self).supply_of(c as int) + 1,
            final(self).tokens_of(c as int) == old(self).tokens_of(c as int).push(RecordView { owner: owner@, metadata: metadata@ }),
            forall|d: int| d != c ==> #[trigger] final(self).tokens_of(d) == old(self).tokens_of(d),
            final(self).index_ghost()@ == old(self).index_ghost()@.insert((owner@, c, metadata.class), r),
            final(self).admin_account() == old(self).admin_account(),
            final(self).issuer_table() == old(self).issuer_table(),
            final(self).ban_table() == old(self).ban_table(),
            final(self).cursor_table() == old(self).cursor_table(),
            final(self).cursor_ghost() == old(self).cursor_ghost(),
    {
        let ghost pre = *self;
        let n: usize = self.ctr_tokens.len();
        assert(c - 1 < n);
        let ci: usize = (c - 1) as usize;
        let t: TokenId = self.ctr_tokens[ci].len() as u64 + 1;
        let class = metadata.class;
        let rec = TokenRecord { owner: owner.clone(), metadata };
        let ghost new_rec = rec@;
        assert(new_rec == RecordView { owner: owner@, metadata: metadata@ });
        self.ctr_tokens[ci].push(rec);
        assert(self.ctr_tokens@[ci as int]@ == pre.ctr_tokens@[ci as int]@.push(rec));
        assert(self.ctr_tokens@.len() == pre.ctr_tokens@.len());
        self.index_upsert(owner, c, class, t);
        proof {
            assert(ci as int == c - 1);
            let row = self.ctr_tokens@[c - 1]@;
            let prow = pre.ctr_tokens@[c - 1]@;
            assert(row == prow.push(rec));
            assert(row.map_values(|r: TokenRecord| r@) =~= prow.map_values(|r: TokenRecord| r@).push(new_rec));
            assert(self.tokens_of(c as int) =~= pre.tokens_of(c as int).push(new_rec));
            assert forall|d: int| d != c implies #[trigger] self.tokens_of(d) == pre.tokens_of(d) by {
                if 1 <= d <= self.ctr_tokens@.len() {
                    assert(self.ctr_tokens@[d - 1] == pre.ctr_tokens@[d - 1]);
                }
            }
            assert forall|x: int| 0 <= x < self.ctr_tokens@.len() implies #[trigger] self.ctr_tokens@[x]@.len() <= MAX_ID by {
                if x != ci {
                    assert(self.ctr_tokens@[x] == pre.ctr_tokens@[x]);
                }
            }
            assert forall|k: (Seq<char>, CtrId, ClassId)| #[trigger] self.index@.contains_key(k) implies {
                &&& self.has_token(k.1 as int, self.index@[k] as int)
                &&& self.record(k.1 as int, self.index@[k] as int).owner == k.0
                &&& self.record(k.1 as int, self.index@[k] as int).metadata.class == k.2
            } by {
                if k != (owner@, c, class) {
                    assert(pre.index@.contains_key(k));
                    assert(pre.has_token(k.1 as int, pre.index@[k] as int));
                    if k.1 != c {
                        assert(self.tokens_of(k.1 as int) == pre.tokens_of(k.1 as int));
                    }
                }
            }
        }
        t
    }

    /// Whether some owner named in `batch` is banned.
    pub fn any_banned(&self, batch: &Vec<(AccountId, Vec<TokenMetadata>)>) -> (r: bool)
        ensures
            r == batch_has_banned(*self, batch@),
    {
        let mut b: usize = 0;
        while b < batch.len()
            invariant
                b <= batch@.len(),
                forall|j: int| 0 <= j < b ==> !self.is_banned_spec(#[trigger] batch@[j].0@),
            decreases batch@.len() - b,
        {
            if self.is_banned(&batch[b].0) {
                return true;
            }
            b = b + 1;
        }
        false
    }

    /// Mints the tokens of `batch` for the issuer `caller`: for each
    /// (owner, requests) in order, one new token per request, with ids that
    /// go on from the issuer's last one. Returns the new ids in request
    /// order. Fails, changing nothing, if `caller` is not an issuer or an
    /// owner in the batch is banned.
    pub fn sbt_mint(&mut self, caller: &AccountId, batch: Vec<(AccountId, Vec<TokenMetadata>)>) -> (r: Result<Vec<TokenId>, RegistryError>)
        requires
            old(self).wf(),
            forall|c: int| 1 <= c <= old(self).issuers().len()
                ==> #[trigger] old(self).supply_of(c) + batch_items(batch@).len() <= MAX_ID,
        ensures
            final(self).wf(),
            !old(self).is_issuer_spec(caller@) ==> r == Err::<Vec<TokenId>, RegistryError>(RegistryError::NotAnIssuer) && *final(self) == *old(self),
            old(self).is_issuer_spec(caller@) && batch_has_banned(*old(self), batch@)
                ==> r == Err::<Vec<TokenId>, RegistryError>(RegistryError::BannedRecipient) && *final(self) == *old(self),
            old(self).is_issuer_spec(caller@) && !batch_has_banned(*old(self), batch@) ==> r.is_ok(),
            r.is_ok() ==> exists|c: int| {
                &&& #[trigger] old(self).issuer_has_id(caller@, c)
                &&& r.unwrap()@.len() == batch_items(batch@).len()
                &&& forall|i: int| 0 <= i < r.unwrap()@.len() ==> #[trigger] r.unwrap()@[i] == old(self).supply_of(c) + 1 + i
                &&& final(self).tokens_of(c) == old(self).tokens_of(c) + records_of(batch_items(batch@))
                &&& forall|d: int| d != c ==> #[trigger] final(self).tokens_of(d) == old(self).tokens_of(d)
                &&& final(self).index_view() == index_after_mint(old(self).index_view(), c as CtrId, batch_items(batch@), old(self).supply_of(c) + 1)
            },
            r.is_ok() ==> {
                &&& final(self).admin_account() == old(self).admin_account()
                &&& final(self).issuer_table() == old(self).issuer_table()
                &&& final(self).ban_table() == old(self).ban_table()
                &&& final(self).cursor_view() == old(self).cursor_view()
            },
    {
        let c = match self.ctr_id(caller) {
            Some(c) => c,
            None => return Err(RegistryError::NotAnIssuer),
        };
        if self.any_banned(&batch) {
            return Err(RegistryError::BannedRecipient);
        }
        let ghost pre = *self;
        let ghost first: nat = pre.supply_of(c as int) + 1;
        let ghost all = batch_items(batch@);
        let mut ids: Vec<TokenId> = Vec::new();
        let mut i: usize = 0;
        while i < batch.len()
            invariant
                self.wf(),
                1 <= c <= pre.issuers().len(),
                pre.issuer_has_id(caller@, c as int),
                forall|d: int| 1 <= d <= pre.issuers().len() ==> #[trigger] pre.supply_of(d) + batch_items(batch@).len() <= MAX_ID,
                first == pre.supply_of(c as int) + 1,
                all == batch_items(batch@),
                i <= batch@.len(),
                ids@.len() == batch_items(batch@.take(i as int)).len(),
                forall|x: int| 0 <= x < ids@.len() ==> #[trigger] ids@[x] == first + x,
                self.tokens_of(c as int) == pre.tokens_of(c as int) + records_of(batch_items(batch@.take(i as int))),
                forall|d: int| d != c ==> #[trigger] self.tokens_of(d) == pre.tokens_of(d),
                self.index@ == index_after_mint(pre.index@, c, batch_items(batch@.take(i as int)), first),
                self.admin == pre.admin,
                self.sbt_contracts == pre.sbt_contracts,
                self.banlist == pre.banlist,
                self.cursors == pre.cursors,
            decreases batch@.len() - i,
        {
            let owner = &batch[i].0;
            let requests = &batch[i].1;
            let ghost before = batch_items(batch@.take(i as int));
            proof {
                lemma_batch_items_step(batch@, i as int);
                lemma_take_len_bound(batch@, i as int + 1);
            }
            let mut j: usize = 0;
            while j < requests.len()
                invariant
                    self.wf(),
                    1 <= c <= pre.issuers().len(),
                    first == pre.supply_of(c as int) + 1,
                    forall|d: int| 1 <= d <= pre.issuers().len() ==> #[trigger] pre.supply_of(d) + batch_items(batch@).len() <= MAX_ID,
                    before.len() + requests@.len() <= batch_items(batch@).len(),
                    j <= requests@.len(),
                    ids@.len() == before.len() + j,
                    forall|x: int| 0 <= x < ids@.len() ==> #[trigger] ids@[x] == first + x,
                    self.tokens_of(c as int) == pre.tokens_of(c as int) + records_of(before + owner_items(owner@, requests@.take(j as int))),
                    forall|d: int| d != c ==> #[trigger] self.tokens_of(d) == pre.tokens_of(d),
                    self.index@ == index_after_mint(pre.index@, c, before + owner_items(owner@, requests@.take(j as int)), first),
                    self.admin == pre.admin,
                    self.sbt_contracts == pre.sbt_contracts,
                    self.banlist == pre.banlist,
                    self.cursors == pre.cursors,
                decreases requests@.len() - j,
            {
                let ghost done = before + owner_items(owner@, requests@.take(j as int));
                let ghost next = before + owner_items(owner@, requests@.take(j as int + 1));
                let metadata = requests[j].duplicate();
                proof {
                    assert(self.tokens_of(c as int).len() == pre.tokens_of(c as int).len() + done.len());
                    assert(pre.supply_of(c as int) == pre.tokens_of(c as int).len());
                    assert(self.supply_of(c as int) == self.tokens_of(c as int).len());
                }
                let t = self.put_token(c, owner, metadata);
                ids.push(t);
                j = j + 1;
                proof {
                    let item = (owner@, requests@[j - 1]@);
                    assert(owner_items(owner@, requests@.take(j as int)) =~= owner_items(owner@, requests@.take(j - 1)).push(item));
                    assert(next =~= done.push(item));
                    assert(next.drop_last() =~= done);
                    assert(records_of(next) =~= records_of(done).push(RecordView { owner: item.0, metadata: item.1 }));
                    assert(self.tokens_of(c as int) =~= pre.tokens_of(c as int) + records_of(next));
                }
            }
            proof {
                assert(requests@.take(j as int) =~= requests@);
            }
            i = i + 1;
        }
        proof {
            assert(batch@.take(i as int) =~= batch@);
            assert(pre.cursor_view() == self.cursor_view());
        }
        Ok(ids)
    }
}

proof fn lemma_take_len_bound(batch: Seq<(AccountId, Vec<TokenMetadata>)>, n: int)
    requires
        0 <= n <= batch.len(),
    ensures
        batch_items(batch.take(n)).len() <= batch_items(batch).len(),
    decreases batch.len() - n,
{
    if n < batch.len() {
        lemma_take_len_bound(batch, n + 1);
        lemma_batch_items_step(batch, n);
    } else {
        assert(batch.take(n) =~= batch);
    }
}

} // verus!
