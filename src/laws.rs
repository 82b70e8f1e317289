use vstd::prelude::*;

use crate::mint::{index_after_mint, records_of};
use crate::registry::{Contract, MAX_ID};
use crate::transfer::{pos_lt, rekey, resumable, start_of};
use crate::types::{ClassId, CtrId, MetadataView, TokenId};

verus! {

/// Two mint batches in a row by one issuer: the ids of each batch increase
/// strictly, and every id of the second batch is above every id of the
/// first, so the two ranges never overlap.
pub proof fn lemma_mint_ids_increase(
    s0: Contract,
    s1: Contract,
    c: int,
    items: Seq<(Seq<char>, MetadataView)>,
    ids1: Seq<TokenId>,
    ids2: Seq<TokenId>,
)
    requires
        1 <= c <= s0.token_rows(),
        s1.token_rows() == s0.token_rows(),
        ids1.len() == items.len(),
        forall|i: int| 0 <= i < ids1.len() ==> #[trigger] ids1[i] == s0.supply_of(c) + 1 + i,
        s1.tokens_of(c) == s0.tokens_of(c) + records_of(items),
        forall|j: int| 0 <= j < ids2.len() ==> #[trigger] ids2[j] == s1.supply_of(c) + 1 + j,
    ensures
        forall|i: int, j: int| 0 <= i < j < ids1.len() ==> ids1[i] < ids1[j],
        forall|i: int, j: int| 0 <= i < j < ids2.len() ==> ids2[i] < ids2[j],
        forall|i: int, j: int| 0 <= i < ids1.len() && 0 <= j < ids2.len() ==> ids1[i] < ids2[j],
{
    assert(s1.tokens_of(c).len() == s1.supply_of(c));
    assert(s0.tokens_of(c).len() == s0.supply_of(c));
    assert(s1.supply_of(c) == s0.supply_of(c) + ids1.len());
}

/// Class replacement: after a mint, the entry of an owner for a class is
/// the id of the last request of the batch for that owner and class.
pub proof fn lemma_mint_last_request_wins(
    m: Map<(Seq<char>, CtrId, ClassId), TokenId>,
    c: CtrId,
    items: Seq<(Seq<char>, MetadataView)>,
    first: nat,
    i: int,
)
    requires
        first + items.len() <= MAX_ID + 1,
        0 <= i < items.len(),
        forall|j: int| i < j < items.len() ==> !(#[trigger] items[j].0 == items[i].0 && items[j].1.class == items[i].1.class),
    ensures
        index_after_mint(m, c, items, first).contains_key((items[i].0, c, items[i].1.class)),
        index_after_mint(m, c, items, first)[(items[i].0, c, items[i].1.class)] == first + i,
    decreases items.len(),
{
    if i < items.len() - 1 {
        let key = (items[i].0, c, items[i].1.class);
        let last = items.last();
        assert(!(last.0 == items[i].0 && last.1.class == items[i].1.class));
        assert((last.0, c, last.1.class) != key);
        lemma_mint_last_request_wins(m, c, items.drop_last(), first, i);
    }
}

/// A mint leaves the entry of every owner and class that the batch does not
/// name as it was.
pub proof fn lemma_mint_keeps_other_entries(
    m: Map<(Seq<char>, CtrId, ClassId), TokenId>,
    c: CtrId,
    items: Seq<(Seq<char>, MetadataView)>,
    first: nat,
    o: Seq<char>,
    d: CtrId,
    k: ClassId,
)
    requires
        d != c || forall|j: int| 0 <= j < items.len() ==> !(#[trigger] items[j].0 == o && items[j].1.class == k),
    ensures
        index_after_mint(m, c, items, first).get((o, d, k)) == m.get((o, d, k)),
    decreases items.len(),
{
    if items.len() > 0 {
        assert(items.last() == items[items.len() - 1]);
        lemma_mint_keeps_other_entries(m, c, items.drop_last(), first, o, d, k);
    }
}

/// A mint keeps every token record that existed before it: an older token
/// whose index entry was replaced can still be read by its id.
pub proof fn lemma_mint_keeps_records(s0: Contract, s1: Contract, c: int, items: Seq<(Seq<char>, MetadataView)>, t: int)
    requires
        s1.token_rows() == s0.token_rows(),
        s1.tokens_of(c) == s0.tokens_of(c) + records_of(items),
        s0.has_token(c, t),
    ensures
        s1.has_token(c, t),
        s1.record(c, t) == s0.record(c, t),
{
    assert(s1.tokens_of(c).len() == s1.supply_of(c));
    assert(s0.tokens_of(c).len() == s0.supply_of(c));
}

/// A transfer that has not started yet can run to completion: in a
/// well-formed registry every entry of an account with no cursor stands
/// after the start position.
pub proof fn lemma_transfer_can_start(s: Contract, src: Seq<char>)
    requires
        s.wf(),
        !s.cursor_view().contains_key(src),
    ensures
        resumable(s, src),
{
    assert(start_of(s, src) == (0u64, 0u64));
    assert forall|key: (Seq<char>, CtrId, ClassId)| #[trigger] s.index_view().contains_key(key) && key.0 == src
        implies pos_lt(0, 0, key.1 as int, s.index_view()[key] as int) by {
        assert(s.has_token(key.1 as int, s.index_view()[key] as int));
    }
}

/// Moving entries is safe to repeat: after a step, none of the moved
/// entries is left with the source, so a retried step cannot move one
/// again, and each stands with the destination under its own token id.
pub proof fn lemma_moved_entries_leave_source(
    m: Map<(Seq<char>, CtrId, ClassId), TokenId>,
    src: Seq<char>,
    dst: Seq<char>,
    mv: Map<(CtrId, ClassId), TokenId>,
)
    requires
        src != dst,
    ensures
        forall|key: (CtrId, ClassId)| #[trigger] mv.contains_key(key) ==> {
            &&& !rekey(m, src, dst, mv).contains_key((src, key.0, key.1))
            &&& rekey(m, src, dst, mv).contains_key((dst, key.0, key.1))
            &&& rekey(m, src, dst, mv)[(dst, key.0, key.1)] == mv[key]
        },
        forall|key: (Seq<char>, CtrId, ClassId)| key.0 != src && key.0 != dst
            ==> #[trigger] rekey(m, src, dst, mv).get(key) == m.get(key),
{
    assert forall|key: (Seq<char>, CtrId, ClassId)| key.0 != src && key.0 != dst
        implies #[trigger] rekey(m, src, dst, mv).get(key) == m.get(key) by {}
}

/// Two transfer steps in a row act as one: what the second step moves was
/// still with the source after the first, so no entry is moved twice, and
/// the index after both steps is the index with all those entries moved at
/// once, each to the destination under its own token id.
pub proof fn lemma_transfer_steps_compose(
    m: Map<(Seq<char>, CtrId, ClassId), TokenId>,
    src: Seq<char>,
    dst: Seq<char>,
    mv1: Map<(CtrId, ClassId), TokenId>,
    mv2: Map<(CtrId, ClassId), TokenId>,
)
    requires
        src != dst,
        forall|key: (CtrId, ClassId)| #[trigger] mv1.contains_key(key) ==> m.contains_key((src, key.0, key.1))
            && mv1[key] == m[(src, key.0, key.1)],
        forall|key: (CtrId, ClassId)| #[trigger] mv2.contains_key(key)
            ==> rekey(m, src, dst, mv1).contains_key((src, key.0, key.1))
            && mv2[key] == rekey(m, src, dst, mv1)[(src, key.0, key.1)],
    ensures
        forall|key: (CtrId, ClassId)| #[trigger] mv2.contains_key(key) ==> !mv1.contains_key(key),
        forall|key: (CtrId, ClassId)| #[trigger] mv2.contains_key(key) ==> mv2[key] == m[(src, key.0, key.1)],
        rekey(rekey(m, src, dst, mv1), src, dst, mv2) == rekey(m, src, dst, mv1.union_prefer_right(mv2)),
{
    let r1 = rekey(m, src, dst, mv1);
    assert forall|key: (CtrId, ClassId)| #[trigger] mv2.contains_key(key) implies !mv1.contains_key(key)
        && mv2[key] == m[(src, key.0, key.1)] by {
        assert(r1.contains_key((src, key.0, key.1)));
    }
    assert(rekey(r1, src, dst, mv2) =~= rekey(m, src, dst, mv1.union_prefer_right(mv2)));
}

/// Ids of the requests in `items` whose owner is `o`, in request order,
/// the request at index `i` having id `first + i`.
pub open spec fn ids_for(items: Seq<(Seq<char>, MetadataView)>, o: Seq<char>, first: nat) -> Seq<TokenId>
    decreases items.len(),
{
    if items.len() == 0 {
        Seq::empty()
    } else {
        let prev = ids_for(items.drop_last(), o, first);
        if items.last().0 == o {
            prev.push((first + items.len() - 1) as TokenId)
        } else {
            prev
        }
    }
}

/// Each entry after a mint is either an entry from before, unchanged, or
/// the id of a request of the batch for that owner and class.
proof fn lemma_mint_entry_origin(
    m: Map<(Seq<char>, CtrId, ClassId), TokenId>,
    c: CtrId,
    items: Seq<(Seq<char>, MetadataView)>,
    first: nat,
    key: (Seq<char>, CtrId, ClassId),
)
    requires
        first + items.len() <= MAX_ID + 1,
        index_after_mint(m, c, items, first).contains_key(key),
    ensures
        (m.contains_key(key) && index_after_mint(m, c, items, first)[key] == m[key])
            || (key.1 == c && exists|i: int| 0 <= i < items.len() && items[i].0 == key.0 && items[i].1.class == key.2
                && index_after_mint(m, c, items, first)[key] == first + i),
    decreases items.len(),
{
    if items.len() > 0 {
        let last = items.last();
        let n = items.len() - 1;
        if key != (last.0, c, last.1.class) {
            lemma_mint_entry_origin(m, c, items.drop_last(), first, key);
            if !(m.contains_key(key) && index_after_mint(m, c, items, first)[key] == m[key]) {
                let i = choose|i: int| 0 <= i < n && items.drop_last()[i].0 == key.0 && items.drop_last()[i].1.class == key.2
                    && index_after_mint(m, c, items.drop_last(), first)[key] == first + i;
                assert(items[i] == items.drop_last()[i]);
            }
        } else {
            assert(items[n] == last);
        }
    }
}

/// Round trip: when an owner held nothing under an issuer, and the batch
/// asks at most one token of each class for it, the tokens it holds under
/// that issuer right after the mint are exactly the ones the batch created
/// for it, in ascending id order.
pub proof fn lemma_mint_round_trip(
    s0: Contract,
    s1: Contract,
    c: int,
    items: Seq<(Seq<char>, MetadataView)>,
    o: Seq<char>,
)
    requires
        s0.wf(),
        s1.wf(),
        1 <= c <= s0.token_rows(),
        s1.token_rows() == s0.token_rows(),
        s1.tokens_of(c) == s0.tokens_of(c) + records_of(items),
        s1.index_view() == index_after_mint(s0.index_view(), c as CtrId, items, s0.supply_of(c) + 1),
        forall|k: ClassId| !#[trigger] s0.index_view().contains_key((o, c as CtrId, k)),
        forall|i: int, j: int| 0 <= i < j < items.len() && #[trigger] items[i].0 == o && #[trigger] items[j].0 == o
            ==> items[i].1.class != items[j].1.class,
    ensures
        s1.owned_by(o, c, 0, u64::MAX as int) == ids_for(items, o, s0.supply_of(c) + 1),
{
    let first = s0.supply_of(c) + 1;
    assert(s1.tokens_of(c).len() == s1.supply_of(c));
    assert(s0.tokens_of(c).len() == s0.supply_of(c));
    assert(s1.supply_of(c) == s0.supply_of(c) + items.len());
    assert(s1.ctr_tokens@[c - 1]@.len() <= MAX_ID);
    lemma_round_trip_prefix(s0, s1, c, items, o, items.len() as int);
    assert(items.take(items.len() as int) =~= items);
}

proof fn lemma_round_trip_prefix(
    s0: Contract,
    s1: Contract,
    c: int,
    items: Seq<(Seq<char>, MetadataView)>,
    o: Seq<char>,
    m: int,
)
    requires
        s1.wf(),
        1 <= c <= s0.token_rows(),
        s1.token_rows() == s0.token_rows(),
        s1.tokens_of(c) == s0.tokens_of(c) + records_of(items),
        s1.supply_of(c) == s0.supply_of(c) + items.len(),
        s1.supply_of(c) <= MAX_ID,
        s1.index_view() == index_after_mint(s0.index_view(), c as CtrId, items, s0.supply_of(c) + 1),
        forall|k: ClassId| !#[trigger] s0.index_view().contains_key((o, c as CtrId, k)),
        forall|i: int, j: int| 0 <= i < j < items.len() && #[trigger] items[i].0 == o && #[trigger] items[j].0 == o
            ==> items[i].1.class != items[j].1.class,
        0 <= m <= items.len(),
    ensures
        s1.held_ids(o, c, s0.supply_of(c) + m, 0, u64::MAX as int) == ids_for(items.take(m), o, s0.supply_of(c) + 1),
    decreases m,
{
    let first = s0.supply_of(c) + 1;
    if m == 0 {
        lemma_old_tokens_not_held(s0, s1, c, items, o, s0.supply_of(c) as int);
        assert(items.take(0) =~= Seq::<(Seq<char>, MetadataView)>::empty());
    } else {
        lemma_round_trip_prefix(s0, s1, c, items, o, m - 1);
        let t = first + m - 1;
        let it = items[m - 1];
        assert(items.take(m).drop_last() =~= items.take(m - 1));
        assert(items.take(m).last() == it);
        assert(s1.record(c, t) == s1.tokens_of(c)[t - 1]);
        assert(s1.tokens_of(c)[t - 1] == records_of(items)[m - 1]);
        if it.0 == o {
            assert forall|j: int| m - 1 < j < items.len() implies !(#[trigger] items[j].0 == items[m - 1].0
                && items[j].1.class == items[m - 1].1.class) by {
                if items[j].0 == o {
                    assert(items[m - 1].1.class != items[j].1.class);
                }
            }
            lemma_mint_last_request_wins(s0.index_view(), c as CtrId, items, first, m - 1);
            assert(s1.holds(o, c, t));
        } else {
            assert(!s1.holds(o, c, t));
        }
    }
}

proof fn lemma_old_tokens_not_held(
    s0: Contract,
    s1: Contract,
    c: int,
    items: Seq<(Seq<char>, MetadataView)>,
    o: Seq<char>,
    n: int,
)
    requires
        s1.supply_of(c) <= MAX_ID,
        s1.supply_of(c) == s0.supply_of(c) + items.len(),
        s1.index_view() == index_after_mint(s0.index_view(), c as CtrId, items, s0.supply_of(c) + 1),
        forall|k: ClassId| !#[trigger] s0.index_view().contains_key((o, c as CtrId, k)),
        n <= s0.supply_of(c),
    ensures
        s1.held_ids(o, c, n, 0, u64::MAX as int) == Seq::<TokenId>::empty(),
    decreases n,
{
    if n > 0 {
        lemma_old_tokens_not_held(s0, s1, c, items, o, n - 1);
        if s1.holds(o, c, n) {
            let key = (o, c as CtrId, s1.record(c, n).metadata.class);
            lemma_mint_entry_origin(s0.index_view(), c as CtrId, items, s0.supply_of(c) + 1, key);
        }
    }
}

} // verus!
