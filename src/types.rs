use vstd::prelude::*;

verus! {

/// An account identity, compared by its full name.
pub type AccountId = String;

/// Compact numeric id of a registered issuer (1, 2, ... in order of registration).
pub type CtrId = u64;

/// Token id, unique within one issuer and allocated from 1 upwards.
pub type TokenId = u64;

/// Issuer-defined category of a token.
pub type ClassId = u64;

/// Issuer-side data stored with each token. The registry reads only `class`;
/// the other fields are kept and handed back as they were given.
#[derive(Debug, Clone, PartialEq)]
pub struct TokenMetadata {
    pub class: ClassId,
    pub issued_at: Option<u64>,
    pub expires_at: Option<u64>,
    pub reference: Option<String>,
    pub reference_hash: Option<Vec<u8>>,
}

/// Mathematical value of a `TokenMetadata`.
pub struct MetadataView {
    pub class: ClassId,
    pub issued_at: Option<u64>,
    pub expires_at: Option<u64>,
    pub reference: Option<Seq<char>>,
    pub reference_hash: Option<Seq<u8>>,
}

impl View for TokenMetadata {
    type V = MetadataView;

    open spec fn view(&self) -> MetadataView {
        MetadataView {
            class: self.class,
            issued_at: self.issued_at,
            expires_at: self.expires_at,
            reference: match self.reference {
                Some(s) => Some(s@),
                None => None,
            },
            reference_hash: match self.reference_hash {
                Some(h) => Some(h@),
                None => None,
            },
        }
    }
}

impl TokenMetadata {
    /// A copy with the same value.
    pub fn duplicate(&self) -> (r: TokenMetadata)
        ensures
            r@ == self@,
    {
        let reference = match &self.reference {
            Some(s) => Some(s.clone()),
            None => None,
        };
        let reference_hash = match &self.reference_hash {
            Some(h) => {
                let mut out: Vec<u8> = Vec::new();
                let mut i: usize = 0;
                while i < h.len()
                    invariant
                        i <= h@.len(),
                        out@ == h@.take(i as int),
                    decreases h@.len() - i,
                {
                    out.push(h[i]);
                    i = i + 1;
                    assert(out@ =~= h@.take(i as int));
                }
                assert(out@ =~= h@);
                Some(out)
            },
            None => None,
        };
        TokenMetadata {
            class: self.class,
            issued_at: self.issued_at,
            expires_at: self.expires_at,
            reference,
            reference_hash,
        }
    }
}

/// A token record as the registry hands it out.
#[derive(Debug, Clone, PartialEq)]
pub struct Token {
    pub token: TokenId,
    pub owner: AccountId,
    pub metadata: TokenMetadata,
}

/// A token as listed under its owner: its id and its metadata.
#[derive(Debug, Clone, PartialEq)]
pub struct OwnedToken {
    pub token: TokenId,
    pub metadata: TokenMetadata,
}

/// Why a registry operation was refused.
#[derive(Debug, Clone, Copy, PartialEq, Eq, Structural)]
pub enum RegistryError {
    NotAdmin,
    NotAnIssuer,
    BannedRecipient,
    TransferToSelf,
}

/// A token as the store holds it.
pub struct TokenRecord {
    pub owner: AccountId,
    pub metadata: TokenMetadata,
}

/// Mathematical value of a stored token: its owner and its metadata.
pub struct RecordView {
    pub owner: Seq<char>,
    pub metadata: MetadataView,
}

impl View for TokenRecord {
    type V = RecordView;

    open spec fn view(&self) -> RecordView {
        RecordView { owner: self.owner@, metadata: self.metadata@ }
    }
}

/// One owner-index entry: `owner` holds `token` as its token of class
/// `class_id` under issuer `ctr_id`.
pub struct BalanceEntry {
    pub owner: AccountId,
    pub ctr_id: CtrId,
    pub class_id: ClassId,
    pub token: TokenId,
}

impl BalanceEntry {
    /// The (owner, issuer, class) this entry is for.
    pub open spec fn key(&self) -> (Seq<char>, CtrId, ClassId) {
        (self.owner@, self.ctr_id, self.class_id)
    }
}

/// Progress of a soul transfer out of `source`: the last (issuer, token)
/// position moved so far.
pub struct SoulCursor {
    pub source: AccountId,
    pub ctr_id: CtrId,
    pub token: TokenId,
}

} // verus!
