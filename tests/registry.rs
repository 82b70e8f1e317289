use sbt_registry::{AccountId, ClassId, Contract, OwnedToken, RegistryError, Token, TokenId, TokenMetadata};

fn alice() -> AccountId {
    "alice.near".to_string()
}

fn bob() -> AccountId {
    "bob.near".to_string()
}

fn carol() -> AccountId {
    "carol.near".to_string()
}

fn issuer1() -> AccountId {
    "sbt1.near".to_string()
}

fn issuer2() -> AccountId {
    "sbt2.near".to_string()
}

fn issuer3() -> AccountId {
    "sbt3.near".to_string()
}

fn admin() -> AccountId {
    "sbt.near".to_string()
}

const START: u64 = 10;

fn mk_metadata(class: ClassId, expires_at: Option<u64>) -> TokenMetadata {
    TokenMetadata {
        class,
        issued_at: None,
        expires_at,
        reference: Some("abc".to_owned()),
        reference_hash: Some(vec![61, 61]),
    }
}

fn mk_token(token: TokenId, owner: AccountId, metadata: TokenMetadata) -> Token {
    Token { token, owner, metadata }
}

fn mk_owned_token(token: TokenId, metadata: TokenMetadata) -> OwnedToken {
    OwnedToken { token, metadata }
}

fn setup() -> Contract {
    let mut ctr = Contract::new(admin());
    assert_eq!(ctr.admin_add_sbt_issuer(&admin(), issuer1()), Ok(true));
    assert_eq!(ctr.admin_add_sbt_issuer(&admin(), issuer2()), Ok(true));
    ctr
}

fn owned_ids(ctr: &Contract, owner: &AccountId) -> Vec<(AccountId, Vec<TokenId>)> {
    ctr.sbt_tokens_by_owner(owner, None, None, None)
        .into_iter()
        .map(|(i, ts)| (i, ts.into_iter().map(|t| t.token).collect()))
        .collect()
}

#[test]
fn mint() {
    let mut ctr = setup();
    let m1_1 = mk_metadata(1, Some(START + 10));
    let m1_2 = mk_metadata(1, Some(START + 12));
    let m2_1 = mk_metadata(2, Some(START + 14));
    let m4_1 = mk_metadata(4, Some(START + 16));

    let minted_ids = ctr
        .sbt_mint(
            &issuer1(),
            vec![
                (alice(), vec![m1_1.clone()]),
                (bob(), vec![m1_2.clone()]),
                (alice(), vec![m2_1.clone()]),
            ],
        )
        .unwrap();
    assert_eq!(minted_ids, vec![1, 2, 3]);

    // mint again for Alice
    let minted_ids = ctr.sbt_mint(&issuer1(), vec![(alice(), vec![m4_1.clone()])]).unwrap();
    assert_eq!(minted_ids, vec![4]);

    // change the issuer and mint new tokens for alice
    let minted_ids = ctr
        .sbt_mint(&issuer2(), vec![(alice(), vec![m1_1.clone(), m2_1.clone()])])
        .unwrap();
    // since we minted with different issuer, the new SBT should start with 1
    assert_eq!(minted_ids, vec![1, 2]);

    assert_eq!(4, ctr.sbt_supply(&issuer1()));
    assert_eq!(2, ctr.sbt_supply(&issuer2()));
    assert_eq!(0, ctr.sbt_supply(&issuer3()));

    assert_eq!(3, ctr.sbt_supply_by_owner(&alice(), &issuer1(), None));
    assert_eq!(2, ctr.sbt_supply_by_owner(&alice(), &issuer2(), None));
    assert_eq!(1, ctr.sbt_supply_by_owner(&bob(), &issuer1(), None));
    assert_eq!(0, ctr.sbt_supply_by_owner(&bob(), &issuer2(), None));
    assert_eq!(0, ctr.sbt_supply_by_owner(&issuer1(), &issuer1(), None));

    let sbt1_1 = ctr.sbt(&issuer1(), 1).unwrap();
    assert_eq!(sbt1_1, mk_token(1, alice(), m1_1.clone()));
    let sbt1_2 = ctr.sbt(&issuer1(), 2).unwrap();
    assert_eq!(sbt1_2, mk_token(2, bob(), m1_2.clone()));
    let sbt1_3 = ctr.sbt(&issuer1(), 3).unwrap();
    assert_eq!(sbt1_3, mk_token(3, alice(), m2_1.clone()));

    let sbt2_1 = ctr.sbt(&issuer2(), 1).unwrap();
    assert_eq!(sbt2_1, mk_token(1, alice(), m1_1.clone()));

    let alice_sbts = ctr.sbt_tokens_by_owner(&alice(), None, None, None);
    assert_eq!(
        alice_sbts,
        vec![
            (
                issuer1(),
                vec![
                    mk_owned_token(1, m1_1.clone()),
                    mk_owned_token(3, m2_1.clone()),
                    mk_owned_token(4, m4_1.clone())
                ]
            ),
            (issuer2(), vec![mk_owned_token(1, m1_1), mk_owned_token(2, m2_1)])
        ]
    );
}

#[test]
fn register_issuer_once() {
    let mut ctr = setup();
    assert_eq!(ctr.admin_add_sbt_issuer(&admin(), issuer1()), Ok(false));
    assert_eq!(ctr.admin_add_sbt_issuer(&admin(), issuer3()), Ok(true));
    assert_eq!(ctr.sbt_contracts(), vec![issuer1(), issuer2(), issuer3()]);
    assert_eq!(ctr.ctr_id(&issuer3()), Some(3));
    assert_eq!(ctr.ctr_id(&alice()), None);
    assert!(ctr.is_issuer(&issuer2()));
    assert!(!ctr.is_issuer(&bob()));
}

#[test]
fn admin_only() {
    let mut ctr = setup();
    assert_eq!(ctr.admin_add_sbt_issuer(&alice(), issuer3()), Err(RegistryError::NotAdmin));
    assert_eq!(ctr.admin_ban(&alice(), bob()), Err(RegistryError::NotAdmin));
    assert!(!ctr.is_issuer(&issuer3()));
    assert!(!ctr.is_banned(&bob()));
}

#[test]
fn mint_requires_issuer() {
    let mut ctr = setup();
    let r = ctr.sbt_mint(&alice(), vec![(bob(), vec![mk_metadata(1, None)])]);
    assert_eq!(r, Err(RegistryError::NotAnIssuer));
    assert_eq!(0, ctr.sbt_supply_by_owner(&bob(), &issuer1(), None));
}

#[test]
fn order_preserved_across_owners() {
    let mut ctr = setup();
    let ids = ctr
        .sbt_mint(
            &issuer2(),
            vec![
                (alice(), vec![mk_metadata(1, None)]),
                (bob(), vec![mk_metadata(2, None)]),
                (alice(), vec![mk_metadata(3, None)]),
            ],
        )
        .unwrap();
    assert_eq!(ids, vec![1, 2, 3]);
    let ids = ctr.sbt_mint(&issuer2(), vec![(alice(), vec![mk_metadata(5, None)])]).unwrap();
    assert_eq!(ids, vec![4]);
    let ids = ctr.sbt_mint(&issuer1(), vec![(bob(), vec![mk_metadata(5, None)])]).unwrap();
    assert_eq!(ids, vec![1]);
}

#[test]
fn consecutive_mints_do_not_overlap() {
    let mut ctr = setup();
    let a = ctr
        .sbt_mint(&issuer1(), vec![(alice(), vec![mk_metadata(1, None), mk_metadata(2, None)])])
        .unwrap();
    let b = ctr
        .sbt_mint(&issuer1(), vec![(bob(), vec![mk_metadata(1, None), mk_metadata(2, None), mk_metadata(3, None)])])
        .unwrap();
    assert_eq!(a, vec![1, 2]);
    assert_eq!(b, vec![3, 4, 5]);
    assert_eq!(ctr.sbt_supply(&issuer1()), 5);
}

#[test]
fn class_replacement_keeps_old_record() {
    let mut ctr = setup();
    let first = mk_metadata(7, Some(1));
    let second = mk_metadata(7, Some(2));
    ctr.sbt_mint(&issuer1(), vec![(alice(), vec![first.clone()])]).unwrap();
    ctr.sbt_mint(&issuer1(), vec![(alice(), vec![second.clone()])]).unwrap();
    assert_eq!(1, ctr.sbt_supply_by_owner(&alice(), &issuer1(), Some(7)));
    assert_eq!(1, ctr.sbt_supply_by_owner(&alice(), &issuer1(), None));
    assert_eq!(0, ctr.sbt_supply_by_owner(&alice(), &issuer1(), Some(8)));
    assert_eq!(
        ctr.sbt_tokens_by_owner(&alice(), None, None, None),
        vec![(issuer1(), vec![mk_owned_token(2, second.clone())])]
    );
    assert_eq!(ctr.sbt(&issuer1(), 1), Some(mk_token(1, alice(), first)));
    assert_eq!(ctr.sbt(&issuer1(), 2), Some(mk_token(2, alice(), second)));
    assert_eq!(ctr.sbt(&issuer1(), 3), None);
    assert_eq!(ctr.sbt(&issuer1(), 0), None);
    assert_eq!(ctr.sbt(&issuer3(), 1), None);
}

#[test]
fn ban_blocks_mint_and_transfer() {
    let mut ctr = setup();
    ctr.sbt_mint(&issuer1(), vec![(bob(), vec![mk_metadata(1, None)])]).unwrap();
    assert_eq!(ctr.admin_ban(&admin(), bob()), Ok(()));
    assert!(ctr.is_banned(&bob()));
    // a ban does not take tokens away
    assert_eq!(1, ctr.sbt_supply_by_owner(&bob(), &issuer1(), None));
    let r = ctr.sbt_mint(
        &issuer1(),
        vec![(alice(), vec![mk_metadata(1, None)]), (bob(), vec![mk_metadata(2, None)])],
    );
    assert_eq!(r, Err(RegistryError::BannedRecipient));
    // nothing of the refused batch was applied
    assert_eq!(1, ctr.sbt_supply(&issuer1()));
    assert_eq!(0, ctr.sbt_supply_by_owner(&alice(), &issuer1(), None));

    ctr.sbt_mint(&issuer1(), vec![(alice(), vec![mk_metadata(1, None)])]).unwrap();
    assert_eq!(ctr.sbt_soul_transfer(&alice(), bob(), 10), Err(RegistryError::BannedRecipient));
    assert_eq!(1, ctr.sbt_supply_by_owner(&alice(), &issuer1(), None));
}

#[test]
fn transfer_to_self_refused() {
    let mut ctr = setup();
    ctr.sbt_mint(&issuer1(), vec![(alice(), vec![mk_metadata(1, None)])]).unwrap();
    assert_eq!(ctr.sbt_soul_transfer(&alice(), alice(), 10), Err(RegistryError::TransferToSelf));
}

fn mint_many(ctr: &mut Contract) {
    ctr.sbt_mint(
        &issuer1(),
        vec![
            (alice(), vec![mk_metadata(1, None), mk_metadata(2, None)]),
            (bob(), vec![mk_metadata(1, None)]),
            (alice(), vec![mk_metadata(3, None)]),
        ],
    )
    .unwrap();
    ctr.sbt_mint(&issuer2(), vec![(alice(), vec![mk_metadata(1, None), mk_metadata(9, None)])])
        .unwrap();
}

#[test]
fn transfer_in_one_step() {
    let mut ctr = setup();
    mint_many(&mut ctr);
    assert_eq!(ctr.sbt_soul_transfer(&alice(), carol(), 100), Ok((carol(), 2, true)));
    assert_eq!(owned_ids(&ctr, &alice()), vec![]);
    assert_eq!(owned_ids(&ctr, &carol()), vec![(issuer1(), vec![1, 2, 4]), (issuer2(), vec![1, 2])]);
    assert_eq!(ctr.sbt(&issuer1(), 4).unwrap().owner, carol());
    assert_eq!(ctr.sbt(&issuer1(), 3).unwrap().owner, bob());
}

#[test]
fn transfer_in_batches() {
    for limit in 1..7u64 {
        let mut ctr = setup();
        mint_many(&mut ctr);
        let mut calls = 0;
        loop {
            let (to, _, done) = ctr.sbt_soul_transfer(&alice(), carol(), limit).unwrap();
            assert_eq!(to, carol());
            calls += 1;
            if done {
                break;
            }
            assert!(calls < 10);
        }
        assert_eq!(owned_ids(&ctr, &alice()), vec![]);
        assert_eq!(owned_ids(&ctr, &carol()), vec![(issuer1(), vec![1, 2, 4]), (issuer2(), vec![1, 2])]);
        assert_eq!(owned_ids(&ctr, &bob()), vec![(issuer1(), vec![3])]);
        assert_eq!(ctr.sbt_supply_by_owner(&carol(), &issuer1(), None), 3);
    }
}

#[test]
fn transfer_step_reports_progress() {
    let mut ctr = setup();
    mint_many(&mut ctr);
    assert_eq!(ctr.sbt_soul_transfer(&alice(), carol(), 2), Ok((carol(), 2, false)));
    assert_eq!(owned_ids(&ctr, &alice()), vec![(issuer1(), vec![4]), (issuer2(), vec![1, 2])]);
    assert_eq!(ctr.sbt_soul_transfer(&alice(), carol(), 2), Ok((carol(), 1, false)));
    assert_eq!(ctr.sbt_soul_transfer(&alice(), carol(), 2), Ok((carol(), 2, true)));
    assert_eq!(owned_ids(&ctr, &alice()), vec![]);
}

#[test]
fn transfer_retry_after_completion_is_noop() {
    let mut ctr = setup();
    mint_many(&mut ctr);
    assert_eq!(ctr.sbt_soul_transfer(&alice(), carol(), 3), Ok((carol(), 4, false)));
    assert_eq!(ctr.sbt_soul_transfer(&alice(), carol(), 3), Ok((carol(), 2, true)));
    // a retried call finds nothing left to move
    assert_eq!(ctr.sbt_soul_transfer(&alice(), carol(), 3), Ok((carol(), 0, true)));
    assert_eq!(ctr.sbt_soul_transfer(&alice(), carol(), 3), Ok((carol(), 0, true)));
    assert_eq!(owned_ids(&ctr, &carol()), vec![(issuer1(), vec![1, 2, 4]), (issuer2(), vec![1, 2])]);
    assert_eq!(ctr.sbt_supply(&issuer1()), 4);
    assert_eq!(ctr.sbt_supply(&issuer2()), 2);
}

#[test]
fn transfer_replaces_destination_class() {
    let mut ctr = setup();
    ctr.sbt_mint(&issuer1(), vec![(carol(), vec![mk_metadata(1, None)]), (alice(), vec![mk_metadata(1, None)])])
        .unwrap();
    assert_eq!(ctr.sbt_soul_transfer(&alice(), carol(), 5), Ok((carol(), 2, true)));
    assert_eq!(owned_ids(&ctr, &carol()), vec![(issuer1(), vec![2])]);
    assert_eq!(ctr.sbt(&issuer1(), 1).unwrap().owner, carol());
}

#[test]
fn tokens_by_owner_round_trip() {
    let mut ctr = setup();
    let a = mk_metadata(3, Some(5));
    let b = mk_metadata(1, None);
    let c = mk_metadata(2, Some(9));
    ctr.sbt_mint(&issuer2(), vec![(bob(), vec![a.clone()])]).unwrap();
    ctr.sbt_mint(&issuer1(), vec![(bob(), vec![b.clone(), c.clone()])]).unwrap();
    assert_eq!(
        ctr.sbt_tokens_by_owner(&bob(), None, None, None),
        vec![
            (issuer1(), vec![mk_owned_token(1, b.clone()), mk_owned_token(2, c.clone())]),
            (issuer2(), vec![mk_owned_token(1, a.clone())])
        ]
    );
    assert_eq!(ctr.sbt_tokens_by_owner(&alice(), None, None, None), vec![]);
}

#[test]
fn tokens_by_owner_filters() {
    let mut ctr = setup();
    mint_many(&mut ctr);
    let ids = |v: Vec<(AccountId, Vec<OwnedToken>)>| -> Vec<(AccountId, Vec<TokenId>)> {
        v.into_iter().map(|(i, ts)| (i, ts.into_iter().map(|t| t.token).collect())).collect()
    };
    assert_eq!(
        ids(ctr.sbt_tokens_by_owner(&alice(), Some(issuer2()), None, None)),
        vec![(issuer2(), vec![1, 2])]
    );
    assert_eq!(ctr.sbt_tokens_by_owner(&alice(), Some(issuer3()), None, None), vec![]);
    assert_eq!(
        ids(ctr.sbt_tokens_by_owner(&alice(), None, Some(2), None)),
        vec![(issuer1(), vec![2, 4]), (issuer2(), vec![2])]
    );
    assert_eq!(
        ids(ctr.sbt_tokens_by_owner(&alice(), None, None, Some(4))),
        vec![(issuer1(), vec![1, 2, 4]), (issuer2(), vec![1])]
    );
    assert_eq!(ctr.sbt_tokens_by_owner(&alice(), None, None, Some(0)), vec![]);
}

#[test]
fn metadata_duplicate_keeps_every_field() {
    let m = TokenMetadata {
        class: 3,
        issued_at: Some(4),
        expires_at: None,
        reference: Some("ref".to_string()),
        reference_hash: Some(vec![1, 2, 3]),
    };
    assert_eq!(m.duplicate(), m);
}
