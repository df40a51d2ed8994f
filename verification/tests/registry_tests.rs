use tile_spiral::TileError;
use tile_spiral::registry::Contract;
use tile_spiral::registry::UncoveredToken;

fn sorted_uncovered(contract: &Contract) -> Vec<UncoveredToken> {
    let mut tokens = contract.get_not_covered_tokens();
    tokens.sort_by(|a, b| {
        a.token_id.parse::<usize>().unwrap().cmp(&b.token_id.parse::<usize>().unwrap())
    });
    tokens
}

#[test]
fn test_batch_mint() {
    let mut contract = Contract::new();
    let tokens = contract.nft_batch_mint("7".to_string(), 3, 2, "alice".to_string());

    let token_ids_vec: Vec<&str> = tokens.iter().map(|token| token.as_str()).collect();
    assert_eq!(token_ids_vec, vec!["7", "0", "8", "1", "9", "10"]);
}

#[test]
fn test_nft_merge() {
    let mut contract = Contract::new();

    contract.nft_batch_mint("19".to_string(), 2, 3, "bob".to_string());
    contract.nft_batch_mint("7".to_string(), 3, 2, "alice".to_string());

    contract.nft_merge("7".to_string(), 3, 2, "alice".to_string()).unwrap();

    let sub_token_ids = vec!["0", "8", "1", "9", "10"];

    let dimension = contract.merge_record("7".to_string());
    assert_eq!(dimension, Some((3, 2)));

    for sub_token_id in sub_token_ids {
        let root = contract.merged_into(sub_token_id.to_string());
        assert_eq!(root, Some("7".to_string()));
    }
}

#[test]
fn test_get_not_covered_tokens() {
    let mut contract = Contract::new();

    // bob
    contract.nft_batch_mint("19".to_string(), 2, 3, "bob".to_string());
    contract.nft_merge("18".to_string(), 2, 2, "bob".to_string()).unwrap();

    // alice
    contract.nft_batch_mint("7".to_string(), 3, 2, "alice".to_string());
    contract.nft_merge("7".to_string(), 2, 2, "alice".to_string()).unwrap();
    contract.nft_merge("9".to_string(), 1, 2, "alice".to_string()).unwrap();

    let tokens = sorted_uncovered(&contract);
    println!("{:?}", tokens);

    let expected = vec![
        UncoveredToken { token_id: "6".to_string(), width: 1, height: 1 },
        UncoveredToken { token_id: "7".to_string(), width: 2, height: 2 },
        UncoveredToken { token_id: "9".to_string(), width: 1, height: 2 },
        UncoveredToken { token_id: "18".to_string(), width: 2, height: 2 },
        UncoveredToken { token_id: "19".to_string(), width: 1, height: 1 },
    ];

    assert_eq!(tokens, expected);
}

#[test]
fn test_mint_and_size() {
    let mut contract = Contract::new();
    contract.nft_mint("2".to_string(), "alice".to_string());

    let plain = contract.get_token_with_size("2".to_string());
    assert_eq!(plain, UncoveredToken { token_id: "2".to_string(), width: 1, height: 1 });

    // a malformed identifier has no record, so it reports the default extents
    let odd = contract.get_token_with_size("x".to_string());
    assert_eq!(odd, UncoveredToken { token_id: "x".to_string(), width: 1, height: 1 });

    let uncovered = contract.get_not_covered_tokens();
    assert_eq!(uncovered.len(), 1);
    assert_eq!(uncovered[0].token_id, "2".to_string());
}

#[test]
fn test_merge_not_found() {
    let mut contract = Contract::new();
    // nothing minted at all
    assert_eq!(
        contract.nft_merge("7".to_string(), 1, 1, "alice".to_string()),
        Err(TileError::NotFound)
    );

    // anchor minted, but the rectangle reaches unminted tiles
    contract.nft_batch_mint("7".to_string(), 2, 2, "alice".to_string());
    assert_eq!(
        contract.nft_merge("7".to_string(), 3, 2, "alice".to_string()),
        Err(TileError::NotFound)
    );
    assert_eq!(contract.merge_record("7".to_string()), None);
}

#[test]
fn test_merge_malformed() {
    let mut contract = Contract::new();
    assert_eq!(
        contract.nft_merge("tile".to_string(), 1, 1, "alice".to_string()),
        Err(TileError::MalformedIdentifier)
    );
}

#[test]
fn test_merge_all_or_nothing() {
    let mut contract = Contract::new();
    contract.nft_batch_mint("7".to_string(), 2, 2, "alice".to_string());
    contract.nft_batch_mint("9".to_string(), 1, 2, "bob".to_string());

    let before = sorted_uncovered(&contract);

    // the 3 by 2 rectangle at "7" reaches bob's tiles "9" and "10"
    assert_eq!(
        contract.nft_merge("7".to_string(), 3, 2, "alice".to_string()),
        Err(TileError::PermissionDenied)
    );
    // an actor who does not own the anchor is refused outright
    assert_eq!(
        contract.nft_merge("7".to_string(), 1, 1, "bob".to_string()),
        Err(TileError::PermissionDenied)
    );

    // neither the merge record nor any coverage link was written
    assert_eq!(contract.merge_record("7".to_string()), None);
    for id in ["7", "0", "8", "1", "9", "10"] {
        assert_eq!(contract.merged_into(id.to_string()), None);
    }
    assert_eq!(sorted_uncovered(&contract), before);
}

#[test]
fn test_coverage_invariant() {
    let mut contract = Contract::new();
    contract.nft_batch_mint("19".to_string(), 2, 3, "bob".to_string());
    contract.nft_batch_mint("7".to_string(), 3, 2, "alice".to_string());
    contract.nft_merge("18".to_string(), 2, 2, "bob".to_string()).unwrap();
    contract.nft_merge("7".to_string(), 2, 2, "alice".to_string()).unwrap();

    let uncovered = contract.get_not_covered_tokens();
    let all_ids = ["19", "18", "17", "6", "5", "4", "7", "0", "8", "1", "9", "10"];
    for id in all_ids {
        let linked = contract.merged_into(id.to_string()).is_some();
        let listed: Vec<&UncoveredToken> =
            uncovered.iter().filter(|t| t.token_id == id).collect();
        if linked {
            assert!(listed.is_empty());
        } else {
            assert_eq!(listed.len(), 1);
            let expected_size = contract.merge_record(id.to_string()).unwrap_or((1, 1));
            assert_eq!((listed[0].width, listed[0].height), expected_size);
        }
    }
}

#[test]
fn test_idempotent_re_merge() {
    let mut contract = Contract::new();
    contract.nft_batch_mint("7".to_string(), 3, 2, "alice".to_string());

    contract.nft_merge("7".to_string(), 3, 2, "alice".to_string()).unwrap();
    let once_record = contract.merge_record("7".to_string());
    let once_links: Vec<Option<String>> =
        ["7", "0", "8", "1", "9", "10"].iter().map(|id| contract.merged_into(id.to_string())).collect();
    let once_uncovered = sorted_uncovered(&contract);

    contract.nft_merge("7".to_string(), 3, 2, "alice".to_string()).unwrap();
    let twice_record = contract.merge_record("7".to_string());
    let twice_links: Vec<Option<String>> =
        ["7", "0", "8", "1", "9", "10"].iter().map(|id| contract.merged_into(id.to_string())).collect();
    let twice_uncovered = sorted_uncovered(&contract);

    assert_eq!(once_record, twice_record);
    assert_eq!(once_links, twice_links);
    assert_eq!(once_uncovered, twice_uncovered);
}

#[test]
fn test_overlapping_merges() {
    let mut contract = Contract::new();
    contract.nft_batch_mint("7".to_string(), 3, 2, "alice".to_string());

    contract.nft_merge("7".to_string(), 2, 2, "alice".to_string()).unwrap();
    // the anchor of a later merge may itself be a member of an earlier one:
    // the most recent link wins
    contract.nft_merge("8".to_string(), 2, 2, "alice".to_string()).unwrap();

    assert_eq!(contract.merged_into("8".to_string()), Some("7".to_string()));
    assert_eq!(contract.merged_into("1".to_string()), Some("8".to_string()));
    assert_eq!(contract.merged_into("9".to_string()), Some("8".to_string()));
    assert_eq!(contract.merged_into("10".to_string()), Some("8".to_string()));
    assert_eq!(contract.merge_record("8".to_string()), Some((2, 2)));
}
