use devnet_mempool::felt::Felt;
use devnet_mempool::json::{felt_from_json, JsonNumber, JsonValue};
use devnet_mempool::origin::{
    block_number_source, interception, BlockNumberSource,
    accept_origin_block, array_block_id_replacement, block_number_from_response,
    block_tag_replacement, clamp_to_fork, message_status_hashes, transaction_hash_from_params, covered_by_boundary, intercept_status,
    needs_transaction_lookup, promote_message_statuses, promote_status, promotes_status,
    raised_boundary, starting_block_id, status_promotion, transaction_hash_param,
    with_origin_block_id, AcceptanceRefusal, AcceptanceResponseKind, OriginAcceptance,
    OriginBlockId, OriginBlockStatus, RequestParams, StatusPromotion,
    TRANSACTION_BLOCK_NUMBER_CACHE_CAPACITY,
};

fn text(value: &str) -> JsonValue {
    JsonValue::Str(value.to_string())
}

fn number(value: u64) -> JsonValue {
    JsonValue::Number(JsonNumber::Unsigned(value))
}

fn object(members: Vec<(&str, JsonValue)>) -> JsonValue {
    JsonValue::Object(members.into_iter().map(|(key, value)| (key.to_string(), value)).collect())
}

fn members(value: JsonValue) -> Vec<(String, JsonValue)> {
    match value {
        JsonValue::Object(members) => members,
        _ => panic!("expected an object"),
    }
}

#[test]
fn acceptance_response_subset_is_explicit() {
    for method in [
        "starknet_getBlockWithTxHashes",
        "starknet_getBlockWithTxs",
        "starknet_getBlockWithReceipts",
        "starknet_getTransactionReceipt",
        "starknet_getTransactionStatus",
        "starknet_getMessagesStatus",
    ] {
        assert!(AcceptanceResponseKind::from_method(method).is_some());
    }
    assert!(AcceptanceResponseKind::from_method("starknet_getTransactionByHash").is_none());
}

#[test]
fn response_kinds_by_method() {
    assert_eq!(
        AcceptanceResponseKind::from_method("starknet_getBlockWithTxs"),
        Some(AcceptanceResponseKind::Block)
    );
    assert_eq!(
        AcceptanceResponseKind::from_method("starknet_getBlockWithReceipts"),
        Some(AcceptanceResponseKind::BlockWithReceipts)
    );
    assert_eq!(
        AcceptanceResponseKind::from_method("starknet_getTransactionReceipt"),
        Some(AcceptanceResponseKind::TransactionReceipt)
    );
    assert_eq!(
        AcceptanceResponseKind::from_method("starknet_getTransactionStatus"),
        Some(AcceptanceResponseKind::TransactionStatus)
    );
    assert_eq!(
        AcceptanceResponseKind::from_method("starknet_getMessagesStatus"),
        Some(AcceptanceResponseKind::MessagesStatus)
    );
}

#[test]
fn test_replacing_block_id() {
    let block_number = 10;
    let cases = vec![
        (RequestParams::Absent, RequestParams::Absent),
        (
            RequestParams::Array(vec![text("a"), number(1), text("latest"), number(2)]),
            RequestParams::Array(vec![text("a"), number(1), object(vec![("block_number", number(10))]), number(2)]),
        ),
        (
            RequestParams::Array(vec![text("a"), number(1), text("pre_confirmed"), number(2)]),
            RequestParams::Array(vec![text("a"), number(1), object(vec![("block_number", number(10))]), number(2)]),
        ),
        (
            RequestParams::Object(members(object(vec![
                ("param1", text("a")),
                ("param2", number(1)),
                ("block_id", text("latest")),
                ("param3", number(2)),
            ]))),
            RequestParams::Object(members(object(vec![
                ("param1", text("a")),
                ("param2", number(1)),
                ("block_id", object(vec![("block_number", number(10))])),
                ("param3", number(2)),
            ]))),
        ),
        (
            RequestParams::Object(members(object(vec![
                ("param1", text("a")),
                ("param2", number(1)),
                ("block_id", text("pre_confirmed")),
                ("param3", number(2)),
            ]))),
            RequestParams::Object(members(object(vec![
                ("param1", text("a")),
                ("param2", number(1)),
                ("block_id", object(vec![("block_number", number(10))])),
                ("param3", number(2)),
            ]))),
        ),
    ];
    for (given, replaced) in cases {
        assert_eq!(with_origin_block_id(given, block_number, None), replaced);
    }
}

#[test]
fn only_the_first_tag_is_replaced() {
    let positional = vec![text("l1_accepted"), text("latest")];
    assert_eq!(array_block_id_replacement(&positional, 10, Some(3)), Some((0, 3)));
    assert_eq!(
        with_origin_block_id(RequestParams::Array(positional), 10, Some(3)),
        RequestParams::Array(vec![object(vec![("block_number", number(3))]), text("latest")])
    );
    assert_eq!(array_block_id_replacement(&[text("a"), number(1)], 10, None), None);
    assert_eq!(block_tag_replacement(Some("a"), 10, None), None);
    assert_eq!(block_tag_replacement(None, 10, None), None);
}

#[test]
fn l1_accepted_tag_uses_simulated_boundary_when_present() {
    let request = || RequestParams::Object(members(object(vec![("block_id", text("l1_accepted"))])));
    let expected = |n: u64| RequestParams::Object(members(object(vec![("block_id", object(vec![("block_number", number(n))]))])));

    assert_eq!(with_origin_block_id(request(), 10, None), expected(10));
    assert_eq!(with_origin_block_id(request(), 10, Some(7)), expected(7));
}

#[test]
fn interception_is_dormant_until_acceptance_boundary_is_set() {
    let mut acceptance = OriginAcceptance::new();
    let response = object(vec![("block_number", number(5)), ("status", text("ACCEPTED_ON_L2"))]);

    assert!(acceptance.accepted_on_l1_through().is_none());

    acceptance.set_accepted_on_l1_through(5);

    assert_eq!(acceptance.accepted_on_l1_through(), Some(5));
    assert_eq!(acceptance.cached_count(), 0);
    let block_number = block_number_from_response(&response);
    assert_eq!(
        intercept_status(response, AcceptanceResponseKind::Block, block_number, 5),
        object(vec![("block_number", number(5)), ("status", text("ACCEPTED_ON_L1"))])
    );
}

#[test]
fn interception_promotes_origin_transaction_receipts_and_statuses() {
    let mut acceptance = OriginAcceptance::new();
    let transaction_hash = Felt::from_u64(123);
    acceptance.set_accepted_on_l1_through(5);

    let receipt = object(vec![("block_number", number(5)), ("finality_status", text("ACCEPTED_ON_L2"))]);
    let block_number = block_number_from_response(&receipt);
    assert!(!needs_transaction_lookup(AcceptanceResponseKind::TransactionReceipt, block_number));
    assert_eq!(
        intercept_status(receipt, AcceptanceResponseKind::TransactionReceipt, block_number, 5),
        object(vec![("block_number", number(5)), ("finality_status", text("ACCEPTED_ON_L1"))])
    );

    acceptance.remember_block_number(&transaction_hash, 5);
    let status_params = RequestParams::Object(members(object(vec![("transaction_hash", text("0x7b"))])));
    assert_eq!(transaction_hash_param(&status_params), Some(&text("0x7b")));
    let status = object(vec![
        ("finality_status", text("ACCEPTED_ON_L2")),
        ("execution_status", text("SUCCEEDED")),
    ]);
    assert_eq!(block_number_from_response(&status), None);
    assert!(needs_transaction_lookup(AcceptanceResponseKind::TransactionStatus, None));
    let block_number = acceptance.cached_block_number(&transaction_hash);
    assert_eq!(
        intercept_status(status, AcceptanceResponseKind::TransactionStatus, block_number, 5),
        object(vec![
            ("finality_status", text("ACCEPTED_ON_L1")),
            ("execution_status", text("SUCCEEDED")),
        ])
    );
}

#[test]
fn interception_promotes_receipts_nested_in_accepted_origin_block() {
    let response = object(vec![
        ("block_number", number(5)),
        ("status", text("ACCEPTED_ON_L2")),
        (
            "transactions",
            JsonValue::Array(vec![object(vec![
                ("transaction", object(vec![])),
                ("receipt", object(vec![("finality_status", text("ACCEPTED_ON_L2"))])),
            ])]),
        ),
    ]);
    let block_number = block_number_from_response(&response);

    assert_eq!(
        intercept_status(response, AcceptanceResponseKind::BlockWithReceipts, block_number, 5),
        object(vec![
            ("block_number", number(5)),
            ("status", text("ACCEPTED_ON_L1")),
            (
                "transactions",
                JsonValue::Array(vec![object(vec![
                    ("transaction", object(vec![])),
                    ("receipt", object(vec![("finality_status", text("ACCEPTED_ON_L1"))])),
                ])]),
            ),
        ])
    );
}

#[test]
fn interception_promotes_only_covered_message_statuses() {
    let mut acceptance = OriginAcceptance::new();
    let covered_transaction_hash = Felt::from_u64(123);
    let uncovered_transaction_hash = Felt::from_u64(456);
    acceptance.remember_block_number(&covered_transaction_hash, 5);
    acceptance.remember_block_number(&uncovered_transaction_hash, 6);
    let covered = [
        covered_by_boundary(acceptance.cached_block_number(&covered_transaction_hash), 5),
        covered_by_boundary(acceptance.cached_block_number(&uncovered_transaction_hash), 5),
    ];
    let response = JsonValue::Array(vec![
        object(vec![("transaction_hash", text("0x7b")), ("finality_status", text("ACCEPTED_ON_L2"))]),
        object(vec![("transaction_hash", text("0x1c8")), ("finality_status", text("ACCEPTED_ON_L2"))]),
    ]);

    assert_eq!(
        promote_message_statuses(response, &covered),
        JsonValue::Array(vec![
            object(vec![("transaction_hash", text("0x7b")), ("finality_status", text("ACCEPTED_ON_L1"))]),
            object(vec![("transaction_hash", text("0x1c8")), ("finality_status", text("ACCEPTED_ON_L2"))]),
        ])
    );
    assert!(!covered_by_boundary(acceptance.cached_block_number(&Felt::from_u64(1)), 5));
}

#[test]
fn status_promotion_by_kind_and_block() {
    assert_eq!(status_promotion(AcceptanceResponseKind::Block, Some(5), 5), StatusPromotion::Status);
    assert_eq!(
        status_promotion(AcceptanceResponseKind::BlockWithReceipts, Some(5), 5),
        StatusPromotion::StatusAndReceipts
    );
    assert_eq!(
        status_promotion(AcceptanceResponseKind::TransactionStatus, Some(4), 5),
        StatusPromotion::FinalityStatus
    );
    assert_eq!(
        status_promotion(AcceptanceResponseKind::MessagesStatus, Some(5), 5),
        StatusPromotion::Unchanged
    );
    assert!(promotes_status(Some("ACCEPTED_ON_L2")));
    assert!(!promotes_status(Some("SUCCEEDED")));
}

#[test]
fn only_accepted_on_l2_is_promoted() {
    let rejected = object(vec![("status", text("REJECTED"))]);
    assert_eq!(promote_status(rejected, "status"), object(vec![("status", text("REJECTED"))]));
    let missing = object(vec![("other", text("ACCEPTED_ON_L2"))]);
    assert_eq!(promote_status(missing, "status"), object(vec![("other", text("ACCEPTED_ON_L2"))]));
    assert_eq!(promote_status(text("ACCEPTED_ON_L2"), "status"), text("ACCEPTED_ON_L2"));
    let past = object(vec![("block_number", number(6)), ("status", text("ACCEPTED_ON_L2"))]);
    assert_eq!(
        intercept_status(past, AcceptanceResponseKind::Block, Some(6), 5),
        object(vec![("block_number", number(6)), ("status", text("ACCEPTED_ON_L2"))])
    );
}

#[test]
fn transaction_block_number_cache_is_bounded() {
    let mut acceptance = OriginAcceptance::new();
    for number in 0..=TRANSACTION_BLOCK_NUMBER_CACHE_CAPACITY as u64 {
        acceptance.remember_block_number(&Felt::from_u64(number), number);
    }

    assert_eq!(acceptance.cached_count(), TRANSACTION_BLOCK_NUMBER_CACHE_CAPACITY);
    assert!(!acceptance.is_cached(&Felt::from_u64(0)));
    assert!(acceptance.is_cached(&Felt::from_u64(TRANSACTION_BLOCK_NUMBER_CACHE_CAPACITY as u64)));
}

#[test]
fn cache_lookup_refreshes_recency() {
    let mut acceptance = OriginAcceptance::new();
    for number in 0..TRANSACTION_BLOCK_NUMBER_CACHE_CAPACITY as u64 {
        acceptance.remember_block_number(&Felt::from_u64(number), number);
    }
    assert_eq!(acceptance.cached_block_number(&Felt::from_u64(0)), Some(0));
    acceptance.remember_block_number(&Felt::from_u64(5000), 7);
    assert!(acceptance.is_cached(&Felt::from_u64(0)));
    assert!(!acceptance.is_cached(&Felt::from_u64(1)));
    acceptance.remember_block_number(&Felt::from_u64(0), 9);
    assert_eq!(acceptance.cached_block_number(&Felt::from_u64(0)), Some(9));
    assert_eq!(acceptance.cached_count(), TRANSACTION_BLOCK_NUMBER_CACHE_CAPACITY);
}

#[test]
fn promotion_stays_off_past_the_boundary() {
    assert_eq!(status_promotion(AcceptanceResponseKind::Block, Some(6), 5), StatusPromotion::Unchanged);
    assert_eq!(status_promotion(AcceptanceResponseKind::Block, None, 5), StatusPromotion::Unchanged);
    assert!(!promotes_status(None));
}

#[test]
fn boundary_never_moves_back() {
    assert_eq!(raised_boundary(None, 4), Some(4));
    assert_eq!(raised_boundary(Some(7), 4), Some(7));
    assert_eq!(raised_boundary(Some(7), 9), Some(9));
    let mut acceptance = OriginAcceptance::default();
    acceptance.set_accepted_on_l1_through(8);
    acceptance.set_accepted_on_l1_through(3);
    assert_eq!(acceptance.accepted_on_l1_through(), Some(8));
}

#[test]
fn origin_block_acceptance_decisions() {
    assert_eq!(accept_origin_block(5, OriginBlockStatus::AcceptedOnL2, 10, None), Ok(5));
    assert_eq!(
        accept_origin_block(11, OriginBlockStatus::AcceptedOnL2, 10, None),
        Err(AcceptanceRefusal::NoBlock)
    );
    assert_eq!(
        accept_origin_block(5, OriginBlockStatus::AcceptedOnL2, 10, Some(5)),
        Err(AcceptanceRefusal::AlreadyAccepted)
    );
    assert_eq!(
        accept_origin_block(5, OriginBlockStatus::AcceptedOnL1, 10, None),
        Err(AcceptanceRefusal::AlreadyAccepted)
    );
    assert_eq!(
        accept_origin_block(5, OriginBlockStatus::PreConfirmed, 10, Some(4)),
        Err(AcceptanceRefusal::NotAcceptedOnL2)
    );
    assert_eq!(starting_block_id(OriginBlockId::Latest, 10), OriginBlockId::Number(10));
    assert_eq!(starting_block_id(OriginBlockId::PreConfirmed, 10), OriginBlockId::Number(10));
    assert_eq!(starting_block_id(OriginBlockId::Number(3), 10), OriginBlockId::Number(3));
    assert_eq!(clamp_to_fork(12, 10), 10);
    assert_eq!(clamp_to_fork(8, 10), 8);
}

#[test]
fn interception_needs_a_boundary_and_a_status_method() {
    assert_eq!(
        interception("starknet_getBlockWithTxs", Some(4)),
        Some((AcceptanceResponseKind::Block, 4))
    );
    assert_eq!(interception("starknet_getBlockWithTxs", None), None);
    assert_eq!(interception("starknet_getTransactionByHash", Some(4)), None);
}

#[test]
fn l1_accepted_number_comes_from_the_boundary_when_set() {
    assert_eq!(block_number_source(OriginBlockId::L1Accepted, Some(7)), BlockNumberSource::Known(7));
    assert_eq!(block_number_source(OriginBlockId::L1Accepted, None), BlockNumberSource::OriginL1Accepted);
    assert_eq!(
        block_number_source(OriginBlockId::Number(3), Some(7)),
        BlockNumberSource::OriginBlock(OriginBlockId::Number(3))
    );
}

#[test]
fn transaction_hash_is_read_from_a_hex_string() {
    assert_eq!(felt_from_json(&text("0x1a")), Some(Felt { hi: 0, lo: 26 }));
    assert_eq!(
        felt_from_json(&text("0x100000000000000000000000000000001")),
        Some(Felt { hi: 1, lo: 1 })
    );
    assert_eq!(felt_from_json(&text("1a")), None);
    assert_eq!(felt_from_json(&text("0xzz")), None);
    assert_eq!(felt_from_json(&number(26)), None);
    assert_eq!(felt_from_json(&JsonValue::Null), None);
}

#[test]
fn call_names_its_transaction_by_first_or_named_parameter() {
    assert_eq!(
        transaction_hash_from_params(&RequestParams::Array(vec![text("0x5"), text("0x6")])),
        Some(Felt { hi: 0, lo: 5 })
    );
    assert_eq!(
        transaction_hash_from_params(&RequestParams::Object(vec![
            ("block_id".to_string(), text("latest")),
            ("transaction_hash".to_string(), text("0x7")),
        ])),
        Some(Felt { hi: 0, lo: 7 })
    );
    assert_eq!(transaction_hash_from_params(&RequestParams::Array(vec![number(5)])), None);
    assert_eq!(transaction_hash_from_params(&RequestParams::Array(vec![])), None);
    assert_eq!(transaction_hash_from_params(&RequestParams::Absent), None);
}

#[test]
fn each_message_status_names_its_transaction() {
    let statuses = JsonValue::Array(vec![
        object(vec![("transaction_hash", text("0x10")), ("finality_status", text("ACCEPTED_ON_L2"))]),
        object(vec![("finality_status", text("ACCEPTED_ON_L2"))]),
        object(vec![("transaction_hash", number(3))]),
        text("0x11"),
    ]);
    assert_eq!(
        message_status_hashes(&statuses),
        vec![Some(Felt { hi: 0, lo: 16 }), None, None, None]
    );
    assert_eq!(message_status_hashes(&object(vec![("transaction_hash", text("0x10"))])), vec![]);
}
