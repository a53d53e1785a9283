use zymatica_engine::agent_acp::AcpServerEngine;
use zymatica_engine::neural_swarm_hypergraph::{SwarmConsensusEngine, SwarmIntentChirp};
use zymatica_engine::scheduler::{InferenceRequest, PrefixRadixCache, PrefixValue, RequestState, RuntimeScheduler};

#[test]
fn test_swarm_intent_chirp_16byte_serialization() {
    let chirp = SwarmIntentChirp::new(1, 42, 2, 5, 0x07, [10, 20, 30, 40, 50, 60]);
    let bytes = chirp.to_bytes();
    assert_eq!(bytes.len(), 16);
    assert_eq!(bytes[15], 0x5A);
    let decoded = SwarmIntentChirp::from_bytes(&bytes).expect("Valid 16B chirp decode");
    assert_eq!(chirp, decoded);
}

#[test]
fn test_swarm_hypergraph_quorum_consensus_with_auth_and_certificates() {
    let nodes = vec![1, 2, 3];
    let mut engine = SwarmConsensusEngine::new(nodes);

    let c1 = SwarmIntentChirp::new(1, 10, 1, 1, 0x01, [10, 20, 30, 40, 50, 60]);
    let c2 = SwarmIntentChirp::new(2, 10, 1, 1, 0x01, [12, 22, 32, 42, 52, 62]);
    let c3 = SwarmIntentChirp::new(3, 10, 1, 1, 0x01, [11, 21, 31, 41, 51, 61]);
    let c_unauth = SwarmIntentChirp::new(99, 10, 1, 1, 0x01, [11, 21, 31, 41, 51, 61]);

    assert!(engine.submit_intent(c_unauth).is_err(), "Unauthorized node must be rejected");
    assert!(engine.submit_intent(c1).is_ok());
    assert!(engine.submit_intent(c1).is_err(), "Duplicate submission in same epoch must be rejected");
    assert!(engine.submit_intent(c2).is_ok());

    assert_eq!(engine.resolve_consensus(10, 3), None);

    assert!(engine.submit_intent(c3).is_ok());
    let cert = engine.resolve_consensus(10, 3).expect("Quorum reached");
    assert_eq!(cert.consensus_trajectory, [11, 21, 31, 41, 51, 61]);
    assert_eq!(cert.epoch, 10);
    assert_eq!(cert.participant_nodes.len(), 3);
}

#[test]
fn corrupted_chirp_is_refused() {
    let chirp = SwarmIntentChirp::new(1, 42, 2, 5, 0x07, [10, 20, 30, 40, 50, 60]);
    let mut bytes = chirp.to_bytes();
    bytes[3] ^= 0x01;
    assert!(SwarmIntentChirp::from_bytes(&bytes).is_err());
    let mut bad_magic = chirp.to_bytes();
    bad_magic[15] = 0;
    assert!(SwarmIntentChirp::from_bytes(&bad_magic).is_err());
}

#[test]
fn prefix_cache_returns_longest_match() {
    let mut cache = PrefixRadixCache::new();
    cache.insert(&[1, 2, 3], PrefixValue { cache_pages: vec![10], page_generations: vec![1], token_len: 3 });
    cache.insert(
        &[1, 2, 3, 4, 5],
        PrefixValue { cache_pages: vec![10, 11], page_generations: vec![1, 2], token_len: 5 },
    );
    let (len, value) = cache.longest_match(&[1, 2, 3, 4, 9]).unwrap();
    assert_eq!(len, 3);
    assert_eq!(value.cache_pages, vec![10]);
}

#[test]
fn scheduler_accounts_for_prefix_reuse() {
    let mut scheduler = RuntimeScheduler::new(8);
    scheduler
        .prefix_cache
        .insert(&[7, 8, 9], PrefixValue { cache_pages: vec![1], page_generations: vec![1], token_len: 3 });
    let requests = vec![
        InferenceRequest { id: 1, prompt_tokens: vec![7, 8, 9, 10, 11], generated_tokens: 0, max_new_tokens: 8, priority: 5 },
        InferenceRequest { id: 2, prompt_tokens: vec![1, 2, 3, 4], generated_tokens: 1, max_new_tokens: 8, priority: 3 },
    ];
    let plan = scheduler.plan_batch(&requests);
    assert_eq!(plan.total_billable_tokens, 3);
    assert_eq!(plan.requests[0].reusable_prefix_tokens, 3);
    assert_eq!(plan.requests[0].billable_tokens, 2);
    assert_eq!(plan.requests[1].billable_tokens, 1);
}

#[test]
fn scheduler_orders_by_priority_then_id_and_stops_at_budget() {
    let scheduler = RuntimeScheduler::new(5);
    let requests = vec![
        InferenceRequest { id: 4, prompt_tokens: vec![1, 2, 3], generated_tokens: 0, max_new_tokens: 1, priority: 1 },
        InferenceRequest { id: 3, prompt_tokens: vec![1, 2, 3, 4], generated_tokens: 0, max_new_tokens: 1, priority: 9 },
        InferenceRequest { id: 2, prompt_tokens: vec![5], generated_tokens: 2, max_new_tokens: 1, priority: 9 },
    ];
    let plan = scheduler.plan_batch(&requests);
    assert_eq!(plan.requests.len(), 2);
    assert_eq!(plan.requests[0].id, 2);
    assert_eq!(plan.requests[0].state, RequestState::Decode);
    assert_eq!(plan.requests[1].id, 3);
    assert_eq!(plan.total_billable_tokens, 5);
}

#[test]
fn oversized_first_request_is_still_admitted() {
    let scheduler = RuntimeScheduler::new(2);
    let requests = vec![InferenceRequest { id: 1, prompt_tokens: vec![1, 2, 3, 4], generated_tokens: 0, max_new_tokens: 1, priority: 0 }];
    let plan = scheduler.plan_batch(&requests);
    assert_eq!(plan.requests.len(), 1);
    assert_eq!(plan.total_billable_tokens, 4);
}

#[test]
fn cached_sequence_matches_in_full_and_empty_cache_matches_nothing() {
    let mut cache = PrefixRadixCache::new();
    assert!(cache.longest_match(&[1, 2]).is_none());
    cache.insert(&[4, 5], PrefixValue { cache_pages: vec![3], page_generations: vec![9], token_len: 2 });
    let (len, value) = cache.longest_match(&[4, 5]).unwrap();
    assert_eq!(len, 2);
    assert_eq!(value.page_generations, vec![9]);
    cache.insert(&[], PrefixValue { cache_pages: vec![], page_generations: vec![], token_len: 0 });
    assert_eq!(cache.longest_match(&[7]).unwrap().0, 0);
}

#[test]
fn test_acp_state_update() {
    let mut server = AcpServerEngine::new("file:///workspace");
    server.update_active_file("/workspace/src/lib.rs".to_string(), Some(42));
    let st = server.get_state();
    assert_eq!(st.active_file.as_deref(), Some("/workspace/src/lib.rs"));
    assert_eq!(st.cursor_line, Some(42));
}

#[test]
fn acp_open_files_are_not_repeated() {
    let mut server = AcpServerEngine::new("file:///w");
    server.update_active_file("a.rs".to_string(), Some(1));
    server.update_active_file("b.rs".to_string(), None);
    server.update_active_file("a.rs".to_string(), Some(3));
    let st = server.get_state();
    assert_eq!(st.open_files, vec!["a.rs".to_string(), "b.rs".to_string()]);
    assert_eq!(st.active_file.as_deref(), Some("a.rs"));
    assert_eq!(st.cursor_line, Some(3));
    assert_eq!(st.workspace_uri, "file:///w");
}

#[test]
fn chirp_weight_byte_is_not_checksummed() {
    let chirp = SwarmIntentChirp::new(1, 42, 2, 5, 0x07, [10, 20, 30, 40, 50, 60]);
    let mut bytes = chirp.to_bytes();
    bytes[4] = 7;
    let decoded = SwarmIntentChirp::from_bytes(&bytes).unwrap();
    assert_eq!(decoded.consensus_weight, 7);
    bytes[5] ^= 1;
    assert!(SwarmIntentChirp::from_bytes(&bytes).is_err());
}
