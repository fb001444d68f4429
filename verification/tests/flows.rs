use bitcoin_blockchain_query::{
    classify_transaction, get_transaction_flows_for_address, next_fetch_of,
    organize_transaction_flows_for_mulitple_addresses_by_txid_and_blocktime, received_flows_of,
    spent_flow_of, Action, AddressFlowBuilder, FlowError, GroupedFlowTable, Stage, Transaction,
    TransactionCache, TransactionFlow, TransactionFlowsForAddress,
    TransactionFlowsWithTransaction, Vin, Vout,
};

fn pays_to(n: u64, address: &str) -> Vout {
    Vout { n, amount: 50_000, script_address: Some(address.to_string()), address: None }
}

fn spends(txid: &str, vout: u64) -> Vin {
    Vin::Spending { txid: txid.to_string(), vout }
}

fn transaction(txid: &str, blocktime: i64, vin: Vec<Vin>, vout: Vec<Vout>) -> Transaction {
    Transaction { txid: txid.to_string(), blocktime, vin, vout }
}

fn ids(txids: &[&str]) -> Vec<String> {
    txids.iter().map(|t| t.to_string()).collect()
}

fn cache_of(transactions: &[Transaction]) -> TransactionCache {
    let mut cache = TransactionCache::new();
    for tx in transactions {
        cache.insert(tx.clone());
    }
    cache
}

/// Runs a builder to its end against `ledger`, answering every fetch from
/// it, and returns the outcome with the ids that were asked for, in order.
fn run(
    address: &str,
    history: &[&str],
    ledger: &[Transaction],
) -> (Result<TransactionFlowsForAddress, FlowError>, Vec<String>) {
    let (mut builder, mut action) = AddressFlowBuilder::start(address, Ok(ids(history)));
    let mut asked = Vec::new();
    loop {
        match action {
            Action::Fetch(txid) => {
                let fetched = match ledger.iter().find(|tx| tx.txid == txid) {
                    Some(tx) => Ok(tx.clone()),
                    None => Err(FlowError::NotFound),
                };
                asked.push(txid);
                action = builder.step(fetched);
            }
            Action::Finished(outcome) => return (outcome, asked),
        }
    }
}

fn entry(tx: &Transaction, flows: Vec<TransactionFlow>) -> TransactionFlowsWithTransaction {
    TransactionFlowsWithTransaction((tx.clone(), flows))
}

fn t1() -> Transaction {
    transaction("T1", 1000, vec![Vin::Coinbase], vec![pays_to(0, "addrX")])
}

fn t2() -> Transaction {
    transaction("T2", 2000, vec![spends("T1", 0)], vec![pays_to(0, "addrY")])
}

#[test]
fn received_then_spent_history() {
    let ledger = vec![t1(), t2()];
    let (outcome, _) = run("addrX", &["T1", "T2"], &ledger);
    let expected = TransactionFlowsForAddress(vec![
        entry(&t1(), vec![TransactionFlow::Received(0, t1())]),
        entry(&t2(), vec![TransactionFlow::Sent(0, t1(), t2())]),
    ]);
    assert_eq!(outcome, Ok(expected));
}

#[test]
fn single_received_transaction_history() {
    let ledger = vec![t1()];
    let (outcome, asked) = run("addrX", &["T1"], &ledger);
    let expected =
        TransactionFlowsForAddress(vec![entry(&t1(), vec![TransactionFlow::Received(0, t1())])]);
    assert_eq!(outcome, Ok(expected));
    assert_eq!(asked, ids(&["T1"]));
}

#[test]
fn grouping_one_address_keys_each_transaction() {
    let ledger = vec![t1(), t2()];
    let (outcome, _) = run("addrX", &["T1", "T2"], &ledger);
    let table =
        organize_transaction_flows_for_mulitple_addresses_by_txid_and_blocktime(vec![outcome
            .unwrap()])
        .unwrap();
    assert_eq!(table.groups().len(), 2);
    assert_eq!(
        table.get(&"T1".to_string(), 1000),
        Some(&vec![TransactionFlow::Received(0, t1())])
    );
    assert_eq!(
        table.get(&"T2".to_string(), 2000),
        Some(&vec![TransactionFlow::Sent(0, t1(), t2())])
    );
    assert_eq!(table.get(&"T1".to_string(), 2000), None);
    assert_eq!(table.get(&"T3".to_string(), 1000), None);
}

#[test]
fn received_flows_only_for_outputs_of_the_address() {
    let tx = transaction(
        "A",
        10,
        vec![Vin::Coinbase],
        vec![
            pays_to(0, "other"),
            pays_to(1, "mine"),
            Vout { n: 2, amount: 1, script_address: None, address: None },
            pays_to(3, "mine"),
        ],
    );
    let flows =
        classify_transaction(&TransactionCache::new(), &tx, &"mine".to_string()).unwrap();
    assert_eq!(
        flows,
        vec![TransactionFlow::Received(1, tx.clone()), TransactionFlow::Received(3, tx.clone())]
    );
}

#[test]
fn output_without_address_is_no_match_and_no_error() {
    let tx = transaction(
        "A",
        10,
        vec![],
        vec![Vout { n: 0, amount: 7, script_address: None, address: None }],
    );
    let flows = classify_transaction(&TransactionCache::new(), &tx, &"mine".to_string());
    assert_eq!(flows, Ok(vec![]));
}

#[test]
fn script_address_is_read_before_the_flat_one() {
    let both = Vout {
        n: 0,
        amount: 1,
        script_address: Some("nested".to_string()),
        address: Some("flat".to_string()),
    };
    let flat_only = Vout { n: 1, amount: 1, script_address: None, address: Some("flat".to_string()) };
    let neither = Vout { n: 2, amount: 1, script_address: None, address: None };
    assert_eq!(both.resolved_address(), Some(&"nested".to_string()));
    assert_eq!(flat_only.resolved_address(), Some(&"flat".to_string()));
    assert_eq!(neither.resolved_address(), None);
    assert!(both.pays(&"nested".to_string()));
    assert!(!both.pays(&"flat".to_string()));
    assert!(flat_only.pays(&"flat".to_string()));
    assert!(!neither.pays(&"flat".to_string()));

    let tx = transaction("A", 10, vec![], vec![both, flat_only, neither]);
    let flows = classify_transaction(&TransactionCache::new(), &tx, &"flat".to_string()).unwrap();
    assert_eq!(flows, vec![TransactionFlow::Received(1, tx.clone())]);
}

#[test]
fn sent_flows_only_for_inputs_spending_from_the_address() {
    let funding = transaction(
        "F",
        5,
        vec![Vin::Coinbase],
        vec![pays_to(0, "other"), pays_to(1, "mine")],
    );
    let tx = transaction(
        "S",
        9,
        vec![Vin::Coinbase, spends("F", 0), spends("F", 1)],
        vec![pays_to(0, "other")],
    );
    let cache = cache_of(&[funding.clone()]);
    let flows = classify_transaction(&cache, &tx, &"mine".to_string()).unwrap();
    assert_eq!(flows, vec![TransactionFlow::Sent(1, funding, tx)]);
}

#[test]
fn coinbase_input_contributes_no_flow() {
    let tx = transaction("C", 3, vec![Vin::Coinbase], vec![pays_to(0, "other")]);
    let flows = classify_transaction(&TransactionCache::new(), &tx, &"mine".to_string());
    assert_eq!(flows, Ok(vec![]));
}

#[test]
fn sent_flow_carries_the_index_reported_by_the_spent_output() {
    let funding = transaction("F", 5, vec![], vec![pays_to(7, "mine")]);
    let tx = transaction("S", 9, vec![spends("F", 0)], vec![]);
    let cache = cache_of(&[funding.clone()]);
    let flows = classify_transaction(&cache, &tx, &"mine".to_string()).unwrap();
    assert_eq!(flows, vec![TransactionFlow::Sent(7, funding, tx)]);
}

#[test]
fn received_flows_come_before_sent_flows_in_index_order() {
    let funding = transaction(
        "F",
        5,
        vec![Vin::Coinbase],
        vec![pays_to(0, "mine"), pays_to(1, "mine"), pays_to(2, "other")],
    );
    let tx = transaction(
        "S",
        9,
        vec![spends("F", 1), spends("F", 2), spends("F", 0)],
        vec![pays_to(0, "mine"), pays_to(1, "other"), pays_to(2, "mine")],
    );
    let cache = cache_of(&[funding.clone()]);
    let flows = classify_transaction(&cache, &tx, &"mine".to_string()).unwrap();
    assert_eq!(
        flows,
        vec![
            TransactionFlow::Received(0, tx.clone()),
            TransactionFlow::Received(2, tx.clone()),
            TransactionFlow::Sent(1, funding.clone(), tx.clone()),
            TransactionFlow::Sent(0, funding.clone(), tx.clone()),
        ]
    );
}

#[test]
fn self_transfer_keeps_both_flows() {
    let funding = transaction("F", 5, vec![Vin::Coinbase], vec![pays_to(0, "mine")]);
    let tx = transaction("S", 9, vec![spends("F", 0)], vec![pays_to(0, "mine")]);
    let (outcome, _) = run("mine", &["F", "S"], &[funding.clone(), tx.clone()]);
    let expected = TransactionFlowsForAddress(vec![
        entry(&funding, vec![TransactionFlow::Received(0, funding.clone())]),
        entry(
            &tx,
            vec![
                TransactionFlow::Received(0, tx.clone()),
                TransactionFlow::Sent(0, funding.clone(), tx.clone()),
            ],
        ),
    ]);
    assert_eq!(outcome, Ok(expected));
}

#[test]
fn two_runs_against_one_ledger_agree() {
    let ledger = vec![t1(), t2()];
    let (first, _) = run("addrX", &["T1", "T2"], &ledger);
    let (second, _) = run("addrX", &["T1", "T2"], &ledger);
    assert!(first.is_ok());
    assert_eq!(first, second);
}

#[test]
fn history_order_is_kept_as_listed() {
    let ledger = vec![t1(), t2()];
    let (outcome, _) = run("addrX", &["T2", "T1"], &ledger);
    let expected = TransactionFlowsForAddress(vec![
        entry(&t2(), vec![TransactionFlow::Sent(0, t1(), t2())]),
        entry(&t1(), vec![TransactionFlow::Received(0, t1())]),
    ]);
    assert_eq!(outcome, Ok(expected));
}

#[test]
fn empty_history_gives_empty_flows() {
    let (outcome, asked) = run("addrX", &[], &[]);
    assert_eq!(outcome, Ok(TransactionFlowsForAddress(vec![])));
    assert!(asked.is_empty());
}

#[test]
fn shared_funding_transaction_is_fetched_once() {
    let funding = transaction(
        "F",
        5,
        vec![Vin::Coinbase],
        vec![pays_to(0, "mine"), pays_to(1, "mine"), pays_to(2, "mine")],
    );
    let tx = transaction(
        "S",
        9,
        vec![spends("F", 0), spends("F", 1), spends("F", 2)],
        vec![pays_to(0, "other")],
    );
    let ledger = vec![funding.clone(), tx.clone()];
    let (outcome, asked) = run("mine", &["S"], &ledger);
    assert_eq!(asked, ids(&["S", "F"]));
    assert_eq!(asked.iter().filter(|t| t.as_str() == "F").count(), 1);

    // The same flows come of resolving each input on its own, with a fresh
    // fetch of the funding transaction for every input.
    let mut one_by_one = Vec::new();
    let mut fetches = 0;
    for input in &tx.vin {
        let mut fresh = TransactionCache::new();
        fresh.insert(ledger.iter().find(|t| t.txid == "F").unwrap().clone());
        fetches += 1;
        if let Some(flow) = spent_flow_of(&fresh, &tx, &"mine".to_string(), input).unwrap() {
            one_by_one.push(flow);
        }
    }
    assert_eq!(fetches, 3);
    assert_eq!(
        one_by_one,
        vec![
            TransactionFlow::Sent(0, funding.clone(), tx.clone()),
            TransactionFlow::Sent(1, funding.clone(), tx.clone()),
            TransactionFlow::Sent(2, funding.clone(), tx.clone()),
        ]
    );
    assert_eq!(outcome, Ok(TransactionFlowsForAddress(vec![entry(&tx, one_by_one)])));
}

#[test]
fn listed_transactions_are_fetched_before_funding_ones() {
    let f1 = transaction("F1", 1, vec![Vin::Coinbase], vec![pays_to(0, "mine")]);
    let f2 = transaction("F2", 2, vec![Vin::Coinbase], vec![pays_to(0, "mine")]);
    let a = transaction("A", 3, vec![spends("F1", 0)], vec![pays_to(0, "other")]);
    let b = transaction("B", 4, vec![spends("F2", 0), spends("A", 0), spends("F1", 0)], vec![]);
    let ledger = vec![f1, f2, a, b];
    let (outcome, asked) = run("mine", &["A", "B"], &ledger);
    assert!(outcome.is_ok());
    assert_eq!(asked, ids(&["A", "B", "F1", "F2"]));
}

#[test]
fn next_fetch_walks_history_then_inputs() {
    let a = transaction("A", 3, vec![Vin::Coinbase, spends("F1", 0), spends("F2", 1)], vec![]);
    let f1 = transaction("F1", 1, vec![spends("G", 0)], vec![pays_to(0, "mine")]);
    let history = ids(&["A", "B"]);
    let mut cache = TransactionCache::new();
    assert_eq!(next_fetch_of(&cache, &history), Some("A".to_string()));
    cache.insert(a);
    assert_eq!(next_fetch_of(&cache, &history), Some("B".to_string()));
    cache.insert(transaction("B", 4, vec![], vec![]));
    assert_eq!(next_fetch_of(&cache, &history), Some("F1".to_string()));
    cache.insert(f1);
    assert_eq!(next_fetch_of(&cache, &history), Some("F2".to_string()));
    cache.insert(transaction("F2", 2, vec![], vec![]));
    assert_eq!(next_fetch_of(&cache, &history), None);
    assert_eq!(next_fetch_of(&cache, &Vec::new()), None);
}

#[test]
fn listing_failure_ends_the_run() {
    let (mut builder, action) = AddressFlowBuilder::start("addrX", Err(FlowError::LookupFailure));
    assert_eq!(action, Action::Finished(Err(FlowError::LookupFailure)));
    assert_eq!(builder.repeat(), Action::Finished(Err(FlowError::LookupFailure)));
    assert_eq!(builder.step(Ok(t1())), Action::Finished(Err(FlowError::LookupFailure)));
}

#[test]
fn missing_transaction_is_not_found() {
    let (outcome, asked) = run("addrX", &["T1", "T2"], &[t1()]);
    assert_eq!(outcome, Err(FlowError::NotFound));
    assert_eq!(asked, ids(&["T1", "T2"]));

    let (outcome, asked) = run("addrX", &["T2"], &[t2()]);
    assert_eq!(outcome, Err(FlowError::NotFound));
    assert_eq!(asked, ids(&["T2", "T1"]));
}

#[test]
fn fetch_failure_is_handed_on_as_it_is() {
    let (mut builder, action) = AddressFlowBuilder::start("addrX", Ok(ids(&["T1"])));
    assert_eq!(action, Action::Fetch("T1".to_string()));
    assert_eq!(builder.step(Err(FlowError::RpcFailure)), Action::Finished(Err(FlowError::RpcFailure)));
    assert_eq!(builder.step(Ok(t1())), Action::Finished(Err(FlowError::RpcFailure)));

    let (mut builder, _) = AddressFlowBuilder::start("addrX", Ok(ids(&["T1"])));
    assert_eq!(
        builder.step(Err(FlowError::MalformedResponse)),
        Action::Finished(Err(FlowError::MalformedResponse))
    );
}

#[test]
fn answer_with_another_id_is_malformed() {
    let (mut builder, action) = AddressFlowBuilder::start("addrX", Ok(ids(&["T1"])));
    assert_eq!(action, Action::Fetch("T1".to_string()));
    assert_eq!(builder.step(Ok(t2())), Action::Finished(Err(FlowError::MalformedResponse)));
}

#[test]
fn spent_output_out_of_range_is_malformed() {
    let funding = transaction("F", 5, vec![Vin::Coinbase], vec![pays_to(0, "mine")]);
    let tx = transaction("S", 9, vec![spends("F", 1)], vec![]);
    let (outcome, asked) = run("mine", &["S"], &[funding.clone(), tx.clone()]);
    assert_eq!(outcome, Err(FlowError::MalformedResponse));
    assert_eq!(asked, ids(&["S", "F"]));
    assert_eq!(
        classify_transaction(&cache_of(&[funding]), &tx, &"mine".to_string()),
        Err(FlowError::MalformedResponse)
    );
}

#[test]
fn first_failure_in_input_order_wins() {
    let funding = transaction("F", 5, vec![], vec![pays_to(0, "mine")]);
    let cache = cache_of(&[funding]);
    let missing_first = transaction("S", 9, vec![spends("G", 0), spends("F", 4)], vec![]);
    let range_first = transaction("S", 9, vec![spends("F", 4), spends("G", 0)], vec![]);
    assert_eq!(
        classify_transaction(&cache, &missing_first, &"mine".to_string()),
        Err(FlowError::NotFound)
    );
    assert_eq!(
        classify_transaction(&cache, &range_first, &"mine".to_string()),
        Err(FlowError::MalformedResponse)
    );
}

#[test]
fn history_from_transactions_at_hand() {
    let cache = cache_of(&[t1(), t2()]);
    let flows = get_transaction_flows_for_address("addrX", &ids(&["T1", "T2"]), &cache);
    let expected = TransactionFlowsForAddress(vec![
        entry(&t1(), vec![TransactionFlow::Received(0, t1())]),
        entry(&t2(), vec![TransactionFlow::Sent(0, t1(), t2())]),
    ]);
    assert_eq!(flows, Ok(expected));
    assert_eq!(
        get_transaction_flows_for_address("addrX", &ids(&["T1", "T3"]), &cache),
        Err(FlowError::NotFound)
    );
    assert_eq!(
        get_transaction_flows_for_address("addrX", &ids(&["T2"]), &cache_of(&[t2()])),
        Err(FlowError::NotFound)
    );
    assert_eq!(
        get_transaction_flows_for_address("nobody", &ids(&["T1", "T2"]), &cache),
        Ok(TransactionFlowsForAddress(vec![entry(&t1(), vec![]), entry(&t2(), vec![])]))
    );
}

#[test]
fn finished_builder_repeats_its_outcome() {
    let (mut builder, action) = AddressFlowBuilder::start("addrX", Ok(ids(&["T1"])));
    assert_eq!(builder.repeat(), action);
    let done = builder.step(Ok(t1()));
    let expected = Action::Finished(Ok(TransactionFlowsForAddress(vec![entry(
        &t1(),
        vec![TransactionFlow::Received(0, t1())],
    )])));
    assert_eq!(done, expected);
    assert_eq!(builder.repeat(), expected);
    assert_eq!(builder.step(Ok(t2())), expected);
    assert_eq!(builder.step(Err(FlowError::RpcFailure)), expected);
}

#[test]
fn cache_keeps_the_first_transaction_under_an_id() {
    let mut cache = TransactionCache::new();
    assert!(!cache.contains(&"T1".to_string()));
    assert_eq!(cache.get(&"T1".to_string()), None);
    assert!(cache.insert(t1()));
    assert!(cache.contains(&"T1".to_string()));
    assert_eq!(cache.get(&"T1".to_string()), Some(&t1()));
    let other = transaction("T1", 77, vec![], vec![]);
    assert!(!cache.insert(other));
    assert_eq!(cache.get(&"T1".to_string()), Some(&t1()));
    assert!(cache.insert(t2()));
    assert_eq!(cache.get(&"T2".to_string()), Some(&t2()));
    assert_eq!(cache.get(&"T1".to_string()), Some(&t1()));
}

#[test]
fn merging_two_addresses_joins_flows_in_order() {
    let t = transaction(
        "T",
        1000,
        vec![Vin::Coinbase],
        vec![pays_to(0, "addrA"), pays_to(1, "addrB")],
    );
    let u = transaction("U", 1500, vec![spends("T", 1)], vec![pays_to(0, "addrA")]);
    let ledger = vec![t.clone(), u.clone()];
    let (a, _) = run("addrA", &["T", "U"], &ledger);
    let (b, _) = run("addrB", &["T", "U"], &ledger);
    let table = organize_transaction_flows_for_mulitple_addresses_by_txid_and_blocktime(vec![
        a.unwrap(),
        b.unwrap(),
    ])
    .unwrap();
    assert_eq!(table.groups().len(), 2);
    assert_eq!(
        table.get(&"T".to_string(), 1000),
        Some(&vec![TransactionFlow::Received(0, t.clone()), TransactionFlow::Received(1, t.clone())])
    );
    assert_eq!(
        table.get(&"U".to_string(), 1500),
        Some(&vec![
            TransactionFlow::Received(0, u.clone()),
            TransactionFlow::Sent(1, t.clone(), u.clone()),
        ])
    );
    assert_eq!(table.groups()[0].txid, "T");
    assert_eq!(table.groups()[0].blocktime, 1000);
    assert_eq!(table.groups()[1].txid, "U");
}

#[test]
fn merging_does_not_drop_repeated_flows() {
    let t = t1();
    let history = TransactionFlowsForAddress(vec![entry(&t, vec![TransactionFlow::Received(0, t.clone())])]);
    let table = organize_transaction_flows_for_mulitple_addresses_by_txid_and_blocktime(vec![
        history.clone(),
        history.clone(),
    ])
    .unwrap();
    assert_eq!(
        table.get(&"T1".to_string(), 1000),
        Some(&vec![TransactionFlow::Received(0, t.clone()), TransactionFlow::Received(0, t.clone())])
    );
}

#[test]
fn entry_without_flows_still_gets_a_key() {
    let history = TransactionFlowsForAddress(vec![entry(&t1(), vec![])]);
    let table =
        organize_transaction_flows_for_mulitple_addresses_by_txid_and_blocktime(vec![history])
            .unwrap();
    assert_eq!(table.get(&"T1".to_string(), 1000), Some(&vec![]));
}

#[test]
fn merging_nothing_gives_an_empty_table() {
    let table =
        organize_transaction_flows_for_mulitple_addresses_by_txid_and_blocktime(vec![]).unwrap();
    assert!(table.groups().is_empty());
    let table = organize_transaction_flows_for_mulitple_addresses_by_txid_and_blocktime(vec![
        TransactionFlowsForAddress(vec![]),
    ])
    .unwrap();
    assert!(table.groups().is_empty());
}

#[test]
fn two_block_times_for_one_transaction_are_refused() {
    let early = transaction("T", 1000, vec![], vec![pays_to(0, "addrA")]);
    let late = transaction("T", 1001, vec![], vec![pays_to(0, "addrA")]);
    let a = TransactionFlowsForAddress(vec![entry(&early, vec![])]);
    let b = TransactionFlowsForAddress(vec![entry(&late, vec![])]);
    assert_eq!(
        organize_transaction_flows_for_mulitple_addresses_by_txid_and_blocktime(vec![a, b]),
        Err(FlowError::InconsistentBlocktime)
    );
    let both = TransactionFlowsForAddress(vec![entry(&late, vec![]), entry(&early, vec![])]);
    assert_eq!(
        organize_transaction_flows_for_mulitple_addresses_by_txid_and_blocktime(vec![both]),
        Err(FlowError::InconsistentBlocktime)
    );
}

#[test]
fn table_add_joins_or_refuses() {
    let mut table = GroupedFlowTable::new();
    let t = t1();
    assert_eq!(table.add(&t, &vec![TransactionFlow::Received(0, t.clone())]), Ok(()));
    assert_eq!(table.add(&t, &vec![TransactionFlow::Received(5, t.clone())]), Ok(()));
    let late = transaction("T1", 1001, vec![], vec![]);
    assert_eq!(table.add(&late, &vec![]), Err(FlowError::InconsistentBlocktime));
    assert_eq!(table.groups().len(), 1);
    assert_eq!(
        table.get(&"T1".to_string(), 1000),
        Some(&vec![TransactionFlow::Received(0, t.clone()), TransactionFlow::Received(5, t.clone())])
    );
    assert_eq!(table.get(&"T1".to_string(), 1001), None);
}

#[test]
fn copies_are_equal_to_what_was_copied() {
    let flow = TransactionFlow::Sent(0, t1(), t2());
    assert_eq!(flow.clone(), flow);
    let e = entry(&t2(), vec![flow.clone(), TransactionFlow::Received(3, t2())]);
    assert_eq!(e.clone(), e);
    let history = TransactionFlowsForAddress(vec![e.clone(), entry(&t1(), vec![])]);
    assert_eq!(history.clone(), history);
    assert_eq!(t2().clone(), t2());
}

#[test]
fn builder_shows_its_stage_and_what_it_holds() {
    let (mut builder, action) = AddressFlowBuilder::start("addrX", Ok(ids(&["T2"])));
    assert_eq!(action, Action::Fetch("T2".to_string()));
    assert_eq!(builder.stage(), &Stage::Fetching("T2".to_string()));
    assert!(!builder.cache().contains(&"T2".to_string()));
    assert_eq!(builder.step(Ok(t2())), Action::Fetch("T1".to_string()));
    assert_eq!(builder.stage(), &Stage::Fetching("T1".to_string()));
    assert_eq!(builder.cache().get(&"T2".to_string()), Some(&t2()));
    assert!(matches!(builder.step(Ok(t1())), Action::Finished(Ok(_))));
    assert_eq!(builder.stage(), &Stage::Done);
    assert_eq!(builder.cache().get(&"T1".to_string()), Some(&t1()));

    let (mut builder, _) = AddressFlowBuilder::start("addrX", Ok(ids(&["T2"])));
    builder.step(Err(FlowError::NotFound));
    assert_eq!(builder.stage(), &Stage::Failed(FlowError::NotFound));
}

#[test]
fn received_flows_alone() {
    let tx = transaction("A", 10, vec![spends("F", 0)], vec![pays_to(4, "mine"), pays_to(9, "other")]);
    assert_eq!(
        received_flows_of(&tx, &"mine".to_string()),
        vec![TransactionFlow::Received(4, tx.clone())]
    );
    assert_eq!(received_flows_of(&tx, &"nobody".to_string()), vec![]);
}

#[test]
fn one_input_alone() {
    let funding = transaction("F", 5, vec![], vec![pays_to(0, "mine"), pays_to(1, "other")]);
    let tx = transaction("S", 9, vec![], vec![]);
    let cache = cache_of(&[funding.clone()]);
    let mine = "mine".to_string();
    assert_eq!(spent_flow_of(&cache, &tx, &mine, &Vin::Coinbase), Ok(None));
    assert_eq!(
        spent_flow_of(&cache, &tx, &mine, &spends("F", 0)),
        Ok(Some(TransactionFlow::Sent(0, funding.clone(), tx.clone())))
    );
    assert_eq!(spent_flow_of(&cache, &tx, &mine, &spends("F", 1)), Ok(None));
    assert_eq!(spent_flow_of(&cache, &tx, &mine, &spends("F", 2)), Err(FlowError::MalformedResponse));
    assert_eq!(spent_flow_of(&cache, &tx, &mine, &spends("G", 0)), Err(FlowError::NotFound));
}
