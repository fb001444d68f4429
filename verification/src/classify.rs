//! The flows that a transaction contributes to an address, and the flow
//! history of an address, worked out against the transactions known so far.

use crate::cache::{Ledger, TransactionCache};
use crate::model::{
    entries_view, flows_view, EntryView, FlowError, FlowView, Transaction, TransactionFlow,
    TransactionFlowsForAddress, TransactionFlowsWithTransaction, TransactionView, Vin, VinView,
};
use vstd::prelude::*;

verus! {

/// The `Received` flows that the first `n` outputs of `tx` contribute to
/// `address`: one for each output that pays to it, in output order.
pub open spec fn received_flows(tx: TransactionView, address: Seq<char>, n: int) -> Seq<FlowView>
    decreases n,
{
    if n <= 0 {
        Seq::empty()
    } else {
        let earlier = received_flows(tx, address, n - 1);
        let out = tx.vout[n - 1];
        if out.pays(address) {
            earlier.push(FlowView::Received(out.n, tx))
        } else {
            earlier
        }
    }
}

/// What one input of `tx` contributes: nothing for a coinbase input; for a
/// spending input, a `Sent` flow if the output it spends paid to `address`.
/// The spent output is looked up in `ledger`; the lookup fails with
/// `NotFound` where the ledger lacks the transaction, and with
/// `MalformedResponse` where the transaction has no output at that index.
pub open spec fn spent_flow(
    ledger: Ledger,
    tx: TransactionView,
    address: Seq<char>,
    input: VinView,
) -> Result<Option<FlowView>, FlowError> {
    match input {
        VinView::Coinbase => Ok(None),
        VinView::Spending { txid, vout } => {
            if !ledger.dom().contains(txid) {
                Err(FlowError::NotFound)
            } else if vout >= ledger[txid].vout.len() {
                Err(FlowError::MalformedResponse)
            } else {
                let out = ledger[txid].vout[vout as int];
                if out.pays(address) {
                    Ok(Some(FlowView::Sent(out.n, ledger[txid], tx)))
                } else {
                    Ok(None)
                }
            }
        },
    }
}

/// The `Sent` flows that the first `n` inputs of `tx` contribute to
/// `address`, in input order, or the first failure met among those inputs.
pub open spec fn sent_flows(ledger: Ledger, tx: TransactionView, address: Seq<char>, n: int) -> Result<
    Seq<FlowView>,
    FlowError,
>
    decreases n,
{
    if n <= 0 {
        Ok(Seq::empty())
    } else {
        match sent_flows(ledger, tx, address, n - 1) {
            Err(e) => Err(e),
            Ok(earlier) => match spent_flow(ledger, tx, address, tx.vin[n - 1]) {
                Err(e) => Err(e),
                Ok(None) => Ok(earlier),
                Ok(Some(flow)) => Ok(earlier.push(flow)),
            },
        }
    }
}

/// The flows that `tx` contributes to `address`: those of its outputs, then
/// those of its inputs.
pub open spec fn classify(ledger: Ledger, tx: TransactionView, address: Seq<char>) -> Result<
    Seq<FlowView>,
    FlowError,
> {
    match sent_flows(ledger, tx, address, tx.vin.len() as int) {
        Err(e) => Err(e),
        Ok(sent) => Ok(received_flows(tx, address, tx.vout.len() as int) + sent),
    }
}

/// The history entries for the first `n` listed transaction ids, or the
/// first failure met: `NotFound` where the ledger lacks a listed
/// transaction, else what classifying it gives.
pub open spec fn history_entries(
    ledger: Ledger,
    history: Seq<Seq<char>>,
    address: Seq<char>,
    n: int,
) -> Result<Seq<EntryView>, FlowError>
    decreases n,
{
    if n <= 0 {
        Ok(Seq::empty())
    } else {
        match history_entries(ledger, history, address, n - 1) {
            Err(e) => Err(e),
            Ok(earlier) => {
                let txid = history[n - 1];
                if !ledger.dom().contains(txid) {
                    Err(FlowError::NotFound)
                } else {
                    match classify(ledger, ledger[txid], address) {
                        Err(e) => Err(e),
                        Ok(flows) => Ok(earlier.push((ledger[txid], flows))),
                    }
                }
            },
        }
    }
}

/// The flow history of `address`, whose transactions are listed in
/// `history`, against `ledger`.
pub open spec fn flow_history(ledger: Ledger, history: Seq<Seq<char>>, address: Seq<char>) -> Result<
    Seq<EntryView>,
    FlowError,
> {
    history_entries(ledger, history, address, history.len() as int)
}

/// The views of a list of transaction ids.
pub open spec fn txids_view(txids: Seq<String>) -> Seq<Seq<char>> {
    txids.map_values(|t: String| t@)
}

/// A failure among the first inputs is the failure of the whole.
pub proof fn lemma_sent_failure_stays(
    ledger: Ledger,
    tx: TransactionView,
    address: Seq<char>,
    n: int,
    m: int,
)
    requires
        n <= m,
        sent_flows(ledger, tx, address, n) is Err,
    ensures
        sent_flows(ledger, tx, address, m) == sent_flows(ledger, tx, address, n),
    decreases m - n,
{
    if n < m {
        lemma_sent_failure_stays(ledger, tx, address, n, m - 1);
    }
}

/// A failure among the first entries is the failure of the whole.
pub proof fn lemma_history_failure_stays(
    ledger: Ledger,
    history: Seq<Seq<char>>,
    address: Seq<char>,
    n: int,
    m: int,
)
    requires
        n <= m,
        history_entries(ledger, history, address, n) is Err,
    ensures
        history_entries(ledger, history, address, m) == history_entries(
            ledger,
            history,
            address,
            n,
        ),
    decreases m - n,
{
    if n < m {
        lemma_history_failure_stays(ledger, history, address, n, m - 1);
    }
}

/// The `Received` flows of a transaction for an address.
pub fn received_flows_of(tx: &Transaction, address: &String) -> (flows: Vec<TransactionFlow>)
    ensures
        flows_view(flows@) == received_flows(tx@, address@, tx@.vout.len() as int),
{
    let mut flows: Vec<TransactionFlow> = Vec::new();
    let mut i: usize = 0;
    assert(flows_view(flows@) =~= received_flows(tx@, address@, 0));
    while i < tx.vout.len()
        invariant
            i <= tx.vout.len(),
            tx@.vout.len() == tx.vout.len(),
            flows_view(flows@) == received_flows(tx@, address@, i as int),
        decreases tx.vout.len() - i,
    {
        let out = &tx.vout[i];
        assert(tx@.vout[i as int] == out@);
        if out.pays(address) {
            let ghost before = flows@;
            let flow = TransactionFlow::Received(out.n, tx.clone());
            flows.push(flow);
            assert(flows_view(flows@) =~= flows_view(before).push(flow@));
        }
        i += 1;
    }
    flows
}

/// What one input of `tx` contributes to `address`, the spent output being
/// looked up among the transactions in `cache`.
pub fn spent_flow_of(
    cache: &TransactionCache,
    tx: &Transaction,
    address: &String,
    input: &Vin,
) -> (res: Result<Option<TransactionFlow>, FlowError>)
    ensures
        match res {
            Ok(Some(flow)) => spent_flow(cache@, tx@, address@, input@) == Ok::<
                Option<FlowView>,
                FlowError,
            >(Some(flow@)),
            Ok(None) => spent_flow(cache@, tx@, address@, input@) == Ok::<
                Option<FlowView>,
                FlowError,
            >(None),
            Err(e) => spent_flow(cache@, tx@, address@, input@) == Err::<
                Option<FlowView>,
                FlowError,
            >(e),
        },
{
    match input {
        Vin::Coinbase => Ok(None),
        Vin::Spending { txid, vout } => {
            match cache.get(txid) {
                None => Err(FlowError::NotFound),
                Some(prior) => {
                    assert(prior@.vout.len() == prior.vout.len());
                    if *vout >= prior.vout.len() as u64 {
                        Err(FlowError::MalformedResponse)
                    } else {
                        let out = &prior.vout[*vout as usize];
                        assert(prior@.vout[*vout as int] == out@);
                        if out.pays(address) {
                            Ok(Some(TransactionFlow::Sent(out.n, prior.clone(), tx.clone())))
                        } else {
                            Ok(None)
                        }
                    }
                },
            }
        },
    }
}

/// The flows that `tx` contributes to `address`: first a `Received` flow for
/// each output that pays to it, then a `Sent` flow for each input that
/// spends an output which paid to it, each group in the transaction's own
/// order. Spent outputs are looked up in `cache`.
pub fn classify_transaction(cache: &TransactionCache, tx: &Transaction, address: &String) -> (res:
    Result<Vec<TransactionFlow>, FlowError>)
    ensures
        match res {
            Ok(flows) => classify(cache@, tx@, address@) == Ok::<Seq<FlowView>, FlowError>(
                flows_view(flows@),
            ),
            Err(e) => classify(cache@, tx@, address@) == Err::<Seq<FlowView>, FlowError>(e),
        },
{
    let mut flows = received_flows_of(tx, address);
    let ghost received = flows_view(flows@);
    let ghost sent: Seq<FlowView> = Seq::empty();
    let mut j: usize = 0;
    assert(flows_view(flows@) =~= received + sent);
    while j < tx.vin.len()
        invariant
            j <= tx.vin.len(),
            tx@.vin.len() == tx.vin.len(),
            received == received_flows(tx@, address@, tx@.vout.len() as int),
            sent_flows(cache@, tx@, address@, j as int) == Ok::<Seq<FlowView>, FlowError>(sent),
            flows_view(flows@) == received + sent,
        decreases tx.vin.len() - j,
    {
        let input = &tx.vin[j];
        assert(tx@.vin[j as int] == input@);
        match spent_flow_of(cache, tx, address, input) {
            Err(e) => {
                proof {
                    lemma_sent_failure_stays(
                        cache@,
                        tx@,
                        address@,
                        j + 1,
                        tx@.vin.len() as int,
                    );
                }
                return Err(e);
            },
            Ok(None) => {},
            Ok(Some(flow)) => {
                let ghost before = flows@;
                proof {
                    sent = sent.push(flow@);
                }
                flows.push(flow);
                assert(flows_view(flows@) =~= flows_view(before).push(flow@));
                assert(flows_view(flows@) =~= received + sent);
            },
        }
        j += 1;
    }
    Ok(flows)
}

/// The flow history of an address.
///
/// `history` lists the ids of the address's transactions and `cache` holds
/// the transactions fetched for it. The result has one entry for each listed
/// id, in the listed order, holding the transaction and the flows it
/// contributes. Nothing is returned unless every entry could be worked out:
/// the first transaction that `cache` lacks gives `NotFound`, and the first
/// input that refers to an output which its transaction does not have gives
/// `MalformedResponse`.
pub fn get_transaction_flows_for_address(
    address: &str,
    history: &Vec<String>,
    cache: &TransactionCache,
) -> (res: Result<TransactionFlowsForAddress, FlowError>)
    ensures
        match res {
            Ok(flows) => flow_history(cache@, txids_view(history@), address@) == Ok::<
                Seq<EntryView>,
                FlowError,
            >(flows@),
            Err(e) => flow_history(cache@, txids_view(history@), address@) == Err::<
                Seq<EntryView>,
                FlowError,
            >(e),
        },
{
    let owned = address.to_owned();
    let ghost txids = txids_view(history@);
    let mut entries: Vec<TransactionFlowsWithTransaction> = Vec::new();
    let mut i: usize = 0;
    assert(entries_view(entries@) =~= Seq::<EntryView>::empty());
    while i < history.len()
        invariant
            i <= history.len(),
            txids == txids_view(history@),
            owned@ == address@,
            history_entries(cache@, txids, address@, i as int) == Ok::<Seq<EntryView>, FlowError>(
                entries_view(entries@),
            ),
        decreases history.len() - i,
    {
        assert(txids[i as int] == history@[i as int]@);
        let tx = match cache.get(&history[i]) {
            Some(tx) => tx,
            None => {
                proof {
                    lemma_history_failure_stays(cache@, txids, address@, i + 1, txids.len() as int);
                }
                return Err(FlowError::NotFound);
            },
        };
        let flows = match classify_transaction(cache, tx, &owned) {
            Ok(flows) => flows,
            Err(e) => {
                proof {
                    lemma_history_failure_stays(cache@, txids, address@, i + 1, txids.len() as int);
                }
                return Err(e);
            },
        };
        let ghost before = entries@;
        let entry = TransactionFlowsWithTransaction((tx.clone(), flows));
        entries.push(entry);
        assert(entries_view(entries@) =~= entries_view(before).push(entry@));
        i += 1;
    }
    Ok(TransactionFlowsForAddress(entries))
}

/// The places of the outputs among the first `n` of `tx` that pay to
/// `address`, in rising order.
pub open spec fn paying_outputs(tx: TransactionView, address: Seq<char>, n: int) -> Seq<int>
    decreases n,
{
    if n <= 0 {
        Seq::empty()
    } else {
        let earlier = paying_outputs(tx, address, n - 1);
        if tx.vout[n - 1].pays(address) {
            earlier.push(n - 1)
        } else {
            earlier
        }
    }
}

/// Whether `input` spends an output that `ledger` knows and that paid to
/// `address`.
pub open spec fn spends_from(ledger: Ledger, address: Seq<char>, input: VinView) -> bool {
    match input {
        VinView::Coinbase => false,
        VinView::Spending { txid, vout } => ledger.dom().contains(txid) && vout
            < ledger[txid].vout.len() && ledger[txid].vout[vout as int].pays(address),
    }
}

/// The `Sent` flow for an input of `tx` that spends from `address`.
pub open spec fn sent_by(ledger: Ledger, tx: TransactionView, input: VinView) -> FlowView {
    match input {
        VinView::Coinbase => arbitrary(),
        VinView::Spending { txid, vout } => FlowView::Sent(
            ledger[txid].vout[vout as int].n,
            ledger[txid],
            tx,
        ),
    }
}

/// The places of the inputs among the first `n` of `tx` that spend from
/// `address`, in rising order.
pub open spec fn spending_inputs(ledger: Ledger, tx: TransactionView, address: Seq<char>, n: int) -> Seq<
    int,
>
    decreases n,
{
    if n <= 0 {
        Seq::empty()
    } else {
        let earlier = spending_inputs(ledger, tx, address, n - 1);
        if spends_from(ledger, address, tx.vin[n - 1]) {
            earlier.push(n - 1)
        } else {
            earlier
        }
    }
}

/// The `Received` flows of the first `n` outputs stand one for one, and in
/// the same order, for the outputs among them that pay to the address.
proof fn lemma_received_flows_by_output(tx: TransactionView, address: Seq<char>, n: int)
    requires
        0 <= n <= tx.vout.len(),
    ensures
        received_flows(tx, address, n).len() == paying_outputs(tx, address, n).len(),
        forall|k: int|
            0 <= k < paying_outputs(tx, address, n).len() ==> {
                let i = #[trigger] paying_outputs(tx, address, n)[k];
                &&& 0 <= i < n
                &&& tx.vout[i].pays(address)
                &&& received_flows(tx, address, n)[k] == FlowView::Received(tx.vout[i].n, tx)
            },
        forall|k: int, l: int|
            0 <= k < l < paying_outputs(tx, address, n).len() ==> (#[trigger] paying_outputs(
                tx,
                address,
                n,
            )[k]) < (#[trigger] paying_outputs(tx, address, n)[l]),
        forall|i: int|
            0 <= i < n && (#[trigger] tx.vout[i]).pays(address) ==> paying_outputs(
                tx,
                address,
                n,
            ).contains(i),
    decreases n,
{
    if n > 0 {
        lemma_received_flows_by_output(tx, address, n - 1);
        let earlier = paying_outputs(tx, address, n - 1);
        let places = paying_outputs(tx, address, n);
        assert forall|i: int| 0 <= i < n && (#[trigger] tx.vout[i]).pays(address) implies places.contains(
            i,
        ) by {
            if i == n - 1 {
                assert(places[places.len() - 1] == i);
            } else {
                assert(earlier.contains(i));
                let k = choose|k: int| 0 <= k < earlier.len() && earlier[k] == i;
                assert(places[k] == i);
            }
        }
    }
}

/// The `Sent` flows of the first `n` inputs stand one for one, and in the
/// same order, for the inputs among them that spend from the address.
proof fn lemma_sent_flows_by_input(
    ledger: Ledger,
    tx: TransactionView,
    address: Seq<char>,
    n: int,
)
    requires
        0 <= n <= tx.vin.len(),
        sent_flows(ledger, tx, address, n) is Ok,
    ensures
        sent_flows(ledger, tx, address, n)->Ok_0.len() == spending_inputs(
            ledger,
            tx,
            address,
            n,
        ).len(),
        forall|k: int|
            0 <= k < spending_inputs(ledger, tx, address, n).len() ==> {
                let j = #[trigger] spending_inputs(ledger, tx, address, n)[k];
                &&& 0 <= j < n
                &&& spends_from(ledger, address, tx.vin[j])
                &&& sent_flows(ledger, tx, address, n)->Ok_0[k] == sent_by(ledger, tx, tx.vin[j])
            },
        forall|k: int, l: int|
            0 <= k < l < spending_inputs(ledger, tx, address, n).len() ==> (
            #[trigger] spending_inputs(ledger, tx, address, n)[k]) < (#[trigger] spending_inputs(
                ledger,
                tx,
                address,
                n,
            )[l]),
        forall|j: int|
            0 <= j < n && spends_from(ledger, address, #[trigger] tx.vin[j])
                ==> spending_inputs(ledger, tx, address, n).contains(j),
    decreases n,
{
    if n > 0 {
        lemma_sent_flows_by_input(ledger, tx, address, n - 1);
        let earlier = spending_inputs(ledger, tx, address, n - 1);
        let places = spending_inputs(ledger, tx, address, n);
        assert forall|j: int|
            0 <= j < n && spends_from(
                ledger,
                address,
                #[trigger] tx.vin[j],
            ) implies places.contains(j) by {
            if j == n - 1 {
                assert(places[places.len() - 1] == j);
            } else {
                assert(earlier.contains(j));
                let k = choose|k: int| 0 <= k < earlier.len() && earlier[k] == j;
                assert(places[k] == j);
            }
        }
    }
}

/// Every output of a transaction that pays to the address has its
/// `Received` flow among the transaction's flows, with the output's own
/// index, and every `Received` flow among them is that of such an output.
pub proof fn law_received_flows(ledger: Ledger, tx: TransactionView, address: Seq<char>)
    requires
        classify(ledger, tx, address) is Ok,
    ensures
        forall|i: int|
            0 <= i < tx.vout.len() && (#[trigger] tx.vout[i]).pays(address) ==> classify(
                ledger,
                tx,
                address,
            )->Ok_0.contains(FlowView::Received(tx.vout[i].n, tx)),
        forall|k: int|
            0 <= k < classify(ledger, tx, address)->Ok_0.len() && (#[trigger] classify(
                ledger,
                tx,
                address,
            )->Ok_0[k]) is Received ==> exists|i: int|
                0 <= i < tx.vout.len() && (#[trigger] tx.vout[i]).pays(address) && classify(
                    ledger,
                    tx,
                    address,
                )->Ok_0[k] == FlowView::Received(tx.vout[i].n, tx),
{
    let flows = classify(ledger, tx, address)->Ok_0;
    let received = received_flows(tx, address, tx.vout.len() as int);
    let sent = sent_flows(ledger, tx, address, tx.vin.len() as int)->Ok_0;
    let outputs = paying_outputs(tx, address, tx.vout.len() as int);
    let inputs = spending_inputs(ledger, tx, address, tx.vin.len() as int);
    lemma_received_flows_by_output(tx, address, tx.vout.len() as int);
    lemma_sent_flows_by_input(ledger, tx, address, tx.vin.len() as int);
    assert(flows == received + sent);
    assert forall|i: int| 0 <= i < tx.vout.len() && (#[trigger] tx.vout[i]).pays(address) implies flows.contains(
        FlowView::Received(tx.vout[i].n, tx),
    ) by {
        assert(outputs.contains(i));
        let k = choose|k: int| 0 <= k < outputs.len() && outputs[k] == i;
        assert(flows[k] == received[k]);
    }
    assert forall|k: int| 0 <= k < flows.len() && (#[trigger] flows[k]) is Received implies exists|
        i: int,
    |
        0 <= i < tx.vout.len() && (#[trigger] tx.vout[i]).pays(address) && flows[k]
            == FlowView::Received(tx.vout[i].n, tx) by {
        if k < received.len() {
            let i = outputs[k];
            assert(flows[k] == received[k]);
            assert(tx.vout[i].pays(address));
        } else {
            let j = inputs[k - received.len()];
            assert(flows[k] == sent[k - received.len()]);
            assert(spends_from(ledger, address, tx.vin[j]));
        }
    }
}

/// Every input of a transaction that spends an output which paid to the
/// address has its `Sent` flow among the transaction's flows, with the spent
/// output's index, the transaction that held it and the spending
/// transaction; and every `Sent` flow among them is that of such an input,
/// so that coinbase inputs and inputs spending other outputs give none.
pub proof fn law_sent_flows(ledger: Ledger, tx: TransactionView, address: Seq<char>)
    requires
        classify(ledger, tx, address) is Ok,
    ensures
        forall|j: int|
            0 <= j < tx.vin.len() && spends_from(ledger, address, #[trigger] tx.vin[j])
                ==> classify(ledger, tx, address)->Ok_0.contains(sent_by(ledger, tx, tx.vin[j])),
        forall|k: int|
            0 <= k < classify(ledger, tx, address)->Ok_0.len() && (#[trigger] classify(
                ledger,
                tx,
                address,
            )->Ok_0[k]) is Sent ==> exists|j: int|
                0 <= j < tx.vin.len() && spends_from(ledger, address, #[trigger] tx.vin[j])
                    && classify(ledger, tx, address)->Ok_0[k] == sent_by(ledger, tx, tx.vin[j]),
{
    let flows = classify(ledger, tx, address)->Ok_0;
    let received = received_flows(tx, address, tx.vout.len() as int);
    let sent = sent_flows(ledger, tx, address, tx.vin.len() as int)->Ok_0;
    let outputs = paying_outputs(tx, address, tx.vout.len() as int);
    let inputs = spending_inputs(ledger, tx, address, tx.vin.len() as int);
    lemma_received_flows_by_output(tx, address, tx.vout.len() as int);
    lemma_sent_flows_by_input(ledger, tx, address, tx.vin.len() as int);
    assert(flows == received + sent);
    assert forall|j: int|
        0 <= j < tx.vin.len() && spends_from(
            ledger,
            address,
            #[trigger] tx.vin[j],
        ) implies flows.contains(sent_by(ledger, tx, tx.vin[j])) by {
        assert(inputs.contains(j));
        let k = choose|k: int| 0 <= k < inputs.len() && inputs[k] == j;
        assert(flows[received.len() + k] == sent[k]);
    }
    assert forall|k: int| 0 <= k < flows.len() && (#[trigger] flows[k]) is Sent implies exists|
        j: int,
    |
        0 <= j < tx.vin.len() && spends_from(ledger, address, #[trigger] tx.vin[j]) && flows[k]
            == sent_by(ledger, tx, tx.vin[j]) by {
        if k < received.len() {
            let i = outputs[k];
            assert(flows[k] == received[k]);
            assert(tx.vout[i].pays(address));
        } else {
            let j = inputs[k - received.len()];
            assert(flows[k] == sent[k - received.len()]);
            assert(spends_from(ledger, address, tx.vin[j]));
        }
    }
}

/// The flows of a transaction are its `Received` flows followed by its
/// `Sent` flows; the `Received` flows follow the order of the outputs they
/// stand for, and the `Sent` flows the order of the inputs.
pub proof fn law_flow_order(ledger: Ledger, tx: TransactionView, address: Seq<char>)
    requires
        classify(ledger, tx, address) is Ok,
    ensures
        ({
            let flows = classify(ledger, tx, address)->Ok_0;
            let outputs = paying_outputs(tx, address, tx.vout.len() as int);
            let inputs = spending_inputs(ledger, tx, address, tx.vin.len() as int);
            &&& flows.len() == outputs.len() + inputs.len()
            &&& forall|k: int|
                0 <= k < outputs.len() ==> #[trigger] flows[k] == FlowView::Received(
                    tx.vout[outputs[k]].n,
                    tx,
                )
            &&& forall|k: int|
                0 <= k < inputs.len() ==> #[trigger] flows[outputs.len() + k] == sent_by(
                    ledger,
                    tx,
                    tx.vin[inputs[k]],
                ) && flows[outputs.len() + k] is Sent
            &&& forall|k: int, l: int|
                0 <= k < l < outputs.len() ==> (#[trigger] outputs[k]) < (#[trigger] outputs[l])
            &&& forall|k: int, l: int|
                0 <= k < l < inputs.len() ==> (#[trigger] inputs[k]) < (#[trigger] inputs[l])
        }),
{
    let flows = classify(ledger, tx, address)->Ok_0;
    let received = received_flows(tx, address, tx.vout.len() as int);
    let sent = sent_flows(ledger, tx, address, tx.vin.len() as int)->Ok_0;
    let outputs = paying_outputs(tx, address, tx.vout.len() as int);
    let inputs = spending_inputs(ledger, tx, address, tx.vin.len() as int);
    lemma_received_flows_by_output(tx, address, tx.vout.len() as int);
    lemma_sent_flows_by_input(ledger, tx, address, tx.vin.len() as int);
    assert(flows == received + sent);
    assert forall|k: int| 0 <= k < outputs.len() implies #[trigger] flows[k]
        == FlowView::Received(tx.vout[outputs[k]].n, tx) by {
        assert(flows[k] == received[k]);
    }
    assert forall|k: int| 0 <= k < inputs.len() implies #[trigger] flows[outputs.len() + k]
        == sent_by(ledger, tx, tx.vin[inputs[k]]) && flows[outputs.len() + k] is Sent by {
        assert(flows[outputs.len() + k] == sent[k]);
        assert(spends_from(ledger, address, tx.vin[inputs[k]]));
    }
}

/// Knowing more of the ledger does not change the flows of a transaction
/// that could be worked out with less.
proof fn lemma_classify_with_more(
    known: Ledger,
    ledger: Ledger,
    tx: TransactionView,
    address: Seq<char>,
    n: int,
)
    requires
        known.submap_of(ledger),
        0 <= n <= tx.vin.len(),
        sent_flows(known, tx, address, n) is Ok,
    ensures
        sent_flows(ledger, tx, address, n) == sent_flows(known, tx, address, n),
        n == tx.vin.len() ==> classify(ledger, tx, address) == classify(known, tx, address),
    decreases n,
{
    if n > 0 {
        lemma_classify_with_more(known, ledger, tx, address, n - 1);
        match tx.vin[n - 1] {
            VinView::Coinbase => {},
            VinView::Spending { txid, vout } => {
                assert(known.dom().contains(txid));
                assert(ledger.dom().contains(txid) && ledger[txid] == known[txid]);
            },
        }
    }
}

/// Two runs against one ledger give one history: whatever part of the
/// ledger a run came to know, a history that could be worked out from that
/// part is the history that the whole ledger gives.
pub proof fn law_history_is_determined_by_ledger(
    known: Ledger,
    ledger: Ledger,
    history: Seq<Seq<char>>,
    address: Seq<char>,
)
    requires
        known.submap_of(ledger),
        flow_history(known, history, address) is Ok,
    ensures
        flow_history(ledger, history, address) == flow_history(known, history, address),
{
    lemma_history_with_more(known, ledger, history, address, history.len() as int);
}

/// Knowing more of the ledger does not change the entries that could be
/// worked out with less.
proof fn lemma_history_with_more(
    known: Ledger,
    ledger: Ledger,
    history: Seq<Seq<char>>,
    address: Seq<char>,
    n: int,
)
    requires
        known.submap_of(ledger),
        history_entries(known, history, address, n) is Ok,
    ensures
        history_entries(ledger, history, address, n) == history_entries(known, history, address, n),
    decreases n,
{
    if n > 0 {
        lemma_history_with_more(known, ledger, history, address, n - 1);
        let txid = history[n - 1];
        assert(known.dom().contains(txid));
        assert(ledger.dom().contains(txid) && ledger[txid] == known[txid]);
        lemma_classify_with_more(known, ledger, known[txid], address, known[txid].vin.len() as int);
    }
}

/// Whether `ledger` knows the output that `input` spends. A coinbase input
/// spends none, so there is nothing to know for it.
pub open spec fn resolves(ledger: Ledger, input: VinView) -> bool {
    match input {
        VinView::Coinbase => true,
        VinView::Spending { txid, vout } => ledger.dom().contains(txid) && vout
            < ledger[txid].vout.len(),
    }
}

/// Whether `ledger` knows the output that each input of `tx` spends.
pub open spec fn resolvable(ledger: Ledger, tx: TransactionView) -> bool {
    forall|j: int| 0 <= j < tx.vin.len() ==> resolves(ledger, #[trigger] tx.vin[j])
}

/// The `Sent` flows of the first `n` inputs can be worked out exactly when
/// the ledger knows the output that each of those inputs spends.
proof fn lemma_sent_flows_exist(ledger: Ledger, tx: TransactionView, address: Seq<char>, n: int)
    requires
        0 <= n <= tx.vin.len(),
    ensures
        sent_flows(ledger, tx, address, n) is Ok <==> forall|j: int|
            0 <= j < n ==> resolves(ledger, #[trigger] tx.vin[j]),
    decreases n,
{
    if n > 0 {
        lemma_sent_flows_exist(ledger, tx, address, n - 1);
        if sent_flows(ledger, tx, address, n) is Ok {
            assert(resolves(ledger, tx.vin[n - 1]));
        }
    }
}

/// The flows of a transaction can be worked out exactly when the ledger
/// knows the output that each of its inputs spends.
pub proof fn law_flows_exist_when_inputs_resolve(
    ledger: Ledger,
    tx: TransactionView,
    address: Seq<char>,
)
    ensures
        classify(ledger, tx, address) is Ok <==> resolvable(ledger, tx),
{
    lemma_sent_flows_exist(ledger, tx, address, tx.vin.len() as int);
}

/// The first `n` entries can be worked out exactly when the ledger knows
/// the first `n` listed transactions and the outputs that their inputs
/// spend; they are then, in the listed order, those transactions with their
/// flows.
proof fn lemma_history_entries_exist(
    ledger: Ledger,
    history: Seq<Seq<char>>,
    address: Seq<char>,
    n: int,
)
    requires
        0 <= n <= history.len(),
    ensures
        history_entries(ledger, history, address, n) is Ok <==> forall|i: int|
            0 <= i < n ==> ledger.dom().contains(#[trigger] history[i]) && resolvable(
                ledger,
                ledger[history[i]],
            ),
        history_entries(ledger, history, address, n) matches Ok(entries) ==> entries.len() == n
            && forall|i: int|
            0 <= i < n ==> (#[trigger] entries[i]).0 == ledger[history[i]] && classify(
                ledger,
                ledger[history[i]],
                address,
            ) == Ok::<Seq<FlowView>, FlowError>(entries[i].1),
    decreases n,
{
    if n > 0 {
        lemma_history_entries_exist(ledger, history, address, n - 1);
        if ledger.dom().contains(history[n - 1]) {
            law_flows_exist_when_inputs_resolve(ledger, ledger[history[n - 1]], address);
        }
        if history_entries(ledger, history, address, n) is Ok {
            assert(ledger.dom().contains(history[n - 1]));
        }
    }
}

/// A flow history can be worked out exactly when the ledger knows every
/// listed transaction and the output that each of their inputs spends. It
/// then has one entry for each listed id, in the listed order, made of the
/// transaction and the transaction's flows.
pub proof fn law_history_has_an_entry_for_each_listed_transaction(
    ledger: Ledger,
    history: Seq<Seq<char>>,
    address: Seq<char>,
)
    ensures
        flow_history(ledger, history, address) is Ok <==> forall|i: int|
            0 <= i < history.len() ==> ledger.dom().contains(#[trigger] history[i]) && resolvable(
                ledger,
                ledger[history[i]],
            ),
        flow_history(ledger, history, address) matches Ok(entries) ==> entries.len()
            == history.len() && forall|i: int|
            0 <= i < history.len() ==> (#[trigger] entries[i]).0 == ledger[history[i]] && classify(
                ledger,
                ledger[history[i]],
                address,
            ) == Ok::<Seq<FlowView>, FlowError>(entries[i].1),
{
    lemma_history_entries_exist(ledger, history, address, history.len() as int);
}

/// Whether the outputs of `tx` are numbered by their place.
pub open spec fn numbered(tx: TransactionView) -> bool {
    forall|i: int| 0 <= i < tx.vout.len() ==> (#[trigger] tx.vout[i]).n == i
}

/// Whether `flow` names an output that its transaction has and that pays to
/// `address`.
pub open spec fn names_output_of(flow: FlowView, address: Seq<char>) -> bool {
    match flow {
        FlowView::Received(n, tx) => n < tx.vout.len() && tx.vout[n as int].pays(address),
        FlowView::Sent(n, from, to) => n < from.vout.len() && from.vout[n as int].pays(address),
    }
}

/// Where the ledger numbers outputs by their place, every flow of a
/// transaction names a real output that pays to the address: an output of
/// the transaction itself for a `Received` flow, an output of the
/// transaction spent from for a `Sent` flow.
pub proof fn law_flows_name_outputs_of_the_address(
    ledger: Ledger,
    tx: TransactionView,
    address: Seq<char>,
)
    requires
        classify(ledger, tx, address) is Ok,
        numbered(tx),
        forall|txid: Seq<char>| ledger.dom().contains(txid) ==> numbered(#[trigger] ledger[txid]),
    ensures
        forall|k: int|
            0 <= k < classify(ledger, tx, address)->Ok_0.len() ==> names_output_of(
                #[trigger] classify(ledger, tx, address)->Ok_0[k],
                address,
            ),
{
    let flows = classify(ledger, tx, address)->Ok_0;
    law_received_flows(ledger, tx, address);
    law_sent_flows(ledger, tx, address);
    assert forall|k: int| 0 <= k < flows.len() implies names_output_of(
        #[trigger] flows[k],
        address,
    ) by {
        if flows[k] is Received {
            let i = choose|i: int|
                0 <= i < tx.vout.len() && (#[trigger] tx.vout[i]).pays(address) && flows[k]
                    == FlowView::Received(tx.vout[i].n, tx);
            assert(tx.vout[i].n == i);
        } else {
            let j = choose|j: int|
                0 <= j < tx.vin.len() && spends_from(ledger, address, #[trigger] tx.vin[j])
                    && flows[k] == sent_by(ledger, tx, tx.vin[j]);
            match tx.vin[j] {
                VinView::Coinbase => {},
                VinView::Spending { txid, vout } => {
                    assert(numbered(ledger[txid]));
                    assert(ledger[txid].vout[vout as int].n == vout);
                },
            }
        }
    }
}

/// An input that names an output which its transaction does not have fails
/// the `Sent` flows whatever else of the ledger is known.
proof fn lemma_sent_failure_with_more(
    known: Ledger,
    ledger: Ledger,
    tx: TransactionView,
    address: Seq<char>,
    n: int,
)
    requires
        known.submap_of(ledger),
        0 <= n <= tx.vin.len(),
        sent_flows(known, tx, address, n) == Err::<Seq<FlowView>, FlowError>(
            FlowError::MalformedResponse,
        ),
    ensures
        sent_flows(ledger, tx, address, n) == Err::<Seq<FlowView>, FlowError>(
            FlowError::MalformedResponse,
        ),
    decreases n,
{
    if n > 0 {
        if sent_flows(known, tx, address, n - 1) is Err {
            lemma_sent_failure_with_more(known, ledger, tx, address, n - 1);
        } else {
            lemma_classify_with_more(known, ledger, tx, address, n - 1);
            match tx.vin[n - 1] {
                VinView::Coinbase => {},
                VinView::Spending { txid, vout } => {
                    assert(known.dom().contains(txid));
                    assert(ledger.dom().contains(txid) && ledger[txid] == known[txid]);
                },
            }
        }
    }
}

/// An input that names an output which its transaction does not have fails
/// the history whatever else of the ledger is known.
pub proof fn lemma_history_failure_with_more(
    known: Ledger,
    ledger: Ledger,
    history: Seq<Seq<char>>,
    address: Seq<char>,
    n: int,
)
    requires
        known.submap_of(ledger),
        0 <= n <= history.len(),
        history_entries(known, history, address, n) == Err::<Seq<EntryView>, FlowError>(
            FlowError::MalformedResponse,
        ),
    ensures
        history_entries(ledger, history, address, n) == Err::<Seq<EntryView>, FlowError>(
            FlowError::MalformedResponse,
        ),
    decreases n,
{
    if n > 0 {
        if history_entries(known, history, address, n - 1) is Err {
            lemma_history_failure_with_more(known, ledger, history, address, n - 1);
        } else {
            lemma_history_with_more(known, ledger, history, address, n - 1);
            let txid = history[n - 1];
            assert(known.dom().contains(txid));
            assert(ledger.dom().contains(txid) && ledger[txid] == known[txid]);
            lemma_sent_failure_with_more(
                known,
                ledger,
                known[txid],
                address,
                known[txid].vin.len() as int,
            );
        }
    }
}

} // verus!
