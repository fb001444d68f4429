//! Building the flow history of one address step by step: the builder says
//! which transaction it needs next, the caller fetches it and hands it in,
//! until nothing is missing and the history is handed out.

use crate::cache::{learn, Ledger, TransactionCache};
use crate::classify::{
    classify, flow_history, get_transaction_flows_for_address, history_entries,
    law_history_is_determined_by_ledger, lemma_history_failure_stays,
    lemma_history_failure_with_more, lemma_sent_failure_stays, sent_flows, spent_flow, txids_view,
};
use crate::model::{
    EntryView, FlowError, Transaction, TransactionFlowsForAddress, TransactionView, Vin, VinView,
};
use vstd::prelude::*;
use vstd::seq_lib::seq_to_set_is_finite;
use vstd::set::{axiom_set_difference_finite, axiom_set_remove_len};
use vstd::set_lib::lemma_len_difference;

verus! {

/// The first of `txids` that `ledger` does not know.
pub open spec fn first_unknown(ledger: Ledger, txids: Seq<Seq<char>>) -> Option<Seq<char>>
    decreases txids.len(),
{
    if txids.len() == 0 {
        None
    } else if !ledger.dom().contains(txids.first()) {
        Some(txids.first())
    } else {
        first_unknown(ledger, txids.drop_first())
    }
}

/// The transaction id that an input spends from, if it spends at all.
pub open spec fn spent_txid(input: VinView) -> Option<Seq<char>> {
    match input {
        VinView::Coinbase => None,
        VinView::Spending { txid, vout } => Some(txid),
    }
}

/// The first transaction that one of `inputs` spends from and that `ledger`
/// does not know.
pub open spec fn first_unknown_spent(ledger: Ledger, inputs: Seq<VinView>) -> Option<Seq<char>>
    decreases inputs.len(),
{
    if inputs.len() == 0 {
        None
    } else {
        match spent_txid(inputs.first()) {
            Some(txid) if !ledger.dom().contains(txid) => Some(txid),
            _ => first_unknown_spent(ledger, inputs.drop_first()),
        }
    }
}

/// The first transaction that an input of one of the listed transactions
/// spends from and that `ledger` does not know, going through the listed
/// transactions in order and through each one's inputs in order.
pub open spec fn first_unknown_funding(ledger: Ledger, history: Seq<Seq<char>>) -> Option<Seq<char>>
    decreases history.len(),
{
    if history.len() == 0 {
        None
    } else {
        let here = if ledger.dom().contains(history.first()) {
            first_unknown_spent(ledger, ledger[history.first()].vin)
        } else {
            None
        };
        match here {
            Some(txid) => Some(txid),
            None => first_unknown_funding(ledger, history.drop_first()),
        }
    }
}

/// The transaction to fetch next for a history: the first listed
/// transaction that is not known yet; when all are known, the first unknown
/// transaction that one of them spends from; none when nothing is missing.
pub open spec fn next_fetch(ledger: Ledger, history: Seq<Seq<char>>) -> Option<Seq<char>> {
    match first_unknown(ledger, history) {
        Some(txid) => Some(txid),
        None => first_unknown_funding(ledger, history),
    }
}

/// The first transaction that an input of `tx` spends from and that `cache`
/// does not hold.
fn first_unknown_spent_of(cache: &TransactionCache, tx: &Transaction) -> (res: Option<String>)
    ensures
        match res {
            Some(txid) => first_unknown_spent(cache@, tx@.vin) == Some(txid@),
            None => first_unknown_spent(cache@, tx@.vin) is None,
        },
{
    let ghost inputs = tx@.vin;
    let mut j: usize = 0;
    assert(inputs.skip(0) == inputs);
    while j < tx.vin.len()
        invariant
            j <= tx.vin.len(),
            inputs == tx@.vin,
            inputs.len() == tx.vin.len(),
            first_unknown_spent(cache@, inputs) == first_unknown_spent(
                cache@,
                inputs.skip(j as int),
            ),
        decreases tx.vin.len() - j,
    {
        assert(inputs.skip(j as int).first() == tx.vin@[j as int]@);
        assert(inputs.skip(j as int).drop_first() == inputs.skip(j + 1));
        match &tx.vin[j] {
            Vin::Coinbase => {},
            Vin::Spending { txid, .. } => {
                if !cache.contains(txid) {
                    return Some(txid.clone());
                }
            },
        }
        j += 1;
    }
    None
}

/// The transaction to fetch next for the listed history, given what `cache`
/// holds.
pub fn next_fetch_of(cache: &TransactionCache, history: &Vec<String>) -> (res: Option<String>)
    ensures
        match res {
            Some(txid) => next_fetch(cache@, txids_view(history@)) == Some(txid@),
            None => next_fetch(cache@, txids_view(history@)) is None,
        },
{
    let ghost txids = txids_view(history@);
    let mut i: usize = 0;
    assert(txids.skip(0) == txids);
    while i < history.len()
        invariant
            i <= history.len(),
            txids == txids_view(history@),
            first_unknown(cache@, txids) == first_unknown(cache@, txids.skip(i as int)),
        decreases history.len() - i,
    {
        assert(txids.skip(i as int).first() == history@[i as int]@);
        assert(txids.skip(i as int).drop_first() == txids.skip(i + 1));
        if !cache.contains(&history[i]) {
            return Some(history[i].clone());
        }
        i += 1;
    }
    let mut k: usize = 0;
    while k < history.len()
        invariant
            k <= history.len(),
            txids == txids_view(history@),
            first_unknown(cache@, txids) is None,
            first_unknown_funding(cache@, txids) == first_unknown_funding(
                cache@,
                txids.skip(k as int),
            ),
        decreases history.len() - k,
    {
        assert(txids.skip(k as int).first() == history@[k as int]@);
        assert(txids.skip(k as int).drop_first() == txids.skip(k + 1));
        match cache.get(&history[k]) {
            None => {},
            Some(tx) => {
                match first_unknown_spent_of(cache, tx) {
                    Some(txid) => {
                        return Some(txid);
                    },
                    None => {},
                }
            },
        }
        k += 1;
    }
    None
}

/// Where a builder stands.
#[derive(Debug, PartialEq, Eq)]
pub enum Stage {
    /// It has asked for the transaction with this id and waits for it.
    Fetching(String),
    /// Nothing is missing: the history is worked out.
    Done,
    /// The history cannot be produced.
    Failed(FlowError),
}

/// The mathematical view of a [`Stage`].
pub enum StageView {
    Fetching(Seq<char>),
    Done,
    Failed(FlowError),
}

impl View for Stage {
    type V = StageView;

    open spec fn view(&self) -> StageView {
        match *self {
            Stage::Fetching(txid) => StageView::Fetching(txid@),
            Stage::Done => StageView::Done,
            Stage::Failed(e) => StageView::Failed(e),
        }
    }
}

/// What a builder asks of its caller.
#[derive(Debug, PartialEq, Eq)]
pub enum Action {
    /// Fetch the transaction with this id and hand in what came of it.
    Fetch(String),
    /// The run is over, with the history or with the reason why there is
    /// none.
    Finished(Result<TransactionFlowsForAddress, FlowError>),
}

/// The mathematical view of an [`Action`].
pub enum ActionView {
    Fetch(Seq<char>),
    Finished(Result<Seq<EntryView>, FlowError>),
}

impl View for Action {
    type V = ActionView;

    open spec fn view(&self) -> ActionView {
        match *self {
            Action::Fetch(txid) => ActionView::Fetch(txid@),
            Action::Finished(Ok(flows)) => ActionView::Finished(Ok(flows@)),
            Action::Finished(Err(e)) => ActionView::Finished(Err(e)),
        }
    }
}

/// The view of what a fetch came to.
pub open spec fn fetched_view(fetched: Result<Transaction, FlowError>) -> Result<
    TransactionView,
    FlowError,
> {
    match fetched {
        Ok(tx) => Ok(tx@),
        Err(e) => Err(e),
    }
}

/// The mathematical view of an [`AddressFlowBuilder`].
pub struct BuilderView {
    /// The address under analysis.
    pub address: Seq<char>,
    /// The ids of the address's transactions, as listed.
    pub history: Seq<Seq<char>>,
    /// The transactions handed in so far.
    pub ledger: Ledger,
    /// Where the builder stands.
    pub stage: StageView,
}

/// The stage that follows from what is known: waiting for the next missing
/// transaction while there is one, else done, or failed where the history
/// cannot be worked out from the transactions at hand.
pub open spec fn plan(ledger: Ledger, history: Seq<Seq<char>>, address: Seq<char>) -> StageView {
    match next_fetch(ledger, history) {
        Some(txid) => StageView::Fetching(txid),
        None => match flow_history(ledger, history, address) {
            Ok(_) => StageView::Done,
            Err(e) => StageView::Failed(e),
        },
    }
}

impl BuilderView {
    /// What the builder asks of its caller in this state.
    pub open spec fn action(self) -> ActionView {
        match self.stage {
            StageView::Fetching(txid) => ActionView::Fetch(txid),
            StageView::Done => ActionView::Finished(
                flow_history(self.ledger, self.history, self.address),
            ),
            StageView::Failed(e) => ActionView::Finished(Err(e)),
        }
    }

    /// The state after the caller has handed in what a fetch came to.
    ///
    /// While the builder waits for a transaction: a failed fetch fails the
    /// run with the fetch's own error; a transaction with another id than
    /// the one asked for fails it with `MalformedResponse`; the transaction
    /// asked for is added to what is known, and the builder goes on to the
    /// stage that follows from that. A builder that waits for nothing stays
    /// as it is.
    pub open spec fn after(self, fetched: Result<TransactionView, FlowError>) -> BuilderView {
        match self.stage {
            StageView::Fetching(asked) => match fetched {
                Err(e) => BuilderView { stage: StageView::Failed(e), ..self },
                Ok(tx) => if tx.txid != asked {
                    BuilderView { stage: StageView::Failed(FlowError::MalformedResponse), ..self }
                } else {
                    let ledger = learn(self.ledger, tx);
                    BuilderView { ledger, stage: plan(ledger, self.history, self.address), ..self }
                },
            },
            _ => self,
        }
    }

    /// The state in which a builder starts, given what listing the
    /// address's history came to.
    pub open spec fn begin(address: Seq<char>, listing: Result<Seq<Seq<char>>, FlowError>) -> BuilderView {
        match listing {
            Err(e) => BuilderView {
                address,
                history: Seq::empty(),
                ledger: Map::empty(),
                stage: StageView::Failed(e),
            },
            Ok(history) => BuilderView {
                address,
                history,
                ledger: Map::empty(),
                stage: plan(Map::empty(), history, address),
            },
        }
    }
}

/// The view of what listing a history came to.
pub open spec fn listing_view(listing: Result<Vec<String>, FlowError>) -> Result<
    Seq<Seq<char>>,
    FlowError,
> {
    match listing {
        Ok(history) => Ok(txids_view(history@)),
        Err(e) => Err(e),
    }
}

/// Builds the flow history of one address without doing any fetching
/// itself. It keeps every transaction handed in, so no transaction is asked
/// for twice in a run.
#[derive(Debug)]
pub struct AddressFlowBuilder {
    address: String,
    history: Vec<String>,
    cache: TransactionCache,
    stage: Stage,
}

impl View for AddressFlowBuilder {
    type V = BuilderView;

    closed spec fn view(&self) -> BuilderView {
        BuilderView {
            address: self.address@,
            history: txids_view(self.history@),
            ledger: self.cache@,
            stage: self.stage@,
        }
    }
}

/// The stage that follows from what is known, with the action that goes
/// with it.
fn resume(cache: &TransactionCache, history: &Vec<String>, address: &String) -> (res: (Stage, Action))
    ensures
        res.0@ == plan(cache@, txids_view(history@), address@),
        res.1@ == (BuilderView {
            address: address@,
            history: txids_view(history@),
            ledger: cache@,
            stage: res.0@,
        }).action(),
{
    match next_fetch_of(cache, history) {
        Some(txid) => (Stage::Fetching(txid.clone()), Action::Fetch(txid)),
        None => match get_transaction_flows_for_address(address.as_str(), history, cache) {
            Ok(flows) => (Stage::Done, Action::Finished(Ok(flows))),
            Err(e) => (Stage::Failed(e), Action::Finished(Err(e))),
        },
    }
}

impl AddressFlowBuilder {
    /// Starts a run for `address`, given what listing its history came to,
    /// and says what to do first.
    pub fn start(address: &str, listing: Result<Vec<String>, FlowError>) -> (res: (
        AddressFlowBuilder,
        Action,
    ))
        ensures
            res.0@ == BuilderView::begin(address@, listing_view(listing)),
            res.1@ == res.0@.action(),
    {
        let owned = address.to_owned();
        let cache = TransactionCache::new();
        match listing {
            Err(e) => {
                let history: Vec<String> = Vec::new();
                assert(txids_view(history@) =~= Seq::<Seq<char>>::empty());
                (
                    AddressFlowBuilder { address: owned, history, cache, stage: Stage::Failed(e) },
                    Action::Finished(Err(e)),
                )
            },
            Ok(history) => {
                let (stage, action) = resume(&cache, &history, &owned);
                (AddressFlowBuilder { address: owned, history, cache, stage }, action)
            },
        }
    }

    /// Takes what the fetch that the builder asked for came to, and says
    /// what to do next.
    pub fn step(&mut self, fetched: Result<Transaction, FlowError>) -> (action: Action)
        ensures
            final(self)@ == old(self)@.after(fetched_view(fetched)),
            action@ == final(self)@.action(),
    {
        let verdict: Option<Result<(), FlowError>> = match &self.stage {
            Stage::Fetching(asked) => match &fetched {
                Err(e) => Some(Err(*e)),
                Ok(tx) => if tx.txid == *asked {
                    Some(Ok(()))
                } else {
                    Some(Err(FlowError::MalformedResponse))
                },
            },
            _ => None,
        };
        match verdict {
            Some(Ok(())) => {
                if let Ok(tx) = fetched {
                    self.cache.insert(tx);
                }
                let (stage, action) = resume(&self.cache, &self.history, &self.address);
                self.stage = stage;
                action
            },
            Some(Err(e)) => {
                self.stage = Stage::Failed(e);
                Action::Finished(Err(e))
            },
            None => self.repeat(),
        }
    }

    /// Where the builder stands.
    pub fn stage(&self) -> (res: &Stage)
        ensures
            res@ == self@.stage,
    {
        &self.stage
    }

    /// The transactions handed in so far.
    pub fn cache(&self) -> (res: &TransactionCache)
        ensures
            res@ == self@.ledger,
    {
        &self.cache
    }

    /// What the builder asks of its caller as it stands.
    pub fn repeat(&self) -> (action: Action)
        ensures
            action@ == self@.action(),
    {
        match &self.stage {
            Stage::Fetching(txid) => Action::Fetch(txid.clone()),
            Stage::Done => Action::Finished(
                get_transaction_flows_for_address(self.address.as_str(), &self.history, &self.cache),
            ),
            Stage::Failed(e) => Action::Finished(Err(*e)),
        }
    }
}

/// What `first_unknown` finds is unknown, and where it finds nothing, all of
/// `txids` are known.
proof fn lemma_first_unknown(ledger: Ledger, txids: Seq<Seq<char>>)
    ensures
        match first_unknown(ledger, txids) {
            Some(txid) => !ledger.dom().contains(txid) && txids.contains(txid),
            None => forall|i: int| 0 <= i < txids.len() ==> ledger.dom().contains(#[trigger] txids[i]),
        },
    decreases txids.len(),
{
    if txids.len() > 0 {
        let rest = txids.drop_first();
        lemma_first_unknown(ledger, rest);
        if !ledger.dom().contains(txids.first()) {
            assert(txids[0] == txids.first());
        } else {
            match first_unknown(ledger, rest) {
                Some(txid) => {
                    let i = choose|i: int| 0 <= i < rest.len() && rest[i] == txid;
                    assert(txids[i + 1] == txid);
                },
                None => {
                    assert forall|i: int| 0 <= i < txids.len() implies ledger.dom().contains(
                        #[trigger] txids[i],
                    ) by {
                        if i > 0 {
                            assert(rest[i - 1] == txids[i]);
                        }
                    }
                },
            }
        }
    }
}

/// What `first_unknown_spent` finds is unknown, and where it finds nothing,
/// every transaction that one of `inputs` spends from is known.
proof fn lemma_first_unknown_spent(ledger: Ledger, inputs: Seq<VinView>)
    ensures
        match first_unknown_spent(ledger, inputs) {
            Some(txid) => !ledger.dom().contains(txid) && exists|j: int|
                0 <= j < inputs.len() && spent_txid(#[trigger] inputs[j]) == Some(txid),
            None => forall|j: int|
                0 <= j < inputs.len() && spent_txid(#[trigger] inputs[j]) is Some
                    ==> ledger.dom().contains(spent_txid(inputs[j])->Some_0),
        },
    decreases inputs.len(),
{
    if inputs.len() > 0 {
        let rest = inputs.drop_first();
        lemma_first_unknown_spent(ledger, rest);
        if let Some(txid) = first_unknown_spent(ledger, inputs) {
            if spent_txid(inputs.first()) == Some(txid) {
                assert(spent_txid(inputs[0]) == Some(txid));
            } else {
                let j = choose|j: int|
                    0 <= j < rest.len() && spent_txid(#[trigger] rest[j]) == Some(txid);
                assert(spent_txid(inputs[j + 1]) == Some(txid));
            }
        }
        if first_unknown_spent(ledger, inputs) is None {
            assert forall|j: int|
                0 <= j < inputs.len() && spent_txid(#[trigger] inputs[j]) is Some implies ledger.dom().contains(
                spent_txid(inputs[j])->Some_0,
            ) by {
                if j > 0 {
                    assert(rest[j - 1] == inputs[j]);
                }
            }
        }
    }
}

/// What `first_unknown_funding` finds is unknown, and where it finds
/// nothing, the known transactions among those listed spend from known
/// transactions only.
proof fn lemma_first_unknown_funding(ledger: Ledger, history: Seq<Seq<char>>)
    ensures
        match first_unknown_funding(ledger, history) {
            Some(txid) => !ledger.dom().contains(txid) && exists|i: int|
                0 <= i < history.len() && ledger.dom().contains(#[trigger] history[i])
                    && first_unknown_spent(ledger, ledger[history[i]].vin) == Some(txid),
            None => forall|i: int|
                0 <= i < history.len() && ledger.dom().contains(#[trigger] history[i])
                    ==> first_unknown_spent(ledger, ledger[history[i]].vin) is None,
        },
    decreases history.len(),
{
    if history.len() > 0 {
        let rest = history.drop_first();
        lemma_first_unknown_funding(ledger, rest);
        if ledger.dom().contains(history.first()) {
            lemma_first_unknown_spent(ledger, ledger[history.first()].vin);
        }
        if let Some(txid) = first_unknown_funding(ledger, history) {
            if ledger.dom().contains(history.first()) && first_unknown_spent(
                ledger,
                ledger[history.first()].vin,
            ) == Some(txid) {
                assert(history[0] == history.first());
            } else {
                let i = choose|i: int|
                    0 <= i < rest.len() && ledger.dom().contains(#[trigger] rest[i])
                        && first_unknown_spent(ledger, ledger[rest[i]].vin) == Some(txid);
                assert(history[i + 1] == rest[i]);
            }
        }
        if first_unknown_funding(ledger, history) is None {
            assert forall|i: int|
                0 <= i < history.len() && ledger.dom().contains(
                    #[trigger] history[i],
                ) implies first_unknown_spent(ledger, ledger[history[i]].vin) is None by {
                if i > 0 {
                    assert(rest[i - 1] == history[i]);
                }
            }
        }
    }
}

/// No transaction is fetched twice: what a builder asks for next is never
/// among the transactions it already holds.
pub proof fn law_fetch_is_never_repeated(ledger: Ledger, history: Seq<Seq<char>>)
    ensures
        next_fetch(ledger, history) matches Some(txid) ==> !ledger.dom().contains(txid),
{
    lemma_first_unknown(ledger, history);
    lemma_first_unknown_funding(ledger, history);
}

/// Where every transaction that `tx` spends from is known, working out its
/// `Sent` flows can fail only on an input that names an output which its
/// transaction does not have.
proof fn lemma_sent_flows_with_all_known(
    ledger: Ledger,
    tx: TransactionView,
    address: Seq<char>,
    n: int,
)
    requires
        0 <= n <= tx.vin.len(),
        first_unknown_spent(ledger, tx.vin) is None,
    ensures
        sent_flows(ledger, tx, address, n) matches Err(e) ==> e == FlowError::MalformedResponse,
    decreases n,
{
    if n > 0 {
        lemma_sent_flows_with_all_known(ledger, tx, address, n - 1);
        lemma_first_unknown_spent(ledger, tx.vin);
        assert(spent_txid(tx.vin[n - 1]) is Some ==> ledger.dom().contains(
            spent_txid(tx.vin[n - 1])->Some_0,
        ));
    }
}

/// Where nothing is left to fetch, the entries can fail to be worked out
/// only on an input that names an output which its transaction does not
/// have.
proof fn lemma_history_with_all_known(
    ledger: Ledger,
    history: Seq<Seq<char>>,
    address: Seq<char>,
    n: int,
)
    requires
        0 <= n <= history.len(),
        next_fetch(ledger, history) is None,
    ensures
        history_entries(ledger, history, address, n) matches Err(e) ==> e
            == FlowError::MalformedResponse,
    decreases n,
{
    if n > 0 {
        lemma_history_with_all_known(ledger, history, address, n - 1);
        lemma_first_unknown(ledger, history);
        lemma_first_unknown_funding(ledger, history);
        let txid = history[n - 1];
        assert(ledger.dom().contains(txid));
        lemma_sent_flows_with_all_known(
            ledger,
            ledger[txid],
            address,
            ledger[txid].vin.len() as int,
        );
    }
}

/// A builder that has nothing left to fetch has all it needs: it is done,
/// or it fails because an input names an output which its transaction does
/// not have, and never because a transaction is missing.
pub proof fn law_nothing_is_missing_at_the_end(
    ledger: Ledger,
    history: Seq<Seq<char>>,
    address: Seq<char>,
)
    requires
        next_fetch(ledger, history) is None,
    ensures
        plan(ledger, history, address) == StageView::Done || plan(ledger, history, address)
            == StageView::Failed(FlowError::MalformedResponse),
        flow_history(ledger, history, address) matches Err(e) ==> e
            == FlowError::MalformedResponse,
{
    lemma_history_with_all_known(ledger, history, address, history.len() as int);
}

/// What a ledger answers when it is asked for a transaction.
pub open spec fn answer(ledger: Ledger, txid: Seq<char>) -> Result<TransactionView, FlowError> {
    if ledger.dom().contains(txid) {
        Ok(ledger[txid])
    } else {
        Err(FlowError::NotFound)
    }
}

/// Whether a ledger holds every transaction under the transaction's own id.
pub open spec fn keyed_by_txid(ledger: Ledger) -> bool {
    forall|txid: Seq<char>| ledger.dom().contains(txid) ==> (#[trigger] ledger[txid]).txid == txid
}

/// A history that needs a transaction which the ledger lacks cannot be
/// worked out against that ledger.
proof fn lemma_missing_transaction_fails(
    known: Ledger,
    ledger: Ledger,
    history: Seq<Seq<char>>,
    address: Seq<char>,
)
    requires
        known.submap_of(ledger),
        next_fetch(known, history) matches Some(txid) && !ledger.dom().contains(txid),
    ensures
        flow_history(ledger, history, address) is Err,
{
    let missing = next_fetch(known, history)->Some_0;
    lemma_first_unknown(known, history);
    lemma_first_unknown_funding(known, history);
    if first_unknown(known, history) is Some {
        let i = choose|i: int| 0 <= i < history.len() && history[i] == missing;
        assert(history_entries(ledger, history, address, i + 1) is Err);
        lemma_history_failure_stays(ledger, history, address, i + 1, history.len() as int);
    } else {
        let i = choose|i: int|
            0 <= i < history.len() && known.dom().contains(#[trigger] history[i])
                && first_unknown_spent(known, known[history[i]].vin) == Some(missing);
        let tx = known[history[i]];
        assert(ledger.dom().contains(history[i]) && ledger[history[i]] == tx);
        lemma_first_unknown_spent(known, tx.vin);
        let j = choose|j: int|
            0 <= j < tx.vin.len() && spent_txid(#[trigger] tx.vin[j]) == Some(missing);
        assert(spent_flow(ledger, tx, address, tx.vin[j]) is Err);
        assert(sent_flows(ledger, tx, address, j + 1) is Err);
        lemma_sent_failure_stays(ledger, tx, address, j + 1, tx.vin.len() as int);
        assert(classify(ledger, tx, address) is Err);
        assert(history_entries(ledger, history, address, i + 1) is Err);
        lemma_history_failure_stays(ledger, history, address, i + 1, history.len() as int);
    }
}

impl BuilderView {
    /// Whether the builder is where a run against `ledger` can be: it knows
    /// nothing but transactions of the ledger; while it waits, it waits for
    /// the next missing transaction; it is done only with a history worked
    /// out; and it has failed only where the ledger gives no history.
    pub open spec fn follows(self, ledger: Ledger) -> bool {
        &&& self.ledger.submap_of(ledger)
        &&& match self.stage {
            StageView::Fetching(asked) => next_fetch(self.ledger, self.history) == Some(asked),
            StageView::Done => flow_history(self.ledger, self.history, self.address) is Ok,
            StageView::Failed(_) => flow_history(ledger, self.history, self.address) is Err,
        }
    }

    /// The state after at most `steps` fetches, each answered by `ledger`.
    pub open spec fn run(self, ledger: Ledger, steps: nat) -> BuilderView
        decreases steps,
    {
        match self.stage {
            StageView::Fetching(asked) if steps > 0 => self.after(answer(ledger, asked)).run(
                ledger,
                (steps - 1) as nat,
            ),
            _ => self,
        }
    }

    /// The ids that the builder asks for in those steps, in order.
    pub open spec fn requests(self, ledger: Ledger, steps: nat) -> Seq<Seq<char>>
        decreases steps,
    {
        match self.stage {
            StageView::Fetching(asked) if steps > 0 => seq![asked] + self.after(
                answer(ledger, asked),
            ).requests(ledger, (steps - 1) as nat),
            _ => Seq::empty(),
        }
    }
}

/// A builder starts where a run against any ledger can be.
proof fn lemma_begin_follows(address: Seq<char>, history: Seq<Seq<char>>, ledger: Ledger)
    ensures
        BuilderView::begin(address, Ok(history)).follows(ledger),
{
    let start = BuilderView::begin(address, Ok(history));
    if start.stage is Failed {
        law_nothing_is_missing_at_the_end(start.ledger, history, address);
        lemma_history_failure_with_more(
            start.ledger,
            ledger,
            history,
            address,
            history.len() as int,
        );
    }
}

/// A builder that is handed the ledger's answer to what it asked for stays
/// where a run against that ledger can be, keeps what it knew, and knows
/// the transaction it asked for unless the ledger lacks it.
proof fn lemma_step_follows(state: BuilderView, ledger: Ledger, asked: Seq<char>)
    requires
        keyed_by_txid(ledger),
        state.follows(ledger),
        state.stage == StageView::Fetching(asked),
    ensures
        ({
            let next = state.after(answer(ledger, asked));
            &&& next.follows(ledger)
            &&& next.address == state.address
            &&& next.history == state.history
            &&& state.ledger.submap_of(next.ledger)
            &&& !state.ledger.dom().contains(asked)
            &&& next.stage is Failed || next.ledger.dom().contains(asked)
        }),
{
    let next = state.after(answer(ledger, asked));
    law_fetch_is_never_repeated(state.ledger, state.history);
    if ledger.dom().contains(asked) {
        if next.stage is Failed {
            law_nothing_is_missing_at_the_end(next.ledger, state.history, state.address);
            lemma_history_failure_with_more(
                next.ledger,
                ledger,
                state.history,
                state.address,
                state.history.len() as int,
            );
        }
    } else {
        lemma_missing_transaction_fails(state.ledger, ledger, state.history, state.address);
    }
}

/// A run against a ledger gives the ledger's history: however many steps
/// it has taken, a builder that is done hands out the history that the whole
/// ledger gives, and a builder that has failed stands for a ledger that
/// gives none. Two runs for one address against one unchanged ledger
/// therefore end with the same history. In a run no transaction is asked
/// for twice.
pub proof fn law_run_gives_the_history_of_the_ledger(
    state: BuilderView,
    ledger: Ledger,
    steps: nat,
)
    requires
        keyed_by_txid(ledger),
        state.follows(ledger),
    ensures
        ({
            let end = state.run(ledger, steps);
            let asked = state.requests(ledger, steps);
            &&& end.follows(ledger)
            &&& end.address == state.address
            &&& end.history == state.history
            &&& state.ledger.submap_of(end.ledger)
            &&& end.stage is Done ==> end.action() == ActionView::Finished(
                flow_history(ledger, state.history, state.address),
            ) && flow_history(ledger, state.history, state.address) is Ok
            &&& end.stage matches StageView::Failed(e) ==> end.action() == ActionView::Finished(
                Err(e),
            ) && flow_history(ledger, state.history, state.address) is Err
            &&& forall|i: int|
                0 <= i < asked.len() ==> !state.ledger.dom().contains(#[trigger] asked[i])
            &&& asked.no_duplicates()
        }),
    decreases steps,
{
    let end = state.run(ledger, steps);
    let asked = state.requests(ledger, steps);
    match state.stage {
        StageView::Fetching(txid) if steps > 0 => {
            let next = state.after(answer(ledger, txid));
            let rest = next.requests(ledger, (steps - 1) as nat);
            lemma_step_follows(state, ledger, txid);
            law_run_gives_the_history_of_the_ledger(next, ledger, (steps - 1) as nat);
            assert(asked == seq![txid] + rest);
            assert forall|k: Seq<char>| #[trigger]
                state.ledger.dom().contains(k) implies end.ledger.dom().contains(k)
                && state.ledger[k] == end.ledger[k] by {
                assert(next.ledger.dom().contains(k) && next.ledger[k] == state.ledger[k]);
            }
            assert(state.ledger.submap_of(end.ledger));
            assert forall|i: int| 0 <= i < asked.len() implies !state.ledger.dom().contains(
                #[trigger] asked[i],
            ) by {
                if i > 0 {
                    assert(asked[i] == rest[i - 1]);
                }
            }
            assert forall|i: int, j: int|
                0 <= i < asked.len() && 0 <= j < asked.len() && i != j implies asked[i]
                != asked[j] by {
                if i > 0 && j > 0 {
                    assert(asked[i] == rest[i - 1] && asked[j] == rest[j - 1]);
                } else {
                    let k = if i > 0 {
                        i
                    } else {
                        j
                    };
                    assert(asked[k] == rest[k - 1]);
                    assert(!next.ledger.dom().contains(rest[k - 1]));
                }
            }
        },
        _ => {},
    }
    if end.stage is Done {
        law_history_is_determined_by_ledger(end.ledger, ledger, state.history, state.address);
    }
}

/// A run that has ended stays as it is however many more steps it is given.
proof fn lemma_run_is_stable(state: BuilderView, ledger: Ledger, steps: nat, more: nat)
    requires
        steps <= more,
        !(state.run(ledger, steps).stage is Fetching),
    ensures
        state.run(ledger, more) == state.run(ledger, steps),
    decreases steps,
{
    match state.stage {
        StageView::Fetching(asked) if steps > 0 => {
            lemma_run_is_stable(
                state.after(answer(ledger, asked)),
                ledger,
                (steps - 1) as nat,
                (more - 1) as nat,
            );
        },
        _ => {},
    }
}

/// Building the history of one address twice against one unchanged ledger
/// gives the same outcome: two runs that have ended stand in the same
/// state, and where that state is done, it hands out the history that the
/// ledger gives.
pub proof fn law_runs_against_one_ledger_agree(
    address: Seq<char>,
    history: Seq<Seq<char>>,
    ledger: Ledger,
    steps: nat,
    other_steps: nat,
)
    requires
        keyed_by_txid(ledger),
        !(BuilderView::begin(address, Ok(history)).run(ledger, steps).stage is Fetching),
        !(BuilderView::begin(address, Ok(history)).run(ledger, other_steps).stage is Fetching),
    ensures
        BuilderView::begin(address, Ok(history)).run(ledger, steps) == BuilderView::begin(
            address,
            Ok(history),
        ).run(ledger, other_steps),
        BuilderView::begin(address, Ok(history)).run(ledger, steps).stage is Done
            ==> BuilderView::begin(address, Ok(history)).run(ledger, steps).action()
            == ActionView::Finished(flow_history(ledger, history, address)),
        BuilderView::begin(address, Ok(history)).run(ledger, steps).stage is Failed
            ==> flow_history(ledger, history, address) is Err,
{
    let start = BuilderView::begin(address, Ok(history));
    lemma_begin_follows(address, history, ledger);
    law_run_gives_the_history_of_the_ledger(start, ledger, steps);
    if steps <= other_steps {
        lemma_run_is_stable(start, ledger, steps, other_steps);
    } else {
        lemma_run_is_stable(start, ledger, other_steps, steps);
    }
}

/// The ids that `inputs` spend from, in input order.
pub open spec fn spent_txids(inputs: Seq<VinView>) -> Seq<Seq<char>>
    decreases inputs.len(),
{
    if inputs.len() == 0 {
        Seq::empty()
    } else {
        let earlier = spent_txids(inputs.drop_last());
        match spent_txid(inputs.last()) {
            Some(txid) => earlier.push(txid),
            None => earlier,
        }
    }
}

/// Every id that a run for `history` against `ledger` can come to ask for:
/// the listed ids, and the ids that the listed transactions of the ledger
/// spend from.
pub open spec fn wanted(ledger: Ledger, history: Seq<Seq<char>>) -> Seq<Seq<char>>
    decreases history.len(),
{
    if history.len() == 0 {
        Seq::empty()
    } else {
        let earlier = wanted(ledger, history.drop_last()).push(history.last());
        if ledger.dom().contains(history.last()) {
            earlier + spent_txids(ledger[history.last()].vin)
        } else {
            earlier
        }
    }
}

/// How many of the wanted ids are not known yet.
pub open spec fn missing(known: Ledger, ledger: Ledger, history: Seq<Seq<char>>) -> nat {
    wanted(ledger, history).to_set().difference(known.dom()).len()
}

/// The id that an input spends from is among the ids spent from.
proof fn lemma_spent_txids(inputs: Seq<VinView>, j: int)
    requires
        0 <= j < inputs.len(),
        spent_txid(inputs[j]) is Some,
    ensures
        spent_txids(inputs).contains(spent_txid(inputs[j])->Some_0),
    decreases inputs.len(),
{
    let txid = spent_txid(inputs[j])->Some_0;
    let all = spent_txids(inputs);
    if j == inputs.len() - 1 {
        assert(all[all.len() - 1] == txid);
    } else {
        let earlier = inputs.drop_last();
        assert(earlier[j] == inputs[j]);
        lemma_spent_txids(earlier, j);
        let k = choose|k: int| 0 <= k < spent_txids(earlier).len() && spent_txids(earlier)[k] == txid;
        assert(all[k] == txid);
    }
}

/// A listed id is wanted, and so is every id that a listed transaction of
/// the ledger spends from.
proof fn lemma_wanted(ledger: Ledger, history: Seq<Seq<char>>, i: int)
    requires
        0 <= i < history.len(),
    ensures
        wanted(ledger, history).contains(history[i]),
        ledger.dom().contains(history[i]) ==> forall|txid: Seq<char>|
            spent_txids(ledger[history[i]].vin).contains(txid) ==> #[trigger] wanted(
                ledger,
                history,
            ).contains(txid),
    decreases history.len(),
{
    let all = wanted(ledger, history);
    let head = history.drop_last();
    let own = wanted(ledger, head).push(history.last());
    if i == history.len() - 1 {
        assert(all[own.len() - 1] == history[i]);
        if ledger.dom().contains(history[i]) {
            let spent = spent_txids(ledger[history[i]].vin);
            assert forall|txid: Seq<char>| spent.contains(txid) implies #[trigger] all.contains(
                txid,
            ) by {
                let k = choose|k: int| 0 <= k < spent.len() && spent[k] == txid;
                assert(all[own.len() + k] == txid);
            }
        }
    } else {
        assert(head[i] == history[i]);
        lemma_wanted(ledger, head, i);
        let k = choose|k: int| 0 <= k < wanted(ledger, head).len() && wanted(ledger, head)[k]
            == history[i];
        assert(all[k] == history[i]);
        if ledger.dom().contains(history[i]) {
            let spent = spent_txids(ledger[history[i]].vin);
            assert forall|txid: Seq<char>| spent.contains(txid) implies #[trigger] all.contains(
                txid,
            ) by {
                assert(wanted(ledger, head).contains(txid));
                let k = choose|k: int|
                    0 <= k < wanted(ledger, head).len() && wanted(ledger, head)[k] == txid;
                assert(all[k] == txid);
            }
        }
    }
}

/// What a builder asks for is wanted.
proof fn lemma_next_fetch_is_wanted(known: Ledger, ledger: Ledger, history: Seq<Seq<char>>)
    requires
        known.submap_of(ledger),
        next_fetch(known, history) is Some,
    ensures
        wanted(ledger, history).contains(next_fetch(known, history)->Some_0),
{
    let asked = next_fetch(known, history)->Some_0;
    lemma_first_unknown(known, history);
    lemma_first_unknown_funding(known, history);
    if first_unknown(known, history) is Some {
        let i = choose|i: int| 0 <= i < history.len() && history[i] == asked;
        lemma_wanted(ledger, history, i);
    } else {
        let i = choose|i: int|
            0 <= i < history.len() && known.dom().contains(#[trigger] history[i])
                && first_unknown_spent(known, known[history[i]].vin) == Some(asked);
        let tx = known[history[i]];
        assert(ledger.dom().contains(history[i]) && ledger[history[i]] == tx);
        lemma_first_unknown_spent(known, tx.vin);
        let j = choose|j: int|
            0 <= j < tx.vin.len() && spent_txid(#[trigger] tx.vin[j]) == Some(asked);
        lemma_spent_txids(tx.vin, j);
        lemma_wanted(ledger, history, i);
    }
}

/// A run has ended once it has taken more steps than ids were missing.
proof fn lemma_run_ends(state: BuilderView, ledger: Ledger, steps: nat)
    requires
        keyed_by_txid(ledger),
        state.follows(ledger),
        missing(state.ledger, ledger, state.history) < steps,
    ensures
        !(state.run(ledger, steps).stage is Fetching),
    decreases steps,
{
    if let StageView::Fetching(asked) = state.stage {
        let next = state.after(answer(ledger, asked));
        lemma_step_follows(state, ledger, asked);
        if next.stage is Fetching {
            let all = wanted(ledger, state.history).to_set();
            let before = all.difference(state.ledger.dom());
            lemma_next_fetch_is_wanted(state.ledger, ledger, state.history);
            seq_to_set_is_finite(wanted(ledger, state.history));
            axiom_set_difference_finite(all, state.ledger.dom());
            assert(before.contains(asked));
            assert(next.ledger.dom() == state.ledger.dom().insert(asked));
            assert(all.difference(next.ledger.dom()) == before.remove(asked));
            axiom_set_remove_len(before, asked);
            lemma_run_ends(next, ledger, (steps - 1) as nat);
        }
    }
}

/// Every run against a ledger ends: it is done or has failed after at most
/// one step for each id that can be wanted, and one more.
pub proof fn law_every_run_ends(address: Seq<char>, history: Seq<Seq<char>>, ledger: Ledger)
    requires
        keyed_by_txid(ledger),
    ensures
        !(BuilderView::begin(address, Ok(history)).run(
            ledger,
            wanted(ledger, history).len() + 1,
        ).stage is Fetching),
{
    let start = BuilderView::begin(address, Ok(history));
    let all = wanted(ledger, history);
    lemma_begin_follows(address, history, ledger);
    seq_to_set_is_finite(all);
    lemma_len_difference(all.to_set(), start.ledger.dom());
    all.lemma_cardinality_of_set();
    lemma_run_ends(start, ledger, all.len() + 1);
}

} // verus!
