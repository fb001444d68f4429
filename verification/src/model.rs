//! The ledger's data as the flow engine sees it, with a mathematical view of
//! each type. Contracts throughout the crate speak of the views.

use vstd::prelude::*;

verus! {

/// Why a flow history or a grouped table could not be produced.
#[derive(Debug, Clone, Copy, PartialEq, Eq, Structural)]
pub enum FlowError {
    /// Listing the address's history failed.
    LookupFailure,
    /// A referenced transaction id is unknown to the ledger.
    NotFound,
    /// Talking to the node or the indexer failed.
    RpcFailure,
    /// A fetched transaction does not have the shape that was asked for.
    MalformedResponse,
    /// One transaction id was reported with two different block times.
    InconsistentBlocktime,
}

/// An output of a transaction.
#[derive(Debug, PartialEq, Eq)]
pub struct Vout {
    /// The output's index as the ledger reports it.
    pub n: u64,
    /// The amount paid, in the ledger's smallest unit.
    pub amount: u64,
    /// The address read from the output's script, if it has one.
    pub script_address: Option<String>,
    /// The address reported beside the script, if any.
    pub address: Option<String>,
}

/// The mathematical view of a [`Vout`].
pub struct VoutView {
    pub n: u64,
    pub amount: u64,
    pub script_address: Option<Seq<char>>,
    pub address: Option<Seq<char>>,
}

/// The view of an optional string.
pub open spec fn text_view(s: Option<String>) -> Option<Seq<char>> {
    match s {
        Some(t) => Some(t@),
        None => None,
    }
}

impl VoutView {
    /// The address an output pays to: the one in its script where there is
    /// one, else the one reported beside it, else none.
    pub open spec fn resolved_address(self) -> Option<Seq<char>> {
        if self.script_address is Some {
            self.script_address
        } else {
            self.address
        }
    }

    /// Whether the output pays to `address`.
    pub open spec fn pays(self, address: Seq<char>) -> bool {
        self.resolved_address() == Some(address)
    }
}

impl View for Vout {
    type V = VoutView;

    open spec fn view(&self) -> VoutView {
        VoutView {
            n: self.n,
            amount: self.amount,
            script_address: text_view(self.script_address),
            address: text_view(self.address),
        }
    }
}

fn clone_text(s: &Option<String>) -> (res: Option<String>)
    ensures
        text_view(res) == text_view(*s),
{
    match s {
        Some(t) => Some(t.clone()),
        None => None,
    }
}

impl Vout {
    /// The address the output pays to, read from the script first.
    pub fn resolved_address(&self) -> (res: Option<&String>)
        ensures
            match res {
                Some(a) => self@.resolved_address() == Some(a@),
                None => self@.resolved_address() is None,
            },
    {
        match &self.script_address {
            Some(a) => Some(a),
            None => match &self.address {
                Some(a) => Some(a),
                None => None,
            },
        }
    }

    /// Whether the output pays to `address`.
    pub fn pays(&self, address: &String) -> (res: bool)
        ensures
            res == self@.pays(address@),
    {
        match self.resolved_address() {
            Some(a) => *a == *address,
            None => false,
        }
    }
}

impl Clone for Vout {
    fn clone(&self) -> (res: Self)
        ensures
            res@ == self@,
    {
        Vout {
            n: self.n,
            amount: self.amount,
            script_address: clone_text(&self.script_address),
            address: clone_text(&self.address),
        }
    }
}

/// An input of a transaction.
#[derive(Debug, PartialEq, Eq)]
pub enum Vin {
    /// The input of a block reward: it spends no earlier output.
    Coinbase,
    /// An input that spends output `vout` of transaction `txid`.
    Spending { txid: String, vout: u64 },
}

/// The mathematical view of a [`Vin`].
pub enum VinView {
    Coinbase,
    Spending { txid: Seq<char>, vout: u64 },
}

impl View for Vin {
    type V = VinView;

    open spec fn view(&self) -> VinView {
        match *self {
            Vin::Coinbase => VinView::Coinbase,
            Vin::Spending { txid, vout } => VinView::Spending { txid: txid@, vout },
        }
    }
}

impl Clone for Vin {
    fn clone(&self) -> (res: Self)
        ensures
            res@ == self@,
    {
        match self {
            Vin::Coinbase => Vin::Coinbase,
            Vin::Spending { txid, vout } => Vin::Spending { txid: txid.clone(), vout: *vout },
        }
    }
}

/// A confirmed transaction.
#[derive(Debug, PartialEq, Eq)]
pub struct Transaction {
    /// The transaction's id, unique on the ledger.
    pub txid: String,
    /// When the transaction was confirmed, in seconds since the epoch.
    pub blocktime: i64,
    /// The inputs, in the transaction's own order.
    pub vin: Vec<Vin>,
    /// The outputs, in the transaction's own order.
    pub vout: Vec<Vout>,
}

/// The mathematical view of a [`Transaction`].
pub struct TransactionView {
    pub txid: Seq<char>,
    pub blocktime: i64,
    pub vin: Seq<VinView>,
    pub vout: Seq<VoutView>,
}

impl View for Transaction {
    type V = TransactionView;

    open spec fn view(&self) -> TransactionView {
        TransactionView {
            txid: self.txid@,
            blocktime: self.blocktime,
            vin: self.vin@.map_values(|i: Vin| i@),
            vout: self.vout@.map_values(|o: Vout| o@),
        }
    }
}

impl Clone for Transaction {
    fn clone(&self) -> (res: Self)
        ensures
            res@ == self@,
    {
        let mut vin: Vec<Vin> = Vec::new();
        let mut i: usize = 0;
        while i < self.vin.len()
            invariant
                i <= self.vin.len(),
                vin.len() == i,
                forall|k: int| 0 <= k < i ==> vin[k]@ == self.vin[k]@,
            decreases self.vin.len() - i,
        {
            vin.push(self.vin[i].clone());
            i += 1;
        }
        let mut vout: Vec<Vout> = Vec::new();
        let mut j: usize = 0;
        while j < self.vout.len()
            invariant
                j <= self.vout.len(),
                vout.len() == j,
                forall|k: int| 0 <= k < j ==> vout[k]@ == self.vout[k]@,
            decreases self.vout.len() - j,
        {
            vout.push(self.vout[j].clone());
            j += 1;
        }
        let res = Transaction { txid: self.txid.clone(), blocktime: self.blocktime, vin, vout };
        assert(res@.vin =~= self@.vin);
        assert(res@.vout =~= self@.vout);
        res
    }
}

/// A movement of value into or out of the address under analysis.
#[derive(Debug, PartialEq, Eq)]
pub enum TransactionFlow {
    /// The address owned the output with the given index of the first
    /// transaction, and the second transaction spent it.
    Sent(u64, Transaction, Transaction),
    /// The address owns the output with the given index of the transaction.
    Received(u64, Transaction),
}

/// The mathematical view of a [`TransactionFlow`].
pub enum FlowView {
    Sent(u64, TransactionView, TransactionView),
    Received(u64, TransactionView),
}

impl View for TransactionFlow {
    type V = FlowView;

    open spec fn view(&self) -> FlowView {
        match *self {
            TransactionFlow::Sent(n, from, to) => FlowView::Sent(n, from@, to@),
            TransactionFlow::Received(n, tx) => FlowView::Received(n, tx@),
        }
    }
}

impl Clone for TransactionFlow {
    fn clone(&self) -> (res: Self)
        ensures
            res@ == self@,
    {
        match self {
            TransactionFlow::Sent(n, from, to) => TransactionFlow::Sent(
                *n,
                from.clone(),
                to.clone(),
            ),
            TransactionFlow::Received(n, tx) => TransactionFlow::Received(*n, tx.clone()),
        }
    }
}

/// The views of a list of flows, in order.
pub open spec fn flows_view(flows: Seq<TransactionFlow>) -> Seq<FlowView> {
    flows.map_values(|f: TransactionFlow| f@)
}

/// Copies a list of flows.
pub fn clone_flows(flows: &Vec<TransactionFlow>) -> (res: Vec<TransactionFlow>)
    ensures
        flows_view(res@) == flows_view(flows@),
{
    let mut out: Vec<TransactionFlow> = Vec::new();
    let mut i: usize = 0;
    while i < flows.len()
        invariant
            i <= flows.len(),
            out.len() == i,
            forall|k: int| 0 <= k < i ==> out[k]@ == flows[k]@,
        decreases flows.len() - i,
    {
        out.push(flows[i].clone());
        i += 1;
    }
    assert(flows_view(out@) =~= flows_view(flows@));
    out
}

/// One transaction of an address's history with the flows it contributes.
#[derive(Debug, PartialEq, Eq)]
pub struct TransactionFlowsWithTransaction(pub (Transaction, Vec<TransactionFlow>));

/// The mathematical view of one history entry: the transaction and its flows.
pub type EntryView = (TransactionView, Seq<FlowView>);

impl View for TransactionFlowsWithTransaction {
    type V = EntryView;

    open spec fn view(&self) -> EntryView {
        (self.0.0@, flows_view(self.0.1@))
    }
}

impl Clone for TransactionFlowsWithTransaction {
    fn clone(&self) -> (res: Self)
        ensures
            res@ == self@,
    {
        TransactionFlowsWithTransaction((self.0.0.clone(), clone_flows(&self.0.1)))
    }
}

/// The flow history of one address: an entry for each of its transactions,
/// in the order in which the history was listed.
#[derive(Debug, PartialEq, Eq)]
pub struct TransactionFlowsForAddress(pub Vec<TransactionFlowsWithTransaction>);

/// The views of a list of history entries, in order.
pub open spec fn entries_view(entries: Seq<TransactionFlowsWithTransaction>) -> Seq<EntryView> {
    entries.map_values(|e: TransactionFlowsWithTransaction| e@)
}

impl View for TransactionFlowsForAddress {
    type V = Seq<EntryView>;

    open spec fn view(&self) -> Seq<EntryView> {
        entries_view(self.0@)
    }
}

impl Clone for TransactionFlowsForAddress {
    fn clone(&self) -> (res: Self)
        ensures
            res@ == self@,
    {
        let mut out: Vec<TransactionFlowsWithTransaction> = Vec::new();
        let mut i: usize = 0;
        while i < self.0.len()
            invariant
                i <= self.0.len(),
                out.len() == i,
                forall|k: int| 0 <= k < i ==> out[k]@ == self.0[k]@,
            decreases self.0.len() - i,
        {
            out.push(self.0[i].clone());
            i += 1;
        }
        let res = TransactionFlowsForAddress(out);
        assert(res@ =~= self@);
        res
    }
}

} // verus!
