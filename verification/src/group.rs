//! Merging the flow histories of several addresses into one table, keyed by
//! transaction id and block time.

use crate::model::{
    clone_flows, entries_view, flows_view, EntryView, FlowError, FlowView, Transaction,
    TransactionFlow, TransactionFlowsForAddress,
};
use vstd::prelude::*;
use vstd::seq_lib::lemma_flatten_concat;

verus! {

/// The key of a group: a transaction id and the transaction's block time.
pub type FlowKey = (Seq<char>, i64);

/// The table as a mathematical map from key to the flows grouped under it.
pub type Grouping = Map<FlowKey, Seq<FlowView>>;

/// The key under which a history entry is grouped.
pub open spec fn key_of(entry: EntryView) -> FlowKey {
    (entry.0.txid, entry.0.blocktime)
}

/// Whether some entry among `entries` is grouped under `key`.
pub open spec fn has_key(entries: Seq<EntryView>, key: FlowKey) -> bool {
    exists|i: int| 0 <= i < entries.len() && key_of(#[trigger] entries[i]) == key
}

/// The flows of all entries among `entries` that are grouped under `key`,
/// joined in the order of the entries.
pub open spec fn flows_under(entries: Seq<EntryView>, key: FlowKey) -> Seq<FlowView>
    decreases entries.len(),
{
    if entries.len() == 0 {
        Seq::empty()
    } else {
        let earlier = flows_under(entries.drop_last(), key);
        if key_of(entries.last()) == key {
            earlier + entries.last().1
        } else {
            earlier
        }
    }
}

/// Whether every transaction id among `entries` comes with one block time
/// only.
pub open spec fn consistent(entries: Seq<EntryView>) -> bool {
    forall|i: int, j: int|
        0 <= i < entries.len() && 0 <= j < entries.len() && (#[trigger] entries[i]).0.txid == (
        #[trigger] entries[j]).0.txid ==> entries[i].0.blocktime == entries[j].0.blocktime
}

/// The grouping of `entries`: a key for each entry's transaction, and under
/// it the flows of all entries with that key.
pub open spec fn grouped(entries: Seq<EntryView>) -> Grouping {
    Map::new(|k: FlowKey| has_key(entries, k), |k: FlowKey| flows_under(entries, k))
}

/// The keys of `entries` in the order in which they first occur.
pub open spec fn first_keys(entries: Seq<EntryView>) -> Seq<FlowKey>
    decreases entries.len(),
{
    if entries.len() == 0 {
        Seq::empty()
    } else {
        let earlier = first_keys(entries.drop_last());
        if has_key(entries.drop_last(), key_of(entries.last())) {
            earlier
        } else {
            earlier.push(key_of(entries.last()))
        }
    }
}

/// The views of several histories, in order.
pub open spec fn histories_view(histories: Seq<TransactionFlowsForAddress>) -> Seq<Seq<EntryView>> {
    histories.map_values(|h: TransactionFlowsForAddress| h@)
}

/// Whether `table` holds the transaction with the id `txid` under another
/// block time than `blocktime`.
pub open spec fn clashes(table: Grouping, txid: Seq<char>, blocktime: i64) -> bool {
    exists|other: i64| other != blocktime && #[trigger] table.dom().contains((txid, other))
}

/// `table` with `flows` joined to what it holds under `key`.
pub open spec fn merged(table: Grouping, key: FlowKey, flows: Seq<FlowView>) -> Grouping {
    table.insert(
        key,
        if table.dom().contains(key) {
            table[key] + flows
        } else {
            flows
        },
    )
}

/// The flows that a batch of addresses contributes for one transaction.
#[derive(Debug, PartialEq, Eq)]
pub struct GroupedFlows {
    /// The transaction's id.
    pub txid: String,
    /// The transaction's block time.
    pub blocktime: i64,
    /// The flows, address by address in the order of the batch.
    pub flows: Vec<TransactionFlow>,
}

impl GroupedFlows {
    /// The key of the group.
    pub open spec fn key(self) -> FlowKey {
        (self.txid@, self.blocktime)
    }
}

/// Whether some group among `groups` has the key `key`.
pub open spec fn has_group(groups: Seq<GroupedFlows>, key: FlowKey) -> bool {
    exists|i: int| 0 <= i < groups.len() && (#[trigger] groups[i]).key() == key
}

/// The place of a group with the key `key` among `groups`.
pub open spec fn group_at(groups: Seq<GroupedFlows>, key: FlowKey) -> int {
    choose|i: int| 0 <= i < groups.len() && (#[trigger] groups[i]).key() == key
}

/// Whether no two groups among `groups` are for the same transaction id.
pub open spec fn one_group_per_txid(groups: Seq<GroupedFlows>) -> bool {
    forall|i: int, j: int|
        0 <= i < j < groups.len() ==> (#[trigger] groups[i]).txid@ != (#[trigger] groups[j]).txid@
}

/// The keys of a list of groups, in order.
pub open spec fn keys_of(groups: Seq<GroupedFlows>) -> Seq<FlowKey> {
    groups.map_values(|g: GroupedFlows| g.key())
}

/// The grouping that a list of groups stands for.
pub open spec fn grouping_of(groups: Seq<GroupedFlows>) -> Grouping {
    Map::new(
        |k: FlowKey| has_group(groups, k),
        |k: FlowKey| flows_view(groups[group_at(groups, k)].flows@),
    )
}

/// The flows of a batch of addresses, grouped by transaction. A transaction
/// id occurs in one group only, so it has one block time in the table.
#[derive(Debug, PartialEq, Eq)]
pub struct GroupedFlowTable {
    groups: Vec<GroupedFlows>,
}

impl View for GroupedFlowTable {
    type V = Grouping;

    closed spec fn view(&self) -> Grouping {
        grouping_of(self.groups@)
    }
}

/// Joins copies of the flows in `more` to the end of `flows`.
fn append_flows(flows: &mut Vec<TransactionFlow>, more: &Vec<TransactionFlow>)
    ensures
        flows_view(final(flows)@) == flows_view(old(flows)@) + flows_view(more@),
{
    let mut i: usize = 0;
    assert(flows_view(flows@) =~= flows_view(old(flows)@) + flows_view(more@.take(0)));
    while i < more.len()
        invariant
            i <= more.len(),
            flows_view(flows@) == flows_view(old(flows)@) + flows_view(more@.take(i as int)),
        decreases more.len() - i,
    {
        let ghost before = flows@;
        flows.push(more[i].clone());
        assert(flows_view(flows@) =~= flows_view(before).push(more@[i as int]@));
        assert(flows_view(more@.take(i + 1)) =~= flows_view(more@.take(i as int)).push(
            more@[i as int]@,
        ));
        assert(flows_view(flows@) =~= flows_view(old(flows)@) + flows_view(more@.take(i + 1)));
        i += 1;
    }
    assert(more@.take(i as int) == more@);
}

impl GroupedFlowTable {
    #[verifier::type_invariant]
    spec fn well_formed(self) -> bool {
        one_group_per_txid(self.groups@)
    }

    /// The keys of the table, in the order in which they were first added.
    pub closed spec fn keys(&self) -> Seq<FlowKey> {
        keys_of(self.groups@)
    }

    /// An empty table.
    pub fn new() -> (res: Self)
        ensures
            res@ == Map::<FlowKey, Seq<FlowView>>::empty(),
            res.keys() == Seq::<FlowKey>::empty(),
    {
        let res = GroupedFlowTable { groups: Vec::new() };
        assert(res@ =~= Map::<FlowKey, Seq<FlowView>>::empty());
        assert(res.keys() =~= Seq::<FlowKey>::empty());
        res
    }

    /// The groups, in the order in which their keys were first added: one
    /// group for each key of the table, holding the flows under that key.
    pub fn groups(&self) -> (res: &Vec<GroupedFlows>)
        ensures
            one_group_per_txid(res@),
            self@ == grouping_of(res@),
            self.keys() == keys_of(res@),
    {
        proof {
            use_type_invariant(self);
        }
        &self.groups
    }

    /// The flows grouped under a transaction id and block time, if any.
    pub fn get(&self, txid: &String, blocktime: i64) -> (res: Option<&Vec<TransactionFlow>>)
        ensures
            match res {
                Some(flows) => self@.dom().contains((txid@, blocktime)) && self@[(txid@, blocktime)]
                    == flows_view(flows@),
                None => !self@.dom().contains((txid@, blocktime)),
            },
    {
        proof {
            use_type_invariant(self);
        }
        let ghost key = (txid@, blocktime);
        let mut i: usize = 0;
        while i < self.groups.len()
            invariant
                i <= self.groups.len(),
                key == (txid@, blocktime),
                one_group_per_txid(self.groups@),
                forall|k: int| 0 <= k < i ==> (#[trigger] self.groups@[k]).key() != key,
            decreases self.groups.len() - i,
        {
            if self.groups[i].txid == *txid && self.groups[i].blocktime == blocktime {
                proof {
                    assert(has_group(self.groups@, key));
                    let p = group_at(self.groups@, key);
                    assert(self.groups@[p].txid@ == self.groups@[i as int].txid@);
                    assert(p == i);
                }
                return Some(&self.groups[i].flows);
            }
            i += 1;
        }
        None
    }

    /// Adds the flows that one address contributes for the transaction `tx`.
    ///
    /// Where the table has no group for the transaction, one is begun with
    /// copies of `flows`; where it has one under the same block time, the
    /// copies are joined to its end. Where it holds the transaction under
    /// another block time, nothing changes and `InconsistentBlocktime` is
    /// returned.
    pub fn add(&mut self, tx: &Transaction, flows: &Vec<TransactionFlow>) -> (res: Result<
        (),
        FlowError,
    >)
        ensures
            match res {
                Ok(()) => !clashes(old(self)@, tx@.txid, tx@.blocktime) && final(self)@ == merged(
                    old(self)@,
                    (tx@.txid, tx@.blocktime),
                    flows_view(flows@),
                ) && final(self).keys() == if old(self)@.dom().contains(
                    (tx@.txid, tx@.blocktime),
                ) {
                    old(self).keys()
                } else {
                    old(self).keys().push((tx@.txid, tx@.blocktime))
                },
                Err(e) => e == FlowError::InconsistentBlocktime && clashes(
                    old(self)@,
                    tx@.txid,
                    tx@.blocktime,
                ) && final(self)@ == old(self)@ && final(self).keys() == old(self).keys(),
            },
    {
        proof {
            use_type_invariant(&*self);
        }
        let ghost key = (tx@.txid, tx@.blocktime);
        let ghost before = self.groups@;
        let mut i: usize = 0;
        while i < self.groups.len() && self.groups[i].txid != tx.txid
            invariant
                i <= self.groups.len(),
                self.groups@ == before,
                forall|k: int| 0 <= k < i ==> (#[trigger] before[k]).txid@ != tx@.txid,
            decreases self.groups.len() - i,
        {
            i += 1;
        }
        if i < self.groups.len() && self.groups[i].blocktime != tx.blocktime {
            proof {
                let other = before[i as int].key();
                assert(has_group(before, other));
                assert(old(self)@.dom().contains((key.0, other.1)));
                assert(clashes(old(self)@, key.0, key.1));
            }
            return Err(FlowError::InconsistentBlocktime);
        }
        proof {
            assert forall|blocktime: i64| blocktime != key.1 implies !self@.dom().contains(
                (key.0, blocktime),
            ) by {
                let other = (key.0, blocktime);
                if has_group(before, other) {
                    let p = group_at(before, other);
                    assert(before[p].txid@ == key.0);
                    if i < before.len() {
                        assert(before[p].txid@ == before[i as int].txid@);
                    }
                }
            }
        }
        // The list is taken out, changed and put back, so that the table is
        // well formed at every point where a call could unwind.
        let mut groups: Vec<GroupedFlows> = Vec::new();
        core::mem::swap(&mut self.groups, &mut groups);
        if i < groups.len() {
            let mut joined = clone_flows(&groups[i].flows);
            append_flows(&mut joined, flows);
            groups.set(i, GroupedFlows { txid: tx.txid.clone(), blocktime: tx.blocktime, flows: joined });
        } else {
            groups.push(
                GroupedFlows { txid: tx.txid.clone(), blocktime: tx.blocktime, flows: clone_flows(flows) },
            );
        }
        proof {
            let after = groups@;
            let at = i as int;
            assert(after.len() == if at < before.len() { before.len() } else { before.len() + 1 });
            assert(after[at].key() == key);
            assert forall|k: int| 0 <= k < after.len() && k != at implies after[k] == before[k] by {}
            assert forall|k: int| 0 <= k < after.len() implies (#[trigger] after[k]).txid@ == (if k
                == at {
                key.0
            } else {
                before[k].txid@
            }) by {}
            assert(one_group_per_txid(after)) by {
                assert forall|a: int, b: int| 0 <= a < b < after.len() implies (#[trigger] after[a]).txid@
                    != (#[trigger] after[b]).txid@ by {
                    if a != at && b != at {
                        assert(before[a].txid@ != before[b].txid@);
                    } else if at < before.len() {
                        if a == at {
                            assert(before[a].txid@ != before[b].txid@);
                        } else {
                            assert(before[a].txid@ != before[b].txid@);
                        }
                    } else {
                        assert(before[a].txid@ != key.0);
                    }
                }
            }
            assert forall|k: FlowKey| has_group(after, k) <==> (has_group(before, k) || k
                == key) by {
                if has_group(before, k) {
                    let p = group_at(before, k);
                    if p == at {
                        assert(before[p].key() == key);
                    } else {
                        assert(after[p].key() == k);
                    }
                }
                if k == key {
                    assert(after[at].key() == k);
                }
                if has_group(after, k) {
                    let p = group_at(after, k);
                    if p != at {
                        assert(before[p].key() == k);
                    }
                }
            }
            assert forall|k: FlowKey| has_group(after, k) implies flows_view(
                after[group_at(after, k)].flows@,
            ) == merged(grouping_of(before), key, flows_view(flows@))[k] by {
                let p = group_at(after, k);
                if k == key {
                    assert(after[p].txid@ == after[at].txid@);
                    assert(p == at);
                    if at < before.len() {
                        assert(before[at].key() == key);
                        assert(has_group(before, key));
                        let q = group_at(before, key);
                        assert(before[q].txid@ == before[at].txid@);
                        assert(q == at);
                    } else {
                        if has_group(before, key) {
                            let q = group_at(before, key);
                            assert(before[q].txid@ == key.0);
                        }
                    }
                } else {
                    assert(p != at);
                    assert(before[p].key() == k);
                    let q = group_at(before, k);
                    assert(before[q].txid@ == before[p].txid@);
                    assert(q == p);
                }
            }
            assert(grouping_of(after) =~= merged(grouping_of(before), key, flows_view(flows@)));
            if at < before.len() {
                assert(before[at].key() == key);
                assert(has_group(before, key));
                assert(keys_of(after) =~= keys_of(before));
            } else {
                if has_group(before, key) {
                    let q = group_at(before, key);
                    assert(before[q].txid@ == key.0);
                }
                assert(keys_of(after) =~= keys_of(before).push(key));
            }
        }
        core::mem::swap(&mut self.groups, &mut groups);
        Ok(())
    }
}

/// No entry under a key, no flows under it.
proof fn lemma_no_key_no_flows(entries: Seq<EntryView>, key: FlowKey)
    requires
        !has_key(entries, key),
    ensures
        flows_under(entries, key) == Seq::<FlowView>::empty(),
    decreases entries.len(),
{
    if entries.len() > 0 {
        let earlier = entries.drop_last();
        assert(key_of(entries[entries.len() - 1]) != key);
        assert forall|i: int| 0 <= i < earlier.len() implies key_of(#[trigger] earlier[i])
            != key by {
            assert(earlier[i] == entries[i]);
        }
        lemma_no_key_no_flows(earlier, key);
    }
}

/// Grouping one more entry joins its flows to those under its key.
proof fn lemma_grouped_push(entries: Seq<EntryView>, entry: EntryView)
    ensures
        grouped(entries.push(entry)) == merged(grouped(entries), key_of(entry), entry.1),
{
    let longer = entries.push(entry);
    assert(longer.drop_last() == entries);
    assert(longer.last() == entry);
    assert forall|k: FlowKey| has_key(longer, k) <==> (has_key(entries, k) || k == key_of(
        entry,
    )) by {
        if has_key(entries, k) {
            let i = choose|i: int| 0 <= i < entries.len() && key_of(#[trigger] entries[i]) == k;
            assert(key_of(longer[i]) == k);
        }
        if k == key_of(entry) {
            assert(key_of(longer[entries.len() as int]) == k);
        }
        if has_key(longer, k) {
            let i = choose|i: int| 0 <= i < longer.len() && key_of(#[trigger] longer[i]) == k;
            if i < entries.len() {
                assert(key_of(entries[i]) == k);
            }
        }
    }
    if !has_key(entries, key_of(entry)) {
        lemma_no_key_no_flows(entries, key_of(entry));
        assert(Seq::<FlowView>::empty() + entry.1 =~= entry.1);
    }
    assert(grouped(longer) =~= merged(grouped(entries), key_of(entry), entry.1));
}

/// One more entry keeps the block times consistent unless the grouping so
/// far holds its transaction under another block time.
proof fn lemma_consistent_push(entries: Seq<EntryView>, entry: EntryView)
    requires
        consistent(entries),
    ensures
        consistent(entries.push(entry)) <==> !clashes(
            grouped(entries),
            entry.0.txid,
            entry.0.blocktime,
        ),
{
    let longer = entries.push(entry);
    let last = entries.len() as int;
    if clashes(grouped(entries), entry.0.txid, entry.0.blocktime) {
        let blocktime = choose|blocktime: i64|
            blocktime != entry.0.blocktime && #[trigger] grouped(entries).dom().contains(
                (entry.0.txid, blocktime),
            );
        let other = (entry.0.txid, blocktime);
        let i = choose|i: int| 0 <= i < entries.len() && key_of(#[trigger] entries[i]) == other;
        assert(longer[i].0.txid == longer[last].0.txid);
        assert(longer[i].0.blocktime != longer[last].0.blocktime);
    } else {
        assert forall|i: int, j: int|
            0 <= i < longer.len() && 0 <= j < longer.len() && (#[trigger] longer[i]).0.txid == (
            #[trigger] longer[j]).0.txid implies longer[i].0.blocktime
            == longer[j].0.blocktime by {
            if i < last && j < last {
                assert(entries[i].0.txid == entries[j].0.txid);
            } else if i < last || j < last {
                let k = if i < last {
                    i
                } else {
                    j
                };
                let blocktime = entries[k].0.blocktime;
                assert(longer[k] == entries[k]);
                if blocktime != entry.0.blocktime {
                    assert(key_of(entries[k]) == (entry.0.txid, blocktime));
                    assert(grouped(entries).dom().contains((entry.0.txid, blocktime)));
                    assert(clashes(grouped(entries), entry.0.txid, entry.0.blocktime));
                }
            }
        }
    }
}

/// What is inconsistent stays so however it goes on.
proof fn lemma_inconsistent_prefix(prefix: Seq<EntryView>, entries: Seq<EntryView>)
    requires
        prefix.is_prefix_of(entries),
        !consistent(prefix),
    ensures
        !consistent(entries),
{
    let (i, j) = choose|i: int, j: int|
        0 <= i < prefix.len() && 0 <= j < prefix.len() && (#[trigger] prefix[i]).0.txid == (
        #[trigger] prefix[j]).0.txid && prefix[i].0.blocktime != prefix[j].0.blocktime;
    assert(entries[i] == prefix[i]);
    assert(entries[j] == prefix[j]);
}

/// The entries of the first histories, and the first entries of the next
/// one, begin the entries of all histories.
proof fn lemma_flatten_prefix(histories: Seq<Seq<EntryView>>, a: int, b: int)
    requires
        0 <= a < histories.len(),
        0 <= b <= histories[a].len(),
    ensures
        histories.take(a + 1).flatten() == histories.take(a).flatten() + histories[a],
        (histories.take(a).flatten() + histories[a].take(b)).is_prefix_of(histories.flatten()),
{
    let head = histories.take(a);
    assert(histories.take(a + 1) == head.push(histories[a]));
    head.lemma_flatten_push(histories[a]);
    assert(histories == histories.take(a + 1) + histories.skip(a + 1));
    lemma_flatten_concat(histories.take(a + 1), histories.skip(a + 1));
}

/// Groups the flows of several addresses by transaction.
///
/// The table has a key for the transaction of every history entry, made of
/// the transaction's id and block time, and holds under it the flows of all
/// entries with that key: the addresses in the order given, each address's
/// flows in their own order, nothing left out and nothing merged away. The
/// keys stand in the order in which they first occur. Where two entries give
/// one transaction id with two block times, the result is
/// `InconsistentBlocktime`.
pub fn organize_transaction_flows_for_mulitple_addresses_by_txid_and_blocktime(
    transaction_flows_for_addresses: Vec<TransactionFlowsForAddress>,
) -> (res: Result<GroupedFlowTable, FlowError>)
    ensures
        match res {
            Ok(table) => {
                let entries = histories_view(transaction_flows_for_addresses@).flatten();
                consistent(entries) && table@ == grouped(entries) && table.keys() == first_keys(
                    entries,
                )
            },
            Err(e) => e == FlowError::InconsistentBlocktime && !consistent(
                histories_view(transaction_flows_for_addresses@).flatten(),
            ),
        },
{
    let histories = &transaction_flows_for_addresses;
    let ghost all = histories_view(transaction_flows_for_addresses@);
    let ghost mut done: Seq<EntryView> = Seq::empty();
    let mut table = GroupedFlowTable::new();
    let mut a: usize = 0;
    assert(table@ =~= grouped(done));
    assert(all.take(0) == Seq::<Seq<EntryView>>::empty());
    assert(table.keys() == first_keys(done));
    while a < histories.len()
        invariant
            a <= histories.len(),
            histories@ == transaction_flows_for_addresses@,
            all == histories_view(transaction_flows_for_addresses@),
            done == all.take(a as int).flatten(),
            consistent(done),
            table@ == grouped(done),
            table.keys() == first_keys(done),
        decreases histories.len() - a,
    {
        let entries = &histories[a].0;
        let ghost head = done;
        let mut b: usize = 0;
        assert(all[a as int] == entries_view(entries@));
        assert(all[a as int].take(0) == Seq::<EntryView>::empty());
        assert(head + all[a as int].take(0) == head);
        while b < entries.len()
            invariant
                a < histories.len(),
                b <= entries.len(),
                all == histories_view(transaction_flows_for_addresses@),
                all.len() == histories.len(),
                all[a as int] == entries_view(entries@),
                head == all.take(a as int).flatten(),
                done == head + all[a as int].take(b as int),
                consistent(done),
                table@ == grouped(done),
                table.keys() == first_keys(done),
            decreases entries.len() - b,
        {
            let entry = &entries[b];
            let tx = &entry.0.0;
            let flows = &entry.0.1;
            let ghost longer = done.push(entry@);
            proof {
                assert(entry@ == all[a as int][b as int]);
                assert(all[a as int].take(b + 1) == all[a as int].take(b as int).push(entry@));
                assert(longer == head + all[a as int].take(b + 1));
                lemma_consistent_push(done, entry@);
                lemma_grouped_push(done, entry@);
                assert(longer.drop_last() == done);
            }
            match table.add(tx, flows) {
                Ok(()) => {},
                Err(e) => {
                    proof {
                        lemma_flatten_prefix(all, a as int, b + 1);
                        lemma_inconsistent_prefix(longer, all.flatten());
                    }
                    return Err(e);
                },
            }
            proof {
                done = longer;
            }
            b += 1;
        }
        proof {
            assert(all[a as int].take(b as int) == all[a as int]);
            lemma_flatten_prefix(all, a as int, 0);
        }
        a += 1;
    }
    assert(all.take(a as int) == all);
    Ok(table)
}

/// Merging keeps the order: under every key, the flows of a batch that is
/// made of two parts are the flows of the first part followed by the flows
/// of the second.
pub proof fn law_grouping_joins_in_order(first: Seq<EntryView>, second: Seq<EntryView>, key: FlowKey)
    ensures
        flows_under(first + second, key) == flows_under(first, key) + flows_under(second, key),
        has_key(first + second, key) <==> has_key(first, key) || has_key(second, key),
    decreases second.len(),
{
    let both = first + second;
    if second.len() == 0 {
        assert(both == first);
        assert(flows_under(first, key) + Seq::<FlowView>::empty() == flows_under(first, key));
    } else {
        assert(both.drop_last() == first + second.drop_last());
        assert(both.last() == second.last());
        law_grouping_joins_in_order(first, second.drop_last(), key);
        let a = flows_under(first, key);
        let b = flows_under(second.drop_last(), key);
        assert((a + b) + second.last().1 == a + (b + second.last().1));
    }
    if has_key(first, key) {
        let i = choose|i: int| 0 <= i < first.len() && key_of(#[trigger] first[i]) == key;
        assert(key_of(both[i]) == key);
    }
    if has_key(second, key) {
        let i = choose|i: int| 0 <= i < second.len() && key_of(#[trigger] second[i]) == key;
        assert(key_of(both[first.len() + i]) == key);
    }
    if has_key(both, key) {
        let i = choose|i: int| 0 <= i < both.len() && key_of(#[trigger] both[i]) == key;
        if i < first.len() {
            assert(key_of(first[i]) == key);
        } else {
            assert(key_of(second[i - first.len()]) == key);
        }
    }
}

/// The table of two histories holds, under every key, the flows that the
/// first history has for it followed by those that the second has.
pub proof fn law_grouping_of_two_histories(
    first: Seq<EntryView>,
    second: Seq<EntryView>,
    key: FlowKey,
)
    requires
        has_key(first, key) || has_key(second, key),
    ensures
        seq![first, second].flatten() == first + second,
        grouped(seq![first, second].flatten()).dom().contains(key),
        grouped(seq![first, second].flatten())[key] == flows_under(first, key) + flows_under(
            second,
            key,
        ),
{
    let none = Seq::<Seq<EntryView>>::empty();
    assert(seq![first, second] == none.push(first).push(second));
    none.lemma_flatten_push(first);
    none.push(first).lemma_flatten_push(second);
    assert(Seq::<EntryView>::empty() + first == first);
    law_grouping_joins_in_order(first, second, key);
}

/// In the table of a consistent batch a transaction id stands under one
/// key only.
pub proof fn law_one_key_per_transaction(entries: Seq<EntryView>, one: FlowKey, other: FlowKey)
    requires
        consistent(entries),
        grouped(entries).dom().contains(one),
        grouped(entries).dom().contains(other),
        one.0 == other.0,
    ensures
        one == other,
{
    let i = choose|i: int| 0 <= i < entries.len() && key_of(#[trigger] entries[i]) == one;
    let j = choose|j: int| 0 <= j < entries.len() && key_of(#[trigger] entries[j]) == other;
    assert(entries[i].0.txid == entries[j].0.txid);
}

} // verus!
