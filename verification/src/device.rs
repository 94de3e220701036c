//! Device records and the device table.
//!
//! A table maps each identifier to one connection state. It keeps its records
//! in ascending order of identifier, so that two tables with the same mapping
//! list their records alike.

use crate::lexical::{
    ascending, ascending_list, lemma_ascending_list_is, lemma_text_precedes_asymmetric,
    lemma_text_precedes_total, lemma_text_precedes_transitive, same_text, text_precede,
    text_precedes,
};
use vstd::prelude::*;

verus! {

/// Connection state of a device, as the server reports it.
///
/// The server's words for the states are `online`, `offline`, `unauthorized`
/// and `bootloader`; any other word is read as `Other`. Only a device that is
/// `Online` counts as present.
#[derive(Clone, Copy, Debug, PartialEq, Eq, Hash, Structural)]
pub enum DeviceState {
    Online,
    Offline,
    Unauthorized,
    Bootloader,
    Other,
}

impl DeviceState {
    /// Whether a device in this state counts as present.
    pub open spec fn present(self) -> bool {
        self is Online
    }

    /// Whether a device in this state counts as present.
    pub fn is_present(self) -> (present: bool)
        ensures
            present == self.present(),
    {
        match self {
            DeviceState::Online => true,
            _ => false,
        }
    }
}

/// One device: its identifier and its connection state.
#[derive(Clone, Debug, PartialEq, Eq)]
pub struct DeviceRecord {
    pub identifier: String,
    pub state: DeviceState,
}

/// The identifiers of `records`, in the order of the records.
pub open spec fn identifiers_of(records: Seq<DeviceRecord>) -> Seq<Seq<char>> {
    Seq::new(records.len(), |i: int| records[i].identifier@)
}

/// The mapping that `records` list: each identifier with the state of its
/// record.
pub open spec fn table_of(records: Seq<DeviceRecord>) -> Map<Seq<char>, DeviceState> {
    Map::new(
        |identifier: Seq<char>| identifiers_of(records).contains(identifier),
        |identifier: Seq<char>| records[identifiers_of(records).index_of(identifier)].state,
    )
}

/// Whether `table` holds `identifier` in a state that counts as present.
pub open spec fn online_in(table: Map<Seq<char>, DeviceState>, identifier: Seq<char>) -> bool {
    table.contains_key(identifier) && table[identifier].present()
}

/// A mapping from identifier to connection state.
#[derive(Clone, Debug, PartialEq, Eq)]
pub struct DeviceTable {
    records: Vec<DeviceRecord>,
}

impl View for DeviceTable {
    type V = Map<Seq<char>, DeviceState>;

    open spec fn view(&self) -> Map<Seq<char>, DeviceState> {
        table_of(self.listing())
    }
}

impl DeviceTable {
    /// The records of the table, in the order in which it keeps them.
    pub closed spec fn listing(&self) -> Seq<DeviceRecord> {
        self.records@
    }

    /// The records are in ascending order of identifier; so no identifier
    /// occurs twice.
    pub open spec fn wf(&self) -> bool {
        ascending(identifiers_of(self.listing()))
    }

    /// The empty table.
    pub fn new() -> (table: DeviceTable)
        ensures
            table.wf(),
            table@ == Map::<Seq<char>, DeviceState>::empty(),
            table.listing().len() == 0,
    {
        let table = DeviceTable { records: Vec::new() };
        assert(table@ =~= Map::<Seq<char>, DeviceState>::empty());
        table
    }

    /// Number of devices in the table.
    pub fn len(&self) -> (n: usize)
        requires
            self.wf(),
        ensures
            n == self@.len(),
            n == self.listing().len(),
    {
        proof {
            lemma_table_size(self.listing());
        }
        self.records.len()
    }

    /// Whether the table holds no device.
    pub fn is_empty(&self) -> (empty: bool)
        requires
            self.wf(),
        ensures
            empty == (self@ == Map::<Seq<char>, DeviceState>::empty()),
    {
        proof {
            if self.listing().len() > 0 {
                lemma_table_entry(self.listing(), 0);
            } else {
                assert(self@ =~= Map::<Seq<char>, DeviceState>::empty());
            }
        }
        self.records.len() == 0
    }

    /// The records, in ascending order of identifier.
    pub fn records(&self) -> (records: &Vec<DeviceRecord>)
        ensures
            records@ == self.listing(),
    {
        &self.records
    }

    /// The state of the device `identifier`, if the table holds it.
    pub fn get(&self, identifier: &str) -> (state: Option<DeviceState>)
        requires
            self.wf(),
        ensures
            state is Some <==> self@.contains_key(identifier@),
            state matches Some(s) ==> s == self@[identifier@],
    {
        let mut i: usize = 0;
        while i < self.records.len()
            invariant
                self.wf(),
                i <= self.records@.len(),
                forall|k: int| 0 <= k < i ==> self.records@[k].identifier@ != identifier@,
            decreases self.records@.len() - i,
        {
            if same_text(self.records[i].identifier.as_str(), identifier) {
                proof {
                    lemma_table_entry(self.listing(), i as int);
                }
                return Some(self.records[i].state);
            }
            i = i + 1;
        }
        proof {
            let ids = identifiers_of(self.listing());
            if ids.contains(identifier@) {
                let k = choose|k: int| 0 <= k < ids.len() && ids[k] == identifier@;
                assert(self.records@[k].identifier@ == identifier@);
            }
        }
        None
    }

    /// Whether the table holds the device `identifier` in a state that counts
    /// as present.
    pub fn is_online(&self, identifier: &str) -> (online: bool)
        requires
            self.wf(),
        ensures
            online == online_in(self@, identifier@),
    {
        match self.get(identifier) {
            Some(state) => state.is_present(),
            None => false,
        }
    }

    /// Records `state` for `identifier`, in place of the state that the table
    /// held for it, if any.
    pub fn insert(&mut self, identifier: String, state: DeviceState)
        requires
            old(self).wf(),
        ensures
            final(self).wf(),
            final(self)@ == old(self)@.insert(identifier@, state),
    {
        let mut at: usize = 0;
        while at < self.records.len() && text_precede(
            self.records[at].identifier.as_str(),
            identifier.as_str(),
        )
            invariant
                *self == *old(self),
                at <= self.records@.len(),
                forall|k: int|
                    0 <= k < at ==> text_precedes(
                        #[trigger] self.records@[k].identifier@,
                        identifier@,
                    ),
            decreases self.records@.len() - at,
        {
            at = at + 1;
        }
        let ghost before = self.listing();
        if at < self.records.len() && same_text(
            self.records[at].identifier.as_str(),
            identifier.as_str(),
        ) {
            let record = DeviceRecord { identifier, state };
            self.records.set(at, record);
            proof {
                lemma_replace(before, at as int, record);
            }
        } else {
            let record = DeviceRecord { identifier, state };
            proof {
                if at < before.len() {
                    lemma_text_precedes_total(before[at as int].identifier@, record.identifier@);
                }
                lemma_insert(before, at as int, record);
            }
            self.records.insert(at, record);
        }
    }
}

/// In an ascending listing each record is found under its identifier.
pub proof fn lemma_table_entry(records: Seq<DeviceRecord>, i: int)
    requires
        ascending(identifiers_of(records)),
        0 <= i < records.len(),
    ensures
        identifiers_of(records).index_of(records[i].identifier@) == i,
        table_of(records).contains_key(records[i].identifier@),
        table_of(records)[records[i].identifier@] == records[i].state,
{
    let ids = identifiers_of(records);
    assert(ids[i] == records[i].identifier@);
    let k = ids.index_of(records[i].identifier@);
    assert(0 <= k < ids.len() && ids[k] == ids[i]);
    if k < i {
        lemma_text_precedes_asymmetric(ids[k], ids[i]);
    }
    if i < k {
        lemma_text_precedes_asymmetric(ids[i], ids[k]);
    }
}

/// The identifiers of an ascending listing are the ascending list of the
/// table's identifiers.
pub proof fn lemma_table_identifiers(records: Seq<DeviceRecord>)
    requires
        ascending(identifiers_of(records)),
    ensures
        ascending_list(table_of(records).dom()) == identifiers_of(records),
{
    lemma_ascending_list_is(identifiers_of(records), table_of(records).dom());
}

/// A table has as many devices as its ascending listing has records.
pub proof fn lemma_table_size(records: Seq<DeviceRecord>)
    requires
        ascending(identifiers_of(records)),
    ensures
        table_of(records).dom().finite(),
        table_of(records).dom().len() == records.len(),
    decreases records.len(),
{
    if records.len() == 0 {
        assert(table_of(records).dom() =~= Set::<Seq<char>>::empty());
    } else {
        let shorter = records.drop_last();
        let last = records.last().identifier@;
        assert forall|i: int, j: int| 0 <= i < j < shorter.len() implies text_precedes(
            identifiers_of(shorter)[i],
            identifiers_of(shorter)[j],
        ) by {
            assert(identifiers_of(records)[i] == identifiers_of(shorter)[i]);
            assert(identifiers_of(records)[j] == identifiers_of(shorter)[j]);
        }
        lemma_table_size(shorter);
        assert(!table_of(shorter).dom().contains(last)) by {
            if identifiers_of(shorter).contains(last) {
                let k = choose|k: int|
                    0 <= k < shorter.len() && identifiers_of(shorter)[k] == last;
                assert(identifiers_of(records)[k] == last);
                assert(identifiers_of(records)[records.len() - 1] == last);
                lemma_text_precedes_asymmetric(
                    identifiers_of(records)[k],
                    identifiers_of(records)[records.len() - 1],
                );
            }
        }
        assert(table_of(records).dom() =~= table_of(shorter).dom().insert(last)) by {
            assert forall|id: Seq<char>| table_of(records).dom().contains(id) implies table_of(
                shorter,
            ).dom().insert(last).contains(id) by {
                let k = choose|k: int|
                    0 <= k < records.len() && identifiers_of(records)[k] == id;
                if k < shorter.len() {
                    assert(identifiers_of(shorter)[k] == id);
                }
            }
            assert forall|id: Seq<char>|
                table_of(shorter).dom().insert(last).contains(id) implies table_of(
                records,
            ).dom().contains(id) by {
                if id == last {
                    assert(identifiers_of(records)[records.len() - 1] == id);
                } else {
                    let k = choose|k: int|
                        0 <= k < shorter.len() && identifiers_of(shorter)[k] == id;
                    assert(identifiers_of(records)[k] == id);
                }
            }
        }
    }
}

/// Putting a new state in the place of a record's state.
proof fn lemma_replace(records: Seq<DeviceRecord>, at: int, record: DeviceRecord)
    requires
        ascending(identifiers_of(records)),
        0 <= at < records.len(),
        records[at].identifier@ == record.identifier@,
    ensures
        ascending(identifiers_of(records.update(at, record))),
        table_of(records.update(at, record)) == table_of(records).insert(
            record.identifier@,
            record.state,
        ),
{
    let after = records.update(at, record);
    assert(identifiers_of(after) =~= identifiers_of(records));
    assert(identifiers_of(records)[at] == record.identifier@);
    assert forall|id: Seq<char>| #[trigger]
        table_of(after).contains_key(id) implies table_of(after)[id] == table_of(
        records,
    ).insert(record.identifier@, record.state)[id] by {
        let k = identifiers_of(after).index_of(id);
        lemma_table_entry(after, k);
        lemma_table_entry(records, k);
        lemma_table_entry(records, at);
    }
    assert(table_of(after) =~= table_of(records).insert(record.identifier@, record.state));
}

/// Putting a record with a new identifier at its place in the order.
proof fn lemma_insert(records: Seq<DeviceRecord>, at: int, record: DeviceRecord)
    requires
        ascending(identifiers_of(records)),
        0 <= at <= records.len(),
        forall|k: int|
            0 <= k < at ==> text_precedes(#[trigger] records[k].identifier@, record.identifier@),
        at < records.len() ==> text_precedes(record.identifier@, records[at].identifier@),
    ensures
        ascending(identifiers_of(records.insert(at, record))),
        table_of(records.insert(at, record)) == table_of(records).insert(
            record.identifier@,
            record.state,
        ),
{
    let after = records.insert(at, record);
    let ids = identifiers_of(records);
    let new_ids = identifiers_of(after);
    assert forall|i: int, j: int| 0 <= i < j < new_ids.len() implies text_precedes(
        new_ids[i],
        new_ids[j],
    ) by {
        if j < at {
            assert(new_ids[i] == ids[i] && new_ids[j] == ids[j]);
        } else if j == at {
            assert(new_ids[i] == records[i].identifier@);
        } else if i < at {
            assert(new_ids[i] == records[i].identifier@ && new_ids[j] == ids[j - 1]);
            if at < j - 1 {
                assert(text_precedes(ids[at], ids[j - 1]));
                lemma_text_precedes_transitive(record.identifier@, ids[at], ids[j - 1]);
            }
            lemma_text_precedes_transitive(new_ids[i], record.identifier@, ids[j - 1]);
        } else if i == at {
            assert(new_ids[j] == ids[j - 1]);
            if at < j - 1 {
                assert(text_precedes(ids[at], ids[j - 1]));
                lemma_text_precedes_transitive(record.identifier@, ids[at], ids[j - 1]);
            }
        } else {
            assert(new_ids[i] == ids[i - 1] && new_ids[j] == ids[j - 1]);
        }
    }
    let expected = table_of(records).insert(record.identifier@, record.state);
    assert forall|id: Seq<char>| table_of(after).contains_key(id) <==> expected.contains_key(
        id,
    ) by {
        if new_ids.contains(id) {
            let k = choose|k: int| 0 <= k < new_ids.len() && new_ids[k] == id;
            if k < at {
                assert(ids[k] == id);
            } else if k > at {
                assert(ids[k - 1] == id);
            }
        }
        if ids.contains(id) {
            let k = choose|k: int| 0 <= k < ids.len() && ids[k] == id;
            if k < at {
                assert(new_ids[k] == id);
            } else {
                assert(new_ids[k + 1] == id);
            }
        }
        if id == record.identifier@ {
            assert(new_ids[at] == id);
        }
    }
    assert forall|id: Seq<char>| #[trigger]
        table_of(after).contains_key(id) implies table_of(after)[id] == expected[id] by {
        let k = new_ids.index_of(id);
        lemma_table_entry(after, k);
        if k < at {
            lemma_table_entry(records, k);
            lemma_text_precedes_asymmetric(records[k].identifier@, record.identifier@);
        } else if k > at {
            lemma_table_entry(records, k - 1);
            if at < k - 1 {
                assert(text_precedes(ids[at], ids[k - 1]));
                lemma_text_precedes_transitive(record.identifier@, ids[at], ids[k - 1]);
            }
            lemma_text_precedes_asymmetric(record.identifier@, ids[k - 1]);
        }
    }
    assert(table_of(after) =~= expected);
}

} // verus!
