//! The difference between two successive device tables, and the
//! notifications that it calls for.
//!
//! A device appears when the new table holds it as present and the previous
//! table did not; it disappears when the previous table held it as present and
//! the new table does not. A device that passes from one state that does not
//! count as present to another does neither.

use crate::device::{
    identifiers_of, lemma_table_entry, online_in, DeviceState, DeviceTable,
};
use crate::lexical::{
    ascending, ascending_list, lemma_ascending_list_is, lemma_ascending_list_lists,
    lists_ascending, text_precedes,
};
use vstd::prelude::*;
use vstd::set_lib::lemma_set_subset_finite;

verus! {

/// The identifiers that are present in `next` and were not present in
/// `previous`.
pub open spec fn appeared_set(
    previous: Map<Seq<char>, DeviceState>,
    next: Map<Seq<char>, DeviceState>,
) -> Set<Seq<char>> {
    Set::new(|identifier: Seq<char>| online_in(next, identifier) && !online_in(previous, identifier))
}

/// The identifiers that were present in `previous` and are not present in
/// `next`.
pub open spec fn disappeared_set(
    previous: Map<Seq<char>, DeviceState>,
    next: Map<Seq<char>, DeviceState>,
) -> Set<Seq<char>> {
    Set::new(|identifier: Seq<char>| online_in(previous, identifier) && !online_in(next, identifier))
}

/// What a snapshot diff holds: the identifiers that disappeared and those
/// that appeared, each list in ascending order.
pub struct DiffView {
    pub disappeared: Seq<Seq<char>>,
    pub appeared: Seq<Seq<char>>,
}

/// The diff between two tables.
pub open spec fn diff_between(
    previous: Map<Seq<char>, DeviceState>,
    next: Map<Seq<char>, DeviceState>,
) -> DiffView {
    DiffView {
        disappeared: ascending_list(disappeared_set(previous, next)),
        appeared: ascending_list(appeared_set(previous, next)),
    }
}

/// What a notification says: that a device went away, or that it came.
pub enum Notice {
    Disappeared(Seq<char>),
    Appeared(Seq<char>),
}

/// The notifications that a diff calls for: one for each identifier that
/// disappeared, then one for each that appeared.
pub open spec fn notices_of(diff: DiffView) -> Seq<Notice> {
    diff.disappeared.map_values(|identifier: Seq<char>| Notice::Disappeared(identifier))
        + diff.appeared.map_values(|identifier: Seq<char>| Notice::Appeared(identifier))
}

/// One call of the callback interface.
#[derive(Clone, Debug, PartialEq, Eq)]
pub enum Notification {
    /// The device with this identifier is no longer present.
    Disappeared(String),
    /// The device with this identifier has become present.
    Appeared(String),
}

impl DeepView for Notification {
    type V = Notice;

    open spec fn deep_view(&self) -> Notice {
        match self {
            Notification::Disappeared(identifier) => Notice::Disappeared(identifier@),
            Notification::Appeared(identifier) => Notice::Appeared(identifier@),
        }
    }
}

/// The identifiers that disappeared and those that appeared between two
/// tables.
#[derive(Clone, Debug, PartialEq, Eq)]
pub struct SnapshotDiff {
    pub disappeared: Vec<String>,
    pub appeared: Vec<String>,
}

impl View for SnapshotDiff {
    type V = DiffView;

    open spec fn view(&self) -> DiffView {
        DiffView {
            disappeared: self.disappeared.deep_view(),
            appeared: self.appeared.deep_view(),
        }
    }
}

impl SnapshotDiff {
    /// Whether nothing appeared and nothing disappeared.
    pub fn is_empty(&self) -> (empty: bool)
        ensures
            empty == (self.disappeared@.len() == 0 && self.appeared@.len() == 0),
    {
        self.disappeared.len() == 0 && self.appeared.len() == 0
    }

    /// The notifications to deliver, in the order of delivery: those for the
    /// devices that disappeared come before those for the devices that
    /// appeared.
    pub fn notifications(&self) -> (list: Vec<Notification>)
        ensures
            list.deep_view() == notices_of(self@),
    {
        let mut list: Vec<Notification> = Vec::new();
        let mut i: usize = 0;
        while i < self.disappeared.len()
            invariant
                i <= self.disappeared@.len(),
                list@.len() == i,
                forall|k: int|
                    0 <= k < i ==> list@[k].deep_view() == Notice::Disappeared(
                        self.disappeared@[k]@,
                    ),
            decreases self.disappeared@.len() - i,
        {
            list.push(Notification::Disappeared(self.disappeared[i].clone()));
            i = i + 1;
        }
        let mut j: usize = 0;
        while j < self.appeared.len()
            invariant
                j <= self.appeared@.len(),
                list@.len() == self.disappeared@.len() + j,
                forall|k: int|
                    0 <= k < self.disappeared@.len() ==> list@[k].deep_view()
                        == Notice::Disappeared(self.disappeared@[k]@),
                forall|k: int|
                    0 <= k < j ==> list@[self.disappeared@.len() + k].deep_view()
                        == Notice::Appeared(self.appeared@[k]@),
            decreases self.appeared@.len() - j,
        {
            list.push(Notification::Appeared(self.appeared[j].clone()));
            j = j + 1;
        }
        assert(list.deep_view() =~= notices_of(self@));
        list
    }
}

/// The identifiers of the devices that `table` holds as present and `other`
/// does not, in ascending order.
fn present_only_in(table: &DeviceTable, other: &DeviceTable) -> (list: Vec<String>)
    requires
        table.wf(),
        other.wf(),
    ensures
        lists_ascending(list.deep_view(), appeared_set(other@, table@)),
{
    let records = table.records();
    let ghost ids = identifiers_of(table.listing());
    let mut list: Vec<String> = Vec::new();
    let mut i: usize = 0;
    while i < records.len()
        invariant
            table.wf(),
            other.wf(),
            records@ == table.listing(),
            ids == identifiers_of(table.listing()),
            i <= records@.len(),
            ascending(list.deep_view()),
            forall|j: int|
                0 <= j < list@.len() ==> exists|k: int|
                    0 <= k < i && ids[k] == #[trigger] list.deep_view()[j],
            forall|j: int|
                0 <= j < list@.len() ==> appeared_set(other@, table@).contains(
                    #[trigger] list.deep_view()[j],
                ),
            forall|k: int|
                0 <= k < i && appeared_set(other@, table@).contains(#[trigger] ids[k])
                    ==> list.deep_view().contains(ids[k]),
        decreases records@.len() - i,
    {
        let record = &records[i];
        proof {
            lemma_table_entry(table.listing(), i as int);
            assert(ids[i as int] == record.identifier@);
        }
        if record.state.is_present() && !other.is_online(record.identifier.as_str()) {
            let ghost before = list.deep_view();
            list.push(record.identifier.clone());
            proof {
                let after = list.deep_view();
                assert(after =~= before.push(record.identifier@));
                assert forall|a: int, b: int| 0 <= a < b < after.len() implies text_precedes(
                    after[a],
                    after[b],
                ) by {
                    if b == before.len() {
                        assert(after[a] == before[a]);
                        let k = choose|k: int| 0 <= k < i && ids[k] == before[a];
                        assert(text_precedes(ids[k], ids[i as int]));
                    } else {
                        assert(after[a] == before[a] && after[b] == before[b]);
                    }
                }
                assert forall|j: int| 0 <= j < after.len() implies exists|k: int|
                    0 <= k < i + 1 && ids[k] == #[trigger] after[j] by {
                    if j < before.len() {
                        assert(after[j] == before[j]);
                        let k = choose|k: int| 0 <= k < i && ids[k] == before[j];
                        assert(0 <= k < i + 1 && ids[k] == after[j]);
                    } else {
                        assert(ids[i as int] == after[j]);
                    }
                }
                assert forall|k: int|
                    0 <= k < i + 1 && appeared_set(other@, table@).contains(
                        #[trigger] ids[k],
                    ) implies after.contains(ids[k]) by {
                    if k < i {
                        let j = choose|j: int| 0 <= j < before.len() && before[j] == ids[k];
                        assert(after[j] == ids[k]);
                    } else {
                        assert(after[before.len() as int] == ids[k]);
                    }
                }
            }
        }
        i = i + 1;
    }
    proof {
        let texts = list.deep_view();
        assert forall|text: Seq<char>| texts.contains(text) <==> appeared_set(
            other@,
            table@,
        ).contains(text) by {
            if appeared_set(other@, table@).contains(text) {
                let k = choose|k: int| 0 <= k < ids.len() && ids[k] == text;
                assert(texts.contains(ids[k]));
            }
        }
    }
    list
}

/// Computes the diff between the previous table and the new one.
pub fn diff(previous: &DeviceTable, next: &DeviceTable) -> (changes: SnapshotDiff)
    requires
        previous.wf(),
        next.wf(),
    ensures
        changes@ == diff_between(previous@, next@),
        lists_ascending(changes@.disappeared, disappeared_set(previous@, next@)),
        lists_ascending(changes@.appeared, appeared_set(previous@, next@)),
{
    let disappeared = present_only_in(previous, next);
    let appeared = present_only_in(next, previous);
    proof {
        assert(disappeared_set(previous@, next@) =~= appeared_set(next@, previous@));
        lemma_ascending_list_is(disappeared.deep_view(), disappeared_set(previous@, next@));
        lemma_ascending_list_is(appeared.deep_view(), appeared_set(previous@, next@));
    }
    SnapshotDiff { disappeared, appeared }
}

/// The diff between two tables lists what appeared and what disappeared:
/// each identifier of the two sets once, in ascending order.
pub proof fn lemma_diff_lists_the_changes(
    previous: Map<Seq<char>, DeviceState>,
    next: Map<Seq<char>, DeviceState>,
)
    requires
        previous.dom().finite(),
        next.dom().finite(),
    ensures
        lists_ascending(diff_between(previous, next).appeared, appeared_set(previous, next)),
        lists_ascending(
            diff_between(previous, next).disappeared,
            disappeared_set(previous, next),
        ),
{
    lemma_set_subset_finite(next.dom(), appeared_set(previous, next));
    lemma_set_subset_finite(previous.dom(), disappeared_set(previous, next));
    lemma_ascending_list_lists(appeared_set(previous, next));
    lemma_ascending_list_lists(disappeared_set(previous, next));
}

/// No identifier both appears and disappears between the same two tables.
pub proof fn lemma_appeared_and_disappeared_are_disjoint(
    previous: Map<Seq<char>, DeviceState>,
    next: Map<Seq<char>, DeviceState>,
)
    ensures
        appeared_set(previous, next).disjoint(disappeared_set(previous, next)),
{
}

/// The disappeared identifiers are what would appear if the two tables
/// changed places.
pub proof fn lemma_disappeared_is_appeared_reversed(
    previous: Map<Seq<char>, DeviceState>,
    next: Map<Seq<char>, DeviceState>,
)
    ensures
        disappeared_set(previous, next) == appeared_set(next, previous),
{
    assert(disappeared_set(previous, next) =~= appeared_set(next, previous));
}

/// Against the empty table nothing disappears, whatever the new table holds.
pub proof fn lemma_nothing_disappears_from_empty(next: Map<Seq<char>, DeviceState>)
    ensures
        disappeared_set(Map::empty(), next) == Set::<Seq<char>>::empty(),
        diff_between(Map::empty(), next).disappeared == Seq::<Seq<char>>::empty(),
{
    assert(disappeared_set(Map::empty(), next) =~= Set::<Seq<char>>::empty());
    lemma_ascending_list_is(Seq::<Seq<char>>::empty(), Set::<Seq<char>>::empty());
}

/// Against the empty table every notification is one of a device that
/// appeared.
pub proof fn lemma_first_frame_only_announces_appearances(
    next: Map<Seq<char>, DeviceState>,
    i: int,
)
    requires
        0 <= i < notices_of(diff_between(Map::empty(), next)).len(),
    ensures
        notices_of(diff_between(Map::empty(), next))[i] is Appeared,
{
    lemma_nothing_disappears_from_empty(next);
}

/// A table that is the same as the previous one yields the empty diff, and
/// so no notification.
pub proof fn lemma_same_table_changes_nothing(table: Map<Seq<char>, DeviceState>)
    ensures
        appeared_set(table, table) == Set::<Seq<char>>::empty(),
        disappeared_set(table, table) == Set::<Seq<char>>::empty(),
        diff_between(table, table).appeared == Seq::<Seq<char>>::empty(),
        diff_between(table, table).disappeared == Seq::<Seq<char>>::empty(),
        notices_of(diff_between(table, table)) == Seq::<Notice>::empty(),
{
    assert(appeared_set(table, table) =~= Set::<Seq<char>>::empty());
    assert(disappeared_set(table, table) =~= Set::<Seq<char>>::empty());
    lemma_ascending_list_is(Seq::<Seq<char>>::empty(), Set::<Seq<char>>::empty());
    assert(notices_of(diff_between(table, table)) =~= Seq::<Notice>::empty());
}

/// A device that neither was present nor is present changes nothing,
/// whatever its two states are.
pub proof fn lemma_absent_to_absent_is_silent(
    previous: Map<Seq<char>, DeviceState>,
    next: Map<Seq<char>, DeviceState>,
    identifier: Seq<char>,
)
    requires
        !online_in(previous, identifier),
        !online_in(next, identifier),
    ensures
        !appeared_set(previous, next).contains(identifier),
        !disappeared_set(previous, next).contains(identifier),
{
}

/// Every notification for a device that disappeared comes before every
/// notification for a device that appeared.
pub proof fn lemma_disappeared_before_appeared(diff: DiffView, i: int, j: int)
    requires
        0 <= i < notices_of(diff).len(),
        0 <= j < notices_of(diff).len(),
        notices_of(diff)[i] is Disappeared,
        notices_of(diff)[j] is Appeared,
    ensures
        i < j,
{
}

} // verus!
