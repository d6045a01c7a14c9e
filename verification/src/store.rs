//! The metric store: the latest value of every gauge, keyed by metric name
//! and source label.
//!
//! A value is held as the 64 bits of an IEEE 754 double, so that the store
//! hands back exactly what was written. The store knows nothing of the bits'
//! meaning.

use crate::order::{
    compare, lemma_text_order_total, lemma_text_order_transitive, text_before, Order,
};
use vstd::prelude::*;

verus! {

/// A metric name and a source label: what a value is filed under.
pub type Key = (Seq<char>, Seq<char>);

/// One gauge value of one source.
#[derive(Debug, PartialEq, Eq)]
pub struct MetricEntry {
    pub metric: String,
    pub source: String,
    pub value: u64,
}

/// What a `MetricEntry` says.
pub struct EntryView {
    pub metric: Seq<char>,
    pub source: Seq<char>,
    pub value: u64,
}

impl View for MetricEntry {
    type V = EntryView;

    open spec fn view(&self) -> EntryView {
        EntryView { metric: self.metric@, source: self.source@, value: self.value }
    }
}

impl Clone for MetricEntry {
    fn clone(&self) -> (copy: MetricEntry)
        ensures
            copy@ == self@,
    {
        MetricEntry { metric: self.metric.clone(), source: self.source.clone(), value: self.value }
    }
}

/// What a list of entries says, entry by entry.
pub open spec fn views(list: Seq<MetricEntry>) -> Seq<EntryView> {
    Seq::new(list.len(), |i: int| list[i]@)
}

pub open spec fn key_of(entry: EntryView) -> Key {
    (entry.metric, entry.source)
}

/// Keys are ordered by metric name, then by source label.
pub open spec fn key_before(a: Key, b: Key) -> bool {
    text_before(a.0, b.0) || (a.0 == b.0 && text_before(a.1, b.1))
}

/// The keys of `list` rise strictly, so none occurs twice.
pub open spec fn ascending(list: Seq<EntryView>) -> bool {
    forall|i: int, j: int|
        0 <= i < j < list.len() ==> key_before(
            key_of(#[trigger] list[i]),
            key_of(#[trigger] list[j]),
        )
}

/// Some entry of `list` is filed under `key`.
pub open spec fn holds(list: Seq<EntryView>, key: Key) -> bool {
    exists|i: int| 0 <= i < list.len() && key_of(#[trigger] list[i]) == key
}

/// Where in `list` an entry filed under `key` stands.
pub open spec fn place_of(list: Seq<EntryView>, key: Key) -> int {
    choose|i: int| 0 <= i < list.len() && key_of(#[trigger] list[i]) == key
}

/// The table that a list of entries spells out.
pub open spec fn table_of(list: Seq<EntryView>) -> Map<Key, u64> {
    Map::new(|key: Key| holds(list, key), |key: Key| list[place_of(list, key)].value)
}

/// The order of keys is a strict total order.
pub proof fn lemma_key_order_total(a: Key, b: Key)
    ensures
        key_before(a, b) || a == b || key_before(b, a),
        !(key_before(a, b) && a == b),
        !(key_before(a, b) && key_before(b, a)),
{
    lemma_text_order_total(a.0, b.0);
    lemma_text_order_total(a.1, b.1);
}

/// The order of keys is transitive.
pub proof fn lemma_key_order_transitive(a: Key, b: Key, c: Key)
    requires
        key_before(a, b),
        key_before(b, c),
    ensures
        key_before(a, c),
{
    lemma_text_order_total(a.0, b.0);
    lemma_text_order_total(b.0, c.0);
    if text_before(a.0, b.0) && text_before(b.0, c.0) {
        lemma_text_order_transitive(a.0, b.0, c.0);
    }
    if a.0 == b.0 && b.0 == c.0 {
        lemma_text_order_transitive(a.1, b.1, c.1);
    }
}

/// In an ascending list a key stands at one place only.
pub proof fn lemma_one_place(list: Seq<EntryView>, i: int, j: int)
    requires
        ascending(list),
        0 <= i < list.len(),
        0 <= j < list.len(),
        key_of(list[i]) == key_of(list[j]),
    ensures
        i == j,
{
    lemma_key_order_total(key_of(list[i]), key_of(list[j]));
}

/// The table of an ascending list holds each entry's value under its key.
pub proof fn lemma_listed(list: Seq<EntryView>, i: int)
    requires
        ascending(list),
        0 <= i < list.len(),
    ensures
        table_of(list).dom().contains(key_of(list[i])),
        table_of(list)[key_of(list[i])] == list[i].value,
{
    let key = key_of(list[i]);
    assert(holds(list, key));
    lemma_one_place(list, i, place_of(list, key));
}

/// Dropping the first entry of an ascending list removes its key from the
/// table and changes nothing else.
pub proof fn lemma_table_of_rest(list: Seq<EntryView>)
    requires
        ascending(list),
        list.len() > 0,
    ensures
        ascending(list.drop_first()),
        table_of(list.drop_first()) == table_of(list).remove(key_of(list[0])),
{
    let rest = list.drop_first();
    assert forall|i: int, j: int| 0 <= i < j < rest.len() implies key_before(
        key_of(#[trigger] rest[i]),
        key_of(#[trigger] rest[j]),
    ) by {
        assert(rest[i] == list[i + 1]);
        assert(rest[j] == list[j + 1]);
    }
    let smaller = table_of(list).remove(key_of(list[0]));
    assert forall|key: Key| table_of(rest).dom().contains(key) <==> smaller.dom().contains(
        key,
    ) by {
        if holds(rest, key) {
            let i = place_of(rest, key);
            assert(rest[i] == list[i + 1]);
            assert(holds(list, key));
            if key == key_of(list[0]) {
                lemma_one_place(list, 0, i + 1);
            }
        }
        if smaller.dom().contains(key) {
            let i = place_of(list, key);
            assert(rest[i - 1] == list[i]);
            assert(holds(rest, key));
        }
    }
    assert forall|key: Key| table_of(rest).dom().contains(key) implies table_of(rest)[key]
        == smaller[key] by {
        let i = place_of(rest, key);
        assert(rest[i] == list[i + 1]);
        lemma_listed(rest, i);
        lemma_listed(list, i + 1);
        if key == key_of(list[0]) {
            lemma_one_place(list, 0, i + 1);
        }
    }
    assert(table_of(rest) =~= smaller);
}

/// The table of an ascending list has as many keys as the list has entries.
pub proof fn lemma_table_size(list: Seq<EntryView>)
    requires
        ascending(list),
    ensures
        table_of(list).dom().finite(),
        table_of(list).dom().len() == list.len(),
    decreases list.len(),
{
    if list.len() == 0 {
        assert(table_of(list).dom() =~= Set::<Key>::empty());
    } else {
        lemma_table_of_rest(list);
        lemma_table_size(list.drop_first());
        lemma_listed(list, 0);
        let rest = table_of(list.drop_first()).dom();
        assert(table_of(list).dom() =~= rest.insert(key_of(list[0])));
    }
}

/// A table has one ascending list only: the listing of a store is fixed by
/// what the store holds, whatever the order in which it was written.
pub proof fn lemma_listing_unique(a: Seq<EntryView>, b: Seq<EntryView>)
    requires
        ascending(a),
        ascending(b),
        table_of(a) == table_of(b),
    ensures
        a == b,
    decreases a.len(),
{
    if a.len() == 0 || b.len() == 0 {
        if a.len() > 0 {
            lemma_listed(a, 0);
            assert(holds(b, key_of(a[0])));
        }
        if b.len() > 0 {
            lemma_listed(b, 0);
            assert(holds(a, key_of(b[0])));
        }
        assert(a =~= b);
    } else {
        lemma_listed(a, 0);
        lemma_listed(b, 0);
        assert(holds(b, key_of(a[0])));
        assert(holds(a, key_of(b[0])));
        let j = place_of(b, key_of(a[0]));
        let i = place_of(a, key_of(b[0]));
        lemma_key_order_total(key_of(a[0]), key_of(b[0]));
        if j > 0 && i > 0 {
            assert(key_before(key_of(b[0]), key_of(b[j])));
            assert(key_before(key_of(a[0]), key_of(a[i])));
        }
        assert(key_of(a[0]) == key_of(b[0]));
        assert(a[0] == b[0]);
        lemma_table_of_rest(a);
        lemma_table_of_rest(b);
        lemma_listing_unique(a.drop_first(), b.drop_first());
        assert(a =~= seq![a[0]] + a.drop_first());
        assert(b =~= seq![b[0]] + b.drop_first());
    }
}

/// Writing a value over the entry at `place` writes it into the table.
pub proof fn lemma_overwrite(list: Seq<EntryView>, place: int, entry: EntryView)
    requires
        ascending(list),
        0 <= place < list.len(),
        key_of(list[place]) == key_of(entry),
    ensures
        ascending(list.update(place, entry)),
        table_of(list.update(place, entry)) == table_of(list).insert(key_of(entry), entry.value),
{
    let after = list.update(place, entry);
    assert forall|i: int, j: int| 0 <= i < j < after.len() implies key_before(
        key_of(#[trigger] after[i]),
        key_of(#[trigger] after[j]),
    ) by {
        assert(key_of(after[i]) == key_of(list[i]));
        assert(key_of(after[j]) == key_of(list[j]));
    }
    let wanted = table_of(list).insert(key_of(entry), entry.value);
    assert forall|key: Key| table_of(after).dom().contains(key) <==> wanted.dom().contains(
        key,
    ) by {
        if holds(after, key) {
            let i = place_of(after, key);
            assert(key_of(list[i]) == key);
            assert(holds(list, key));
        }
        if holds(list, key) {
            let i = place_of(list, key);
            assert(key_of(after[i]) == key);
            assert(holds(after, key));
        }
        if key == key_of(entry) {
            assert(key_of(after[place]) == key);
            assert(holds(after, key));
        }
    }
    assert forall|key: Key| table_of(after).dom().contains(key) implies table_of(after)[key]
        == wanted[key] by {
        let i = place_of(after, key);
        lemma_listed(after, i);
        if i != place {
            assert(after[i] == list[i]);
            lemma_listed(list, i);
            if key == key_of(entry) {
                lemma_one_place(list, i, place);
            }
        }
    }
    assert(table_of(after) =~= wanted);
}

/// Putting an entry with a new key at its place in the order writes it into
/// the table.
pub proof fn lemma_insert(list: Seq<EntryView>, place: int, entry: EntryView)
    requires
        ascending(list),
        0 <= place <= list.len(),
        forall|i: int| 0 <= i < place ==> key_before(key_of(#[trigger] list[i]), key_of(entry)),
        forall|i: int|
            place <= i < list.len() ==> key_before(key_of(entry), key_of(#[trigger] list[i])),
    ensures
        ascending(list.insert(place, entry)),
        table_of(list.insert(place, entry)) == table_of(list).insert(key_of(entry), entry.value),
{
    let after = list.insert(place, entry);
    assert forall|i: int, j: int| 0 <= i < j < after.len() implies key_before(
        key_of(#[trigger] after[i]),
        key_of(#[trigger] after[j]),
    ) by {
        if i < place {
            assert(after[i] == list[i]);
        } else if i > place {
            assert(after[i] == list[i - 1]);
        }
        if j < place {
            assert(after[j] == list[j]);
        } else if j > place {
            assert(after[j] == list[j - 1]);
        }
    }
    let wanted = table_of(list).insert(key_of(entry), entry.value);
    assert forall|key: Key| table_of(after).dom().contains(key) <==> wanted.dom().contains(
        key,
    ) by {
        if holds(after, key) {
            let i = place_of(after, key);
            if i < place {
                assert(after[i] == list[i]);
                assert(holds(list, key));
            } else if i > place {
                assert(after[i] == list[i - 1]);
                assert(holds(list, key));
            }
        }
        if holds(list, key) {
            let i = place_of(list, key);
            if i < place {
                assert(after[i] == list[i]);
            } else {
                assert(after[i + 1] == list[i]);
            }
            assert(holds(after, key));
        }
        if key == key_of(entry) {
            assert(after[place] == entry);
            assert(holds(after, key));
        }
    }
    assert forall|key: Key| table_of(after).dom().contains(key) implies table_of(after)[key]
        == wanted[key] by {
        let i = place_of(after, key);
        lemma_listed(after, i);
        if i < place {
            assert(after[i] == list[i]);
            lemma_listed(list, i);
            lemma_key_order_total(key, key_of(entry));
        } else if i > place {
            assert(after[i] == list[i - 1]);
            lemma_listed(list, i - 1);
            lemma_key_order_total(key_of(entry), key);
        }
    }
    assert(table_of(after) =~= wanted);
}

/// Of two writes to one key the second stands.
///
/// A table written twice under `key` is the table written once with the
/// second value. A listing of it has one entry under `key`, and that entry
/// has the second value: the first is gone, and the key is not listed twice.
pub proof fn lemma_second_write_wins(
    table: Map<Key, u64>,
    key: Key,
    first: u64,
    second: u64,
    list: Seq<EntryView>,
)
    requires
        ascending(list),
        table_of(list) == table.insert(key, first).insert(key, second),
    ensures
        table.insert(key, first).insert(key, second) == table.insert(key, second),
        table_of(list)[key] == second,
        holds(list, key),
        forall|i: int|
            0 <= i < list.len() && key_of(#[trigger] list[i]) == key ==> i == place_of(list, key)
                && list[i].value == second,
{
    assert(table.insert(key, first).insert(key, second) =~= table.insert(key, second));
    assert(table_of(list).dom().contains(key));
    assert forall|i: int| 0 <= i < list.len() && key_of(#[trigger] list[i]) == key implies i
        == place_of(list, key) && list[i].value == second by {
        lemma_one_place(list, i, place_of(list, key));
        lemma_listed(list, i);
    }
}

/// Compares the key of `entry` with the key made of `metric` and `source`.
fn compare_key(entry: &MetricEntry, metric: &str, source: &str) -> (order: Order)
    ensures
        order == Order::Before <==> key_before(key_of(entry@), (metric@, source@)),
        order == Order::Same <==> key_of(entry@) == (metric@, source@),
        order == Order::After <==> key_before((metric@, source@), key_of(entry@)),
{
    proof {
        lemma_key_order_total(key_of(entry@), (metric@, source@));
        lemma_key_order_total((metric@, source@), key_of(entry@));
    }
    match compare(entry.metric.as_str(), metric) {
        Order::Before => Order::Before,
        Order::After => Order::After,
        Order::Same => compare(entry.source.as_str(), source),
    }
}

/// Finds the place of a key in an ascending list of entries by halving:
/// where it stands if it is there, and where it belongs if it is not.
fn locate(entries: &Vec<MetricEntry>, metric: &str, source: &str) -> (found: (usize, bool))
    requires
        ascending(views(entries@)),
    ensures
        found.0 <= entries.len(),
        forall|i: int|
            0 <= i < found.0 ==> key_before(
                key_of(#[trigger] views(entries@)[i]),
                (metric@, source@),
            ),
        found.1 ==> found.0 < entries.len() && key_of(views(entries@)[found.0 as int]) == (
            metric@,
            source@,
        ),
        !found.1 ==> forall|i: int|
            found.0 <= i < entries.len() ==> key_before(
                (metric@, source@),
                key_of(#[trigger] views(entries@)[i]),
            ),
{
    let ghost list = views(entries@);
    let ghost key = (metric@, source@);
    let mut low: usize = 0;
    let mut high: usize = entries.len();
    while low < high
        invariant
            low <= high <= entries.len(),
            list == views(entries@),
            key == (metric@, source@),
            ascending(list),
            forall|i: int| 0 <= i < low ==> key_before(key_of(#[trigger] list[i]), key),
            forall|i: int| high <= i < list.len() ==> key_before(key, key_of(#[trigger] list[i])),
        decreases high - low,
    {
        let middle: usize = low + (high - low) / 2;
        let ghost at_middle = key_of(list[middle as int]);
        match compare_key(&entries[middle], metric, source) {
            Order::Before => {
                proof {
                    assert forall|i: int| 0 <= i < middle + 1 implies key_before(
                        key_of(#[trigger] list[i]),
                        key,
                    ) by {
                        if i < middle {
                            assert(key_before(key_of(list[i]), at_middle));
                            lemma_key_order_transitive(key_of(list[i]), at_middle, key);
                        }
                    }
                }
                low = middle + 1;
            },
            Order::Same => {
                proof {
                    assert forall|i: int| 0 <= i < middle implies key_before(
                        key_of(#[trigger] list[i]),
                        key,
                    ) by {
                        assert(key_before(key_of(list[i]), at_middle));
                    }
                }
                return (middle, true);
            },
            Order::After => {
                proof {
                    assert forall|i: int| middle <= i < list.len() implies key_before(
                        key,
                        key_of(#[trigger] list[i]),
                    ) by {
                        if i > middle {
                            assert(key_before(at_middle, key_of(list[i])));
                            lemma_key_order_transitive(key, at_middle, key_of(list[i]));
                        }
                    }
                }
                high = middle;
            },
        }
    }
    (low, false)
}

/// The latest value of every gauge of every source that has reported one.
///
/// Entries come into being when they are first written; nothing is ever
/// filed under a key that was not written.
pub struct MetricStore {
    entries: Vec<MetricEntry>,
}

impl View for MetricStore {
    type V = Map<Key, u64>;

    /// The store as a table from key to value.
    open spec fn view(&self) -> Map<Key, u64> {
        table_of(self.listing())
    }
}

impl Default for MetricStore {
    /// A store that holds nothing.
    fn default() -> (store: MetricStore)
        ensures
            store@ == Map::<Key, u64>::empty(),
    {
        MetricStore::new()
    }
}

impl MetricStore {
    /// The entries in the order in which a snapshot lists them.
    pub closed spec fn listing(&self) -> Seq<EntryView> {
        views(self.entries@)
    }

    #[verifier::type_invariant]
    spec fn well_formed(&self) -> bool {
        ascending(self.listing())
    }

    /// A store that holds nothing.
    pub fn new() -> (store: MetricStore)
        ensures
            store@ == Map::<Key, u64>::empty(),
            store.listing() == Seq::<EntryView>::empty(),
    {
        let store = MetricStore { entries: Vec::new() };
        assert(store.listing() =~= Seq::<EntryView>::empty());
        assert(store@ =~= Map::<Key, u64>::empty());
        store
    }

    /// Files `value` under `metric` and `source`, in place of any value that
    /// was there.
    pub fn set(&mut self, metric: &str, source: &str, value: u64)
        ensures
            final(self)@ == old(self)@.insert((metric@, source@), value),
    {
        proof {
            use_type_invariant(&*self);
        }
        let mut entries: Vec<MetricEntry> = Vec::new();
        std::mem::swap(&mut entries, &mut self.entries);
        let ghost before = views(entries@);
        let entry = MetricEntry { metric: metric.to_owned(), source: source.to_owned(), value };
        let (place, found) = locate(&entries, metric, source);
        if found {
            proof {
                lemma_overwrite(before, place as int, entry@);
            }
            entries.set(place, entry);
            assert(views(entries@) =~= before.update(place as int, entry@));
        } else {
            proof {
                lemma_insert(before, place as int, entry@);
            }
            entries.insert(place, entry);
            assert(views(entries@) =~= before.insert(place as int, entry@));
        }
        self.entries = entries;
    }

    /// The value filed under `metric` and `source`, if there is one.
    pub fn get(&self, metric: &str, source: &str) -> (value: Option<u64>)
        ensures
            value == if self@.dom().contains((metric@, source@)) {
                Some(self@[(metric@, source@)])
            } else {
                None
            },
    {
        proof {
            use_type_invariant(&*self);
        }
        let (place, found) = locate(&self.entries, metric, source);
        if found {
            proof {
                lemma_listed(self.listing(), place as int);
            }
            Some(self.entries[place].value)
        } else {
            proof {
                let key = (metric@, source@);
                if holds(self.listing(), key) {
                    let i = place_of(self.listing(), key);
                    lemma_key_order_total(key_of(self.listing()[i]), key);
                }
            }
            None
        }
    }

    /// How many entries the store holds.
    pub fn len(&self) -> (count: usize)
        ensures
            self@.dom().finite(),
            count == self@.dom().len(),
    {
        proof {
            use_type_invariant(&*self);
            lemma_table_size(self.listing());
        }
        self.entries.len()
    }

    /// A copy of every entry, in ascending order of metric name and then of
    /// source label. The store is left as it is.
    pub fn snapshot(&self) -> (list: Vec<MetricEntry>)
        ensures
            views(list@) == self.listing(),
            ascending(views(list@)),
            table_of(views(list@)) == self@,
            list@.len() == self@.dom().len(),
    {
        proof {
            use_type_invariant(&*self);
            lemma_table_size(self.listing());
        }
        let mut list: Vec<MetricEntry> = Vec::new();
        let mut i: usize = 0;
        while i < self.entries.len()
            invariant
                i <= self.entries.len(),
                list.len() == i,
                forall|j: int| 0 <= j < i ==> (#[trigger] list[j])@ == self.entries[j]@,
            decreases self.entries.len() - i,
        {
            list.push(self.entries[i].clone());
            i = i + 1;
        }
        assert(views(list@) =~= self.listing());
        list
    }
}

} // verus!
