//! What a scrape publishes: the entries of a snapshot, gathered into one
//! family per metric, and the response that carries their text.
//!
//! Every entry of the snapshot becomes one sample, and nothing else does: a
//! source that has reported nothing has no sample.

use crate::gauges::{help_for, help_of, label_name, source_label};
use crate::order::{compare, lemma_text_order_transitive, text_before, Order};
use crate::store::{
    ascending, key_before, key_of, lemma_listing_unique, table_of, views, EntryView, MetricEntry,
    MetricStore,
};
use vstd::prelude::*;

verus! {

/// One value of a metric: the source it came from, and its bits.
#[derive(Debug, PartialEq, Eq)]
pub struct Sample {
    pub source: String,
    pub value: u64,
}

/// What a `Sample` says.
pub struct SampleView {
    pub source: Seq<char>,
    pub value: u64,
}

impl View for Sample {
    type V = SampleView;

    open spec fn view(&self) -> SampleView {
        SampleView { source: self.source@, value: self.value }
    }
}

/// All the samples of one metric, with what is published once per metric:
/// its name, its help text, and the label that names a sample's source.
#[derive(Debug, PartialEq, Eq)]
pub struct Family {
    pub name: String,
    pub help: String,
    pub label: String,
    pub samples: Vec<Sample>,
}

/// What a `Family` says.
pub struct FamilyView {
    pub name: Seq<char>,
    pub help: Seq<char>,
    pub label: Seq<char>,
    pub samples: Seq<SampleView>,
}

impl View for Family {
    type V = FamilyView;

    open spec fn view(&self) -> FamilyView {
        FamilyView {
            name: self.name@,
            help: self.help@,
            label: self.label@,
            samples: Seq::new(self.samples@.len(), |i: int| self.samples@[i]@),
        }
    }
}

/// What a list of families says, family by family.
pub open spec fn family_views(list: Seq<Family>) -> Seq<FamilyView> {
    Seq::new(list.len(), |i: int| list[i]@)
}

pub open spec fn sample_of(entry: EntryView) -> SampleView {
    SampleView { source: entry.source, value: entry.value }
}

/// The family that `entry` opens: its metric's, with the one sample.
pub open spec fn opened(entry: EntryView) -> FamilyView {
    FamilyView {
        name: entry.metric,
        help: help_of(entry.metric),
        label: source_label(),
        samples: seq![sample_of(entry)],
    }
}

/// `family` with the sample of `entry` added at its end.
pub open spec fn extended(family: FamilyView, entry: EntryView) -> FamilyView {
    FamilyView { samples: family.samples.push(sample_of(entry)), ..family }
}

/// The families of a list of entries: each run of entries of one metric
/// makes one family, in the order of the list.
pub open spec fn grouping(list: Seq<EntryView>) -> Seq<FamilyView>
    decreases list.len(),
{
    if list.len() == 0 {
        Seq::empty()
    } else {
        let before = grouping(list.drop_last());
        let entry = list.last();
        if before.len() > 0 && before.last().name == entry.metric {
            before.drop_last().push(extended(before.last(), entry))
        } else {
            before.push(opened(entry))
        }
    }
}

/// The entry that the sample at `place` of `family` publishes.
pub open spec fn line_of(family: FamilyView, place: int) -> EntryView {
    EntryView {
        metric: family.name,
        source: family.samples[place].source,
        value: family.samples[place].value,
    }
}

/// The entries that a family publishes, one per sample.
pub open spec fn lines_of(family: FamilyView) -> Seq<EntryView> {
    Seq::new(family.samples.len(), |place: int| line_of(family, place))
}

/// The entries that a list of families publishes, in order.
pub open spec fn flattened(families: Seq<FamilyView>) -> Seq<EntryView>
    decreases families.len(),
{
    if families.len() == 0 {
        Seq::empty()
    } else {
        flattened(families.drop_last()) + lines_of(families.last())
    }
}

/// The families of a list publish each entry of the list once, in the order
/// of the list, and nothing else. No family is empty, no two neighbours are
/// of one metric, and each carries its metric's help text and the source
/// label.
pub proof fn lemma_grouping_lists_each_entry_once(list: Seq<EntryView>)
    ensures
        flattened(grouping(list)) == list,
        list.len() > 0 ==> grouping(list).len() > 0 && grouping(list).last().name
            == list.last().metric,
        forall|i: int|
            0 <= i < grouping(list).len() ==> {
                &&& (#[trigger] grouping(list)[i]).samples.len() > 0
                &&& grouping(list)[i].help == help_of(grouping(list)[i].name)
                &&& grouping(list)[i].label == source_label()
            },
        forall|i: int|
            0 < i < grouping(list).len() ==> grouping(list)[i - 1].name != (#[trigger] grouping(
                list,
            )[i]).name,
    decreases list.len(),
{
    if list.len() == 0 {
        assert(flattened(grouping(list)) =~= list);
    } else {
        let before = grouping(list.drop_last());
        let entry = list.last();
        let after = grouping(list);
        lemma_grouping_lists_each_entry_once(list.drop_last());
        if before.len() > 0 && before.last().name == entry.metric {
            let grown = extended(before.last(), entry);
            assert(after.drop_last() =~= before.drop_last());
            assert(after.last() == grown);
            assert(lines_of(grown) =~= lines_of(before.last()).push(entry));
            assert(flattened(after) =~= flattened(before).push(entry));
            assert forall|i: int| 0 <= i < after.len() implies {
                &&& (#[trigger] after[i]).samples.len() > 0
                &&& after[i].help == help_of(after[i].name)
                &&& after[i].label == source_label()
            } by {
                if i < after.len() - 1 {
                    assert(after[i] == before[i]);
                }
            }
            assert forall|i: int| 0 < i < after.len() implies after[i - 1].name != (
            #[trigger] after[i]).name by {
                assert(after[i - 1] == before[i - 1]);
                assert(after[i].name == before[i].name);
            }
        } else {
            assert(after.drop_last() =~= before);
            assert(lines_of(opened(entry)) =~= seq![entry]);
            assert(flattened(after) =~= flattened(before).push(entry));
            assert forall|i: int| 0 <= i < after.len() implies {
                &&& (#[trigger] after[i]).samples.len() > 0
                &&& after[i].help == help_of(after[i].name)
                &&& after[i].label == source_label()
            } by {
                if i < after.len() - 1 {
                    assert(after[i] == before[i]);
                }
            }
            assert forall|i: int| 0 < i < after.len() implies after[i - 1].name != (
            #[trigger] after[i]).name by {
                assert(after[i - 1] == before[i - 1]);
                if i < after.len() - 1 {
                    assert(after[i] == before[i]);
                }
            }
        }
        assert(flattened(before).push(entry) =~= list);
    }
}

/// Every sample of every family is among the entries that the families
/// publish.
pub proof fn lemma_sample_is_published(families: Seq<FamilyView>, which: int, place: int)
    requires
        0 <= which < families.len(),
        0 <= place < families[which].samples.len(),
    ensures
        flattened(families).contains(line_of(families[which], place)),
    decreases families.len(),
{
    let earlier = flattened(families.drop_last());
    let lines = lines_of(families.last());
    if which == families.len() - 1 {
        assert(flattened(families)[earlier.len() + place] == lines[place]);
    } else {
        lemma_sample_is_published(families.drop_last(), which, place);
        let k = choose|k: int|
            0 <= k < earlier.len() && earlier[k] == line_of(families[which], place);
        assert(flattened(families)[k] == earlier[k]);
    }
}

/// The names of `families` rise strictly, so no metric has two families.
pub open spec fn names_rise(families: Seq<FamilyView>) -> bool {
    forall|i: int, j: int|
        0 <= i < j < families.len() ==> text_before(
            (#[trigger] families[i]).name,
            (#[trigger] families[j]).name,
        )
}

/// The families of an ascending list, such as a snapshot of the store, are
/// one per metric, in ascending order of their names.
pub proof fn lemma_grouping_one_family_per_metric(list: Seq<EntryView>)
    requires
        ascending(list),
    ensures
        names_rise(grouping(list)),
    decreases list.len(),
{
    if list.len() > 0 {
        let rest = list.drop_last();
        let entry = list.last();
        let before = grouping(rest);
        let after = grouping(list);
        assert forall|i: int, j: int| 0 <= i < j < rest.len() implies key_before(
            key_of(#[trigger] rest[i]),
            key_of(#[trigger] rest[j]),
        ) by {
            assert(rest[i] == list[i]);
            assert(rest[j] == list[j]);
        }
        lemma_grouping_one_family_per_metric(rest);
        lemma_grouping_lists_each_entry_once(rest);
        if before.len() > 0 && before.last().name == entry.metric {
            assert forall|i: int, j: int| 0 <= i < j < after.len() implies text_before(
                (#[trigger] after[i]).name,
                (#[trigger] after[j]).name,
            ) by {
                assert(after[i].name == before[i].name);
                assert(after[j].name == before[j].name);
            }
        } else {
            assert forall|i: int, j: int| 0 <= i < j < after.len() implies text_before(
                (#[trigger] after[i]).name,
                (#[trigger] after[j]).name,
            ) by {
                assert(after[i] == before[i]);
                if j < before.len() {
                    assert(after[j] == before[j]);
                } else {
                    assert(rest.last() == list[list.len() - 2]);
                    assert(key_before(key_of(list[list.len() - 2]), key_of(list[list.len() - 1])));
                    assert(text_before(before.last().name, entry.metric));
                    if i < before.len() - 1 {
                        assert(text_before(before[i].name, before[before.len() - 1].name));
                        lemma_text_order_transitive(
                            before[i].name,
                            before.last().name,
                            entry.metric,
                        );
                    }
                }
            }
        }
    }
}

/// A store is published the same way however often it is asked.
///
/// Two snapshots of one table are the same list, entry for entry, and the
/// families gathered from them are the same: what a scrape publishes
/// depends on what the store holds and on nothing else.
pub proof fn lemma_same_table_same_families(first: Seq<EntryView>, second: Seq<EntryView>)
    requires
        ascending(first),
        ascending(second),
        table_of(first) == table_of(second),
    ensures
        first == second,
        grouping(first) == grouping(second),
{
    lemma_listing_unique(first, second);
}

/// Gathers the entries of a snapshot into families, one per run of entries
/// of one metric. Of a snapshot of the store, which lists each metric's
/// entries together, that is one family per metric.
pub fn families(list: &Vec<MetricEntry>) -> (families: Vec<Family>)
    ensures
        family_views(families@) == grouping(views(list@)),
        flattened(family_views(families@)) == views(list@),
{
    let ghost entries = views(list@);
    let mut families: Vec<Family> = Vec::new();
    let mut i: usize = 0;
    assert(entries.take(0) =~= Seq::<EntryView>::empty());
    assert(family_views(families@) =~= grouping(entries.take(0)));
    while i < list.len()
        invariant
            i <= list.len(),
            entries == views(list@),
            family_views(families@) == grouping(entries.take(i as int)),
        decreases list.len() - i,
    {
        let entry = &list[i];
        let ghost before = family_views(families@);
        proof {
            assert(entries.take(i + 1).drop_last() =~= entries.take(i as int));
            assert(entries.take(i + 1).last() == entry@);
        }
        let count: usize = families.len();
        let joins = count > 0 && compare(families[count - 1].name.as_str(), entry.metric.as_str())
            == Order::Same;
        let sample = Sample { source: entry.source.clone(), value: entry.value };
        if joins {
            let mut family = families.pop().unwrap();
            family.samples.push(sample);
            assert(family@ == extended(before.last(), entry@)) by {
                assert(family@.samples =~= before.last().samples.push(sample_of(entry@)));
            }
            families.push(family);
            assert(family_views(families@) =~= before.drop_last().push(
                extended(before.last(), entry@),
            ));
        } else {
            let mut samples: Vec<Sample> = Vec::new();
            samples.push(sample);
            let family = Family {
                name: entry.metric.clone(),
                help: help_for(entry.metric.as_str()).to_owned(),
                label: label_name().to_owned(),
                samples,
            };
            assert(family@ == opened(entry@)) by {
                assert(family@.samples =~= seq![sample_of(entry@)]);
            }
            families.push(family);
            assert(family_views(families@) =~= before.push(opened(entry@)));
        }
        i = i + 1;
    }
    proof {
        assert(entries.take(i as int) =~= entries);
        lemma_grouping_lists_each_entry_once(entries);
    }
    families
}

/// What a scrape of `store` publishes: the families of its snapshot, one per
/// metric in ascending order of name, each sample once. The store is left
/// as it is.
pub fn collect(store: &MetricStore) -> (families: Vec<Family>)
    ensures
        family_views(families@) == grouping(store.listing()),
        flattened(family_views(families@)) == store.listing(),
        names_rise(family_views(families@)),
        table_of(flattened(family_views(families@))) == store@,
{
    let list = store.snapshot();
    proof {
        lemma_grouping_one_family_per_metric(views(list@));
    }
    families(&list)
}

/// The content type of the text that `prometheus` encodes metrics to:
/// `prometheus::TextEncoder::format_type`. Trusted: the crate gives its
/// constant `TEXT_FORMAT`, which is `text/plain; version=0.0.4`.
#[verifier::external_body]
fn text_format() -> (format: String)
    ensures
        format@ == "text/plain; version=0.0.4"@,
{
    prometheus::Encoder::format_type(&prometheus::TextEncoder::new()).to_owned()
}

/// The answer to a scrape.
#[derive(Debug, PartialEq, Eq)]
pub struct ScrapeResponse {
    pub status: u16,
    pub content_type: String,
    pub body: Vec<u8>,
}

/// The answer to a scrape whose encoded metrics are `body`: status 200, the
/// content type of the text format, and the body as it is.
pub fn scrape_response(body: Vec<u8>) -> (response: ScrapeResponse)
    ensures
        response.status == 200,
        response.content_type@ == "text/plain; version=0.0.4"@,
        response.body@ == body@,
{
    ScrapeResponse { status: 200, content_type: text_format(), body }
}

} // verus!
