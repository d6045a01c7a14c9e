//! The gauges that an observation feeds, under the names they are published
//! with.

use crate::order::{compare, Order};
use crate::reading::{all_fields, Field};
use vstd::prelude::*;

verus! {

/// A metric's full name: namespace, subsystem and name joined by `_`, the
/// empty ones left out. A metric whose own name is empty has no full name.
pub open spec fn joined_name(namespace: Seq<char>, subsystem: Seq<char>, name: Seq<char>) -> Seq<
    char,
> {
    if name.len() == 0 {
        Seq::empty()
    } else if namespace.len() > 0 && subsystem.len() > 0 {
        namespace + seq!['_'] + subsystem + seq!['_'] + name
    } else if namespace.len() > 0 {
        namespace + seq!['_'] + name
    } else if subsystem.len() > 0 {
        subsystem + seq!['_'] + name
    } else {
        name
    }
}

/// The name under which `prometheus` publishes a metric whose options are
/// made with `Opts::new(name, ..)`, this namespace and this subsystem:
/// what `prometheus::Opts::fq_name` gives for them. Trusted, as the crate's
/// source has it: the non-empty ones of namespace, subsystem and name,
/// joined by `_`; the empty string where `name` is empty.
#[verifier::external_body]
fn full_name(namespace: &str, subsystem: &str, name: &str) -> (full: String)
    ensures
        full@ == joined_name(namespace@, subsystem@, name@),
{
    prometheus::Opts::new(name, "").namespace(namespace).subsystem(subsystem).fq_name()
}

/// The namespace of every gauge.
pub open spec fn namespace() -> Seq<char> {
    "awair"@
}

/// The subsystem of every gauge.
pub open spec fn subsystem() -> Seq<char> {
    "sensors"@
}

/// The label that tells the sources apart.
pub open spec fn source_label() -> Seq<char> {
    "airdata_url"@
}

/// The name under which the gauge of `field` is published.
pub open spec fn metric_name(field: Field) -> Seq<char> {
    joined_name(namespace(), subsystem(), field.short_name())
}

/// The field whose gauge is published as `metric`, if there is one.
pub open spec fn field_named(metric: Seq<char>) -> Option<Field> {
    if metric == metric_name(Field::Score) {
        Some(Field::Score)
    } else if metric == metric_name(Field::Temp) {
        Some(Field::Temp)
    } else if metric == metric_name(Field::Humid) {
        Some(Field::Humid)
    } else if metric == metric_name(Field::Co2) {
        Some(Field::Co2)
    } else if metric == metric_name(Field::Voc) {
        Some(Field::Voc)
    } else if metric == metric_name(Field::Pm25) {
        Some(Field::Pm25)
    } else {
        None
    }
}

/// The help text published with `metric`: that of its gauge, and nothing
/// for a name that is no gauge's.
pub open spec fn help_of(metric: Seq<char>) -> Seq<char> {
    match field_named(metric) {
        Some(field) => field.help_text(),
        None => Seq::empty(),
    }
}

/// A full name is the prefix `awair_sensors_` and the gauge's own name.
pub proof fn lemma_metric_name_shape(field: Field)
    ensures
        metric_name(field) == "awair_sensors_"@ + field.short_name(),
        metric_name(field).len() == 14 + field.short_name().len(),
        field.short_name().len() > 0,
{
    reveal_strlit("awair");
    reveal_strlit("sensors");
    reveal_strlit("awair_sensors_");
    reveal_strlit("score");
    reveal_strlit("temp");
    reveal_strlit("humidity");
    reveal_strlit("co2");
    reveal_strlit("voc");
    reveal_strlit("pm25");
    assert(metric_name(field) =~= "awair_sensors_"@ + field.short_name());
}

/// No two gauges are published under one name.
pub proof fn lemma_metric_names_differ(a: Field, b: Field)
    requires
        a != b,
    ensures
        metric_name(a) != metric_name(b),
{
    lemma_metric_name_shape(a);
    lemma_metric_name_shape(b);
    reveal_strlit("awair_sensors_");
    reveal_strlit("score");
    reveal_strlit("temp");
    reveal_strlit("humidity");
    reveal_strlit("co2");
    reveal_strlit("voc");
    reveal_strlit("pm25");
    assert(metric_name(a)[14] == a.short_name()[0]);
    assert(metric_name(b)[14] == b.short_name()[0]);
}

/// `field_named` finds each gauge by its name.
pub proof fn lemma_field_named(field: Field)
    ensures
        field_named(metric_name(field)) == Some(field),
{
    if field != Field::Score {
        lemma_metric_names_differ(field, Field::Score);
    }
    if field != Field::Temp {
        lemma_metric_names_differ(field, Field::Temp);
    }
    if field != Field::Humid {
        lemma_metric_names_differ(field, Field::Humid);
    }
    if field != Field::Co2 {
        lemma_metric_names_differ(field, Field::Co2);
    }
    if field != Field::Voc {
        lemma_metric_names_differ(field, Field::Voc);
    }
    if field != Field::Pm25 {
        lemma_metric_names_differ(field, Field::Pm25);
    }
}

/// The name under which the gauge of `field` is published: its own name in
/// the namespace `awair` and the subsystem `sensors`.
pub fn name_of(field: Field) -> (name: String)
    ensures
        name@ == metric_name(field),
        name@ == "awair_sensors_"@ + field.short_name(),
{
    proof {
        lemma_metric_name_shape(field);
    }
    full_name("awair", "sensors", field.name())
}

/// The label under which a sample names its source.
pub fn label_name() -> (label: &'static str)
    ensures
        label@ == source_label(),
{
    "airdata_url"
}

/// The help text to publish with `metric`.
pub fn help_for(metric: &str) -> (help: &'static str)
    ensures
        help@ == help_of(metric@),
{
    let fields = Field::all();
    let mut i: usize = 0;
    while i < fields.len()
        invariant
            i <= fields.len(),
            fields@ == all_fields(),
            forall|j: int| 0 <= j < i ==> metric@ != metric_name(#[trigger] all_fields()[j]),
        decreases fields.len() - i,
    {
        let field = fields[i];
        let name = name_of(field);
        if compare(name.as_str(), metric) == Order::Same {
            proof {
                lemma_field_named(field);
            }
            return field.help();
        }
        i = i + 1;
    }
    proof {
        assert(all_fields()[0] == Field::Score);
        assert(all_fields()[1] == Field::Temp);
        assert(all_fields()[2] == Field::Humid);
        assert(all_fields()[3] == Field::Co2);
        assert(all_fields()[4] == Field::Voc);
        assert(all_fields()[5] == Field::Pm25);
        reveal_strlit("");
        assert(""@ =~= Seq::<char>::empty());
    }
    ""
}

} // verus!
