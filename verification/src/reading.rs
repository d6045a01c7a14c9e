//! One observation of a sensor, and the six gauges it feeds.

use vstd::prelude::*;

verus! {

/// An instant: seconds and nanoseconds since the Unix epoch.
#[derive(Clone, Copy, Debug, PartialEq, Eq, Structural)]
pub struct Timestamp {
    pub seconds: i64,
    pub nanos: u32,
}

/// The measurements of one observation.
#[derive(Clone, Copy, Debug, PartialEq, Eq, Structural)]
pub enum Field {
    Score,
    Temp,
    Humid,
    Co2,
    Voc,
    Pm25,
}

/// The fields in the order in which an observation is written to the store.
pub open spec fn all_fields() -> Seq<Field> {
    seq![Field::Score, Field::Temp, Field::Humid, Field::Co2, Field::Voc, Field::Pm25]
}

impl Field {
    /// The gauge's own name, before namespace and subsystem are put in front.
    pub open spec fn short_name(self) -> Seq<char> {
        match self {
            Field::Score => "score"@,
            Field::Temp => "temp"@,
            Field::Humid => "humidity"@,
            Field::Co2 => "co2"@,
            Field::Voc => "voc"@,
            Field::Pm25 => "pm25"@,
        }
    }

    /// The sentence that describes the gauge to a reader of the metrics.
    pub open spec fn help_text(self) -> Seq<char> {
        match self {
            Field::Score => "Current Awair Score"@,
            Field::Temp => "Current temperature in celcius"@,
            Field::Humid => "Current relative humidity"@,
            Field::Co2 => "Current CO2 measurement in parts per million"@,
            Field::Voc => "Current Volatile Organic Compound measurement in parts per billion"@,
            Field::Pm25 => (
                "Current concentration of 2.5 micron particles in micrograms per meter cubed"@
            ),
        }
    }

    /// The gauge's own name.
    pub fn name(self) -> (name: &'static str)
        ensures
            name@ == self.short_name(),
    {
        match self {
            Field::Score => "score",
            Field::Temp => "temp",
            Field::Humid => "humidity",
            Field::Co2 => "co2",
            Field::Voc => "voc",
            Field::Pm25 => "pm25",
        }
    }

    /// The sentence that describes the gauge.
    pub fn help(self) -> (help: &'static str)
        ensures
            help@ == self.help_text(),
    {
        match self {
            Field::Score => "Current Awair Score",
            Field::Temp => "Current temperature in celcius",
            Field::Humid => "Current relative humidity",
            Field::Co2 => "Current CO2 measurement in parts per million",
            Field::Voc => "Current Volatile Organic Compound measurement in parts per billion",
            Field::Pm25 => {
                "Current concentration of 2.5 micron particles in micrograms per meter cubed"
            },
        }
    }

    /// Every field, in the order in which an observation is written.
    pub fn all() -> (fields: Vec<Field>)
        ensures
            fields@ == all_fields(),
    {
        let mut fields: Vec<Field> = Vec::new();
        fields.push(Field::Score);
        fields.push(Field::Temp);
        fields.push(Field::Humid);
        fields.push(Field::Co2);
        fields.push(Field::Voc);
        fields.push(Field::Pm25);
        assert(fields@ =~= all_fields());
        fields
    }
}

/// One observation fetched from a sensor. Each measurement is held as the 64
/// bits of the double that the sensor reported.
#[derive(Clone, Copy, Debug, PartialEq, Eq, Structural)]
pub struct AirData {
    pub timestamp: Timestamp,
    pub score: u64,
    pub temp: u64,
    pub humid: u64,
    pub co2: u64,
    pub voc: u64,
    pub pm25: u64,
}

impl AirData {
    /// The measurement that `field` names.
    pub open spec fn value_of(self, field: Field) -> u64 {
        match field {
            Field::Score => self.score,
            Field::Temp => self.temp,
            Field::Humid => self.humid,
            Field::Co2 => self.co2,
            Field::Voc => self.voc,
            Field::Pm25 => self.pm25,
        }
    }

    /// The measurement that `field` names.
    pub fn value(&self, field: Field) -> (bits: u64)
        ensures
            bits == self.value_of(field),
    {
        match field {
            Field::Score => self.score,
            Field::Temp => self.temp,
            Field::Humid => self.humid,
            Field::Co2 => self.co2,
            Field::Voc => self.voc,
            Field::Pm25 => self.pm25,
        }
    }
}

} // verus!
