use awair_exporter::gauges::{help_for, label_name, name_of};
use awair_exporter::reading::{AirData, Field, Timestamp};

#[test]
fn gauges_are_named_in_namespace_and_subsystem() {
    assert_eq!(name_of(Field::Score), "awair_sensors_score");
    assert_eq!(name_of(Field::Temp), "awair_sensors_temp");
    assert_eq!(name_of(Field::Humid), "awair_sensors_humidity");
    assert_eq!(name_of(Field::Co2), "awair_sensors_co2");
    assert_eq!(name_of(Field::Voc), "awair_sensors_voc");
    assert_eq!(name_of(Field::Pm25), "awair_sensors_pm25");
}

#[test]
fn gauge_names_are_all_different() {
    let fields = Field::all();
    for a in 0..fields.len() {
        for b in 0..fields.len() {
            if a != b {
                assert_ne!(name_of(fields[a]), name_of(fields[b]));
            }
        }
    }
}

#[test]
fn fields_come_in_the_order_they_are_written() {
    assert_eq!(
        Field::all(),
        vec![Field::Score, Field::Temp, Field::Humid, Field::Co2, Field::Voc, Field::Pm25]
    );
}

#[test]
fn short_names() {
    assert_eq!(Field::Score.name(), "score");
    assert_eq!(Field::Temp.name(), "temp");
    assert_eq!(Field::Humid.name(), "humidity");
    assert_eq!(Field::Co2.name(), "co2");
    assert_eq!(Field::Voc.name(), "voc");
    assert_eq!(Field::Pm25.name(), "pm25");
}

#[test]
fn help_texts() {
    assert_eq!(Field::Score.help(), "Current Awair Score");
    assert_eq!(Field::Temp.help(), "Current temperature in celcius");
    assert_eq!(Field::Humid.help(), "Current relative humidity");
    assert_eq!(Field::Co2.help(), "Current CO2 measurement in parts per million");
    assert_eq!(
        Field::Voc.help(),
        "Current Volatile Organic Compound measurement in parts per billion"
    );
    assert_eq!(
        Field::Pm25.help(),
        "Current concentration of 2.5 micron particles in micrograms per meter cubed"
    );
}

#[test]
fn help_is_found_by_full_name() {
    for field in Field::all() {
        assert_eq!(help_for(&name_of(field)), field.help());
    }
    assert_eq!(help_for("awair_sensors_co2"), "Current CO2 measurement in parts per million");
}

#[test]
fn help_of_a_name_that_is_no_gauge_is_empty() {
    assert_eq!(help_for("co2"), "");
    assert_eq!(help_for(""), "");
    assert_eq!(help_for("awair_sensors_"), "");
    assert_eq!(help_for("awair_sensors_co2 "), "");
}

#[test]
fn source_label_name() {
    assert_eq!(label_name(), "airdata_url");
}

#[test]
fn value_by_field() {
    let data = AirData {
        timestamp: Timestamp { seconds: 1_700_000_000, nanos: 250 },
        score: 1,
        temp: 2,
        humid: 3,
        co2: 4,
        voc: 5,
        pm25: 6,
    };
    assert_eq!(data.value(Field::Score), 1);
    assert_eq!(data.value(Field::Temp), 2);
    assert_eq!(data.value(Field::Humid), 3);
    assert_eq!(data.value(Field::Co2), 4);
    assert_eq!(data.value(Field::Voc), 5);
    assert_eq!(data.value(Field::Pm25), 6);
}
