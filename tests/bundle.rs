use bufr_decoder::bundle::collect_series;
use bufr_decoder::decoder::{Observation, ObservedValue};

fn num(d: &str, unit: &str, n: i128, s: i128) -> Observation {
    Observation {
        description: d.to_string(),
        unit: unit.to_string(),
        value: ObservedValue::Number { numerator: n, scale: s },
    }
}

#[test]
fn series_grouped_by_description() {
    let obs = vec![
        num("temperature", "K", 2731, 1),
        num("pressure", "Pa", 101325, 0),
        Observation { description: "station".to_string(), unit: "CCITT IA5".to_string(), value: ObservedValue::Text(Some("X".to_string())) },
        num("temperature", "C", 2740, 1),
    ];
    let series = collect_series(&obs);
    assert_eq!(series.len(), 2);
    assert_eq!(series[0].description, "temperature");
    assert_eq!(series[0].unit, "K");
    assert_eq!(series[0].values, vec![(2731, 1), (2740, 1)]);
    assert_eq!(series[1].description, "pressure");
    assert_eq!(series[1].values, vec![(101325, 0)]);
}

#[test]
fn no_observations_no_series() {
    assert!(collect_series(&Vec::new()).is_empty());
}
