use cropi::aggregate::{aggregate, merge_buckets, report_buckets, Bucket, Quantity};
use cropi::backfill::plan_backfill;
use cropi::risk::{
    after_station, assess_station_page, count_qualifying_samples, evaluate_risk, Condition, RiskEvaluation,
    ScanStep, StationResult,
};
use cropi::stamp::{Day, Stamp};
use cropi::table::{StationReading, Triple};

fn triple(v: i64) -> Triple {
    Triple { inst: v, min: v, max: v }
}

fn at(day: u8, hour: u8, minute: u8, temperature: i64, humidity: i64) -> StationReading {
    StationReading {
        stamp: Stamp::new(2024, 2, day, hour, minute).unwrap(),
        temperature: triple(temperature),
        humidity: triple(humidity),
        wind: triple(0),
        pressure: triple(0),
        visibility: triple(0),
        uv_index: 0,
        precipitation: 0,
    }
}

fn day(d: u8) -> Day {
    Day { year: 2024, month: 2, day: d }
}

fn window() -> (Stamp, Stamp) {
    (Stamp::new(2024, 1, 1, 0, 0).unwrap(), Stamp::new(2024, 12, 31, 23, 59).unwrap())
}

#[test]
fn buckets_by_temperature_floor_and_raw_humidity() {
    let rs = vec![at(1, 8, 0, 18200, 80000), at(1, 8, 10, 18400, 85000), at(1, 8, 10, 18400, 92000)];
    let (s, e) = window();
    let t = aggregate(&rs, Quantity::TemperatureFloor, s, e);
    assert_eq!(t, vec![Bucket { day: day(1), value: 18000, count: 2 }]);
    let h = aggregate(&rs, Quantity::HumidityRaw, s, e);
    assert_eq!(
        h,
        vec![
            Bucket { day: day(1), value: 80000, count: 1 },
            Bucket { day: day(1), value: 85000, count: 1 },
            Bucket { day: day(1), value: 92000, count: 1 },
        ]
    );
}

#[test]
fn buckets_are_sorted_by_day_then_value() {
    let rs = vec![
        at(2, 9, 0, 21500, 95000),
        at(1, 9, 0, 22100, 95000),
        at(2, 9, 10, 19900, 95000),
        at(1, 9, 10, 22900, 95000),
        at(1, 9, 20, -500, 95000),
    ];
    let (s, e) = window();
    let t = aggregate(&rs, Quantity::TemperatureFloor, s, e);
    assert_eq!(
        t,
        vec![
            Bucket { day: day(1), value: -1000, count: 1 },
            Bucket { day: day(1), value: 22000, count: 2 },
            Bucket { day: day(2), value: 19000, count: 1 },
            Bucket { day: day(2), value: 21000, count: 1 },
        ]
    );
}

#[test]
fn readings_after_the_window_are_left_out() {
    let rs = vec![at(1, 8, 0, 18200, 90000), at(1, 8, 10, 18300, 90000), at(1, 8, 20, 18400, 90000)];
    let s = Stamp::new(2024, 1, 20, 0, 0).unwrap();
    let e = Stamp::new(2024, 2, 1, 8, 10).unwrap();
    let t = aggregate(&rs, Quantity::TemperatureFloor, s, e);
    assert_eq!(t, vec![Bucket { day: day(1), value: 18000, count: 2 }]);
    let late = Stamp::new(2024, 2, 1, 8, 5).unwrap();
    let t = aggregate(&rs, Quantity::TemperatureFloor, late, e);
    assert_eq!(t, vec![Bucket { day: day(1), value: 18000, count: 1 }]);
}

#[test]
fn aggregate_of_nothing_is_empty() {
    let (s, e) = window();
    assert!(aggregate(&vec![], Quantity::HumidityRaw, s, e).is_empty());
}

#[test]
fn reaggregating_buckets_reproduces_them() {
    let rs = vec![
        at(1, 8, 0, 18200, 91000),
        at(1, 8, 10, 18900, 91000),
        at(1, 8, 20, 20100, 93000),
        at(2, 8, 0, 18200, 91000),
    ];
    let (s, e) = window();
    let t = aggregate(&rs, Quantity::TemperatureFloor, s, e);
    assert_eq!(merge_buckets(&t), t);
    let h = aggregate(&rs, Quantity::HumidityRaw, s, e);
    assert_eq!(merge_buckets(&h), h);
}

#[test]
fn merging_sums_counts_per_key() {
    let bs = vec![
        Bucket { day: day(2), value: 5, count: 3 },
        Bucket { day: day(1), value: 7, count: 1 },
        Bucket { day: day(2), value: 5, count: 4 },
    ];
    assert_eq!(
        merge_buckets(&bs),
        vec![Bucket { day: day(1), value: 7, count: 1 }, Bucket { day: day(2), value: 5, count: 7 }]
    );
}

#[test]
fn shared_timestamp_counts_once() {
    let rs = vec![at(1, 8, 10, 18400, 92000), at(1, 8, 10, 18600, 95000), at(1, 8, 20, 18000, 80000)];
    let (s, e) = window();
    assert_eq!(count_qualifying_samples(&rs, Condition::Warm, s, e), 2);
    assert_eq!(count_qualifying_samples(&rs, Condition::Humid, s, e), 1);
}

#[test]
fn warm_and_humid_bounds_are_strict() {
    let rs = vec![
        at(1, 0, 0, 17000, 90000),
        at(1, 0, 10, 24000, 90001),
        at(1, 0, 20, 17001, 90000),
        at(1, 0, 30, 23999, 100000),
    ];
    let (s, e) = window();
    let ev = evaluate_risk(&rs, s, e);
    assert_eq!(ev, RiskEvaluation { warm_samples: 2, humid_samples: 2 });
}

fn samples(n: u8, temperature: i64, humidity: i64) -> Vec<StationReading> {
    let mut rs = Vec::new();
    for k in 0..n {
        rs.push(at(1, k / 6, (k % 6) * 10, temperature, humidity));
    }
    rs
}

#[test]
fn thirteen_samples_of_each_trigger_fanout() {
    let (s, e) = window();
    let ev = evaluate_risk(&samples(13, 20000, 95000), s, e);
    assert_eq!(ev, RiskEvaluation { warm_samples: 13, humid_samples: 13 });
    assert!(ev.triggers_fanout());
}

#[test]
fn twelve_samples_of_each_do_not_trigger_fanout() {
    let (s, e) = window();
    let ev = evaluate_risk(&samples(12, 20000, 95000), s, e);
    assert_eq!(ev, RiskEvaluation { warm_samples: 12, humid_samples: 12 });
    assert!(!ev.triggers_fanout());
    assert!(!RiskEvaluation { warm_samples: 13, humid_samples: 12 }.triggers_fanout());
    assert!(!RiskEvaluation { warm_samples: 12, humid_samples: 40 }.triggers_fanout());
}

#[test]
fn backfill_with_existing_buckets_inserts_nothing() {
    let rs = vec![at(1, 8, 0, 18200, 92000)];
    let (s, e) = window();
    let plan = plan_backfill(true, &rs, s, e);
    assert!(plan.temperatures.is_empty());
    assert!(plan.humidities.is_empty());
}

#[test]
fn backfill_without_buckets_stores_both_variables() {
    let rs = vec![at(1, 8, 0, 18200, 92000), at(1, 8, 10, 18700, 92000), at(1, 9, 0, 30000, 50000)];
    let s = Stamp::new(2024, 1, 20, 0, 0).unwrap();
    let occurrence = Stamp::new(2024, 2, 1, 8, 30).unwrap();
    let plan = plan_backfill(false, &rs, s, occurrence);
    assert_eq!(plan.temperatures, vec![Bucket { day: day(1), value: 18000, count: 2 }]);
    assert_eq!(plan.humidities, vec![Bucket { day: day(1), value: 92000, count: 2 }]);
}

#[test]
fn station_page_assessment_counts_samples() {
    let mut html = String::from("<table><tbody class=\"tabela-body\">");
    for (time, temp) in [("0800", "18,2"), ("0810", "25,0"), ("0820", "")] {
        html.push_str("<tr class=\"tabela-row\">");
        let mut cells = vec!["01/02/2024", time, temp];
        cells.extend(["0", "0", "95", "0", "0", "0", "0", "0", "0", "0", "0", "0", "0", "0", "0", "0"]);
        for c in cells {
            html.push_str("<td class=\"aligned\">");
            html.push_str(c);
            html.push_str("</td>");
        }
        html.push_str("</tr>");
    }
    html.push_str("</tbody></table>");
    let (s, e) = window();
    let ev = assess_station_page(&html, s, e).unwrap();
    assert_eq!(ev, RiskEvaluation { warm_samples: 1, humid_samples: 2 });
}

#[test]
fn report_lists_mild_temperatures_and_high_humidity() {
    let bs = vec![
        Bucket { day: day(1), value: 16000, count: 1 },
        Bucket { day: day(1), value: 17000, count: 2 },
        Bucket { day: day(1), value: 25000, count: 3 },
        Bucket { day: day(1), value: 26000, count: 4 },
    ];
    assert_eq!(report_buckets(&bs, Quantity::TemperatureFloor), vec![bs[1], bs[2]]);
    let hs = vec![
        Bucket { day: day(1), value: 89900, count: 1 },
        Bucket { day: day(1), value: 90000, count: 2 },
        Bucket { day: day(2), value: 97500, count: 3 },
    ];
    assert_eq!(report_buckets(&hs, Quantity::HumidityRaw), vec![hs[1], hs[2]]);
}

#[test]
fn station_failures_stay_with_the_station() {
    assert_eq!(after_station(StationResult::SessionUnavailable), ScanStep::AbortRun);
    assert_eq!(after_station(StationResult::FetchFailed), ScanStep::NextStation);
    assert_eq!(after_station(StationResult::TableUnreadable), ScanStep::NextStation);
    let calm = RiskEvaluation { warm_samples: 12, humid_samples: 13 };
    assert_eq!(after_station(StationResult::Assessed(calm)), ScanStep::NextStation);
    let risky = RiskEvaluation { warm_samples: 13, humid_samples: 13 };
    assert_eq!(after_station(StationResult::Assessed(risky)), ScanStep::AlertGrowers);
}

#[test]
fn duplicate_timestamp_anywhere_counts_once() {
    let rs = vec![at(1, 8, 10, 18400, 92000), at(1, 8, 20, 18000, 80000), at(1, 8, 10, 19000, 95000)];
    let (s, e) = window();
    assert_eq!(count_qualifying_samples(&rs, Condition::Warm, s, e), 2);
    assert_eq!(count_qualifying_samples(&rs, Condition::Humid, s, e), 1);
}
