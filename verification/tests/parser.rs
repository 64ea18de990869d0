use trainsched::parser::{parse_solution_txt, read_txt_file, try_parse_solution_txt, try_read_txt_file, TxtParseError};
use trainsched::problem::{DelayMeasurementType, Visit};
use trainsched::text::{chars_of, fields_of, lines_of, parse_i32_chars, push_decimal_i64, split_key_value};

const SAMPLE: &str = "Solution of instance X\n\nTrain=166 Init Delay=0 FinalDelay=49\nT24 TrainID=166 AimedDepartureTime=3118 WaitTime=0 Delay=0 RunTime=143 FinalTimeScheduled=3118\nT25 TrainID=166 AimedDepartureTime=3261 WaitTime=5 Delay=0 RunTime=100 FinalTimeScheduled=3300\n\nTrain=167 Init Delay=3 FinalDelay=0\nT1 TrainID=167 AimedDepartureTime=10 WaitTime=0 Delay=0 RunTime=1 FinalTimeScheduled=12\n";

#[test]
fn parses_trains_and_visits() {
    let trains = parse_solution_txt(SAMPLE).unwrap();
    assert_eq!(trains.len(), 2);
    assert_eq!(trains[0].name, "166");
    assert_eq!(trains[0].delay, 0);
    assert_eq!(trains[0].final_delay, 49);
    assert_eq!(trains[0].visits.len(), 2);
    assert_eq!(trains[0].visits[0].track_name, "T24");
    assert_eq!(trains[0].visits[0].aimed_departure_time, 3118);
    assert_eq!(trains[0].visits[0].run_time, 143);
    assert_eq!(trains[0].visits[1].wait_time, 5);
    assert_eq!(trains[0].visits[1].final_time_scheduled, 3300);
    assert_eq!(trains[1].name, "167");
    assert_eq!(trains[1].delay, 3);
    assert_eq!(trains[1].visits.len(), 1);
    assert_eq!(trains[1].visits[0].track_name, "T1");
}

#[test]
fn refuses_bad_numbers_and_missing_fields() {
    let bad_number = "h\n\nTrain=1 Init Delay=x FinalDelay=0\nT TrainID=1 AimedDepartureTime=1 WaitTime=0 Delay=0 RunTime=1 FinalTimeScheduled=1\n";
    assert_eq!(parse_solution_txt(bad_number).unwrap_err(), TxtParseError);
    let missing = "h\n\nTrain=1 Init Delay=0\n";
    assert!(parse_solution_txt(missing).is_err());
    let no_equals = "h\n\nTrain=1 Init Delay=0 FinalDelay=0\nT TrainID=1 AimedDepartureTime 1\n";
    assert!(parse_solution_txt(no_equals).is_err());
}

#[test]
fn empty_body_has_no_trains() {
    assert!(parse_solution_txt("header\n\n").unwrap().is_empty());
}

#[test]
fn text_lines_and_fields() {
    let t = chars_of("a b\r\n\n c\t d \r");
    let ls = lines_of(&t);
    let ls: Vec<String> = ls.iter().map(|l| l.iter().collect()).collect();
    assert_eq!(ls, vec!["a b".to_string(), "".to_string(), " c\t d \r".to_string()]);
    let fs = fields_of(&chars_of(" c\t d \r"));
    let fs: Vec<String> = fs.iter().map(|f| f.iter().collect()).collect();
    assert_eq!(fs, vec!["c".to_string(), "d".to_string()]);
    assert_eq!("x\n".lines().count(), lines_of(&chars_of("x\n")).len());
}

#[test]
fn key_values_and_numbers() {
    let (k, v) = split_key_value(&chars_of("a=b=c")).unwrap();
    assert_eq!(k.iter().collect::<String>(), "a");
    assert_eq!(v.iter().collect::<String>(), "b");
    assert!(split_key_value(&chars_of("abc")).is_none());
    assert_eq!(parse_i32_chars(&chars_of("+12")), Some(12));
    assert_eq!(parse_i32_chars(&chars_of("-2147483648")), Some(i32::MIN));
    assert_eq!(parse_i32_chars(&chars_of("2147483648")), None);
    assert_eq!(parse_i32_chars(&chars_of("-")), None);
    assert_eq!(parse_i32_chars(&chars_of("1a")), None);
    assert_eq!(parse_i32_chars(&chars_of("")), None);
    for s in ["0", "-0", "007", "123456789", "-99999999999", "+-1"] {
        assert_eq!(parse_i32_chars(&chars_of(s)), s.parse::<i32>().ok());
    }
}

#[test]
fn decimal_forms() {
    for n in [0i64, 7, -7, 10, 1234567890, i64::MIN, i64::MAX] {
        let mut s = String::from("x");
        push_decimal_i64(&mut s, n);
        assert_eq!(s, format!("x{}", n));
    }
}

const INSTANCE: &str = "TrainId=1 Delay=0 FreeRun=0\nT1 Train1 AimedDepartureTime=100 WaitTime=10 BaseTime=50 RunTime=30\nT2 Train1 AimedDepartureTime=200 WaitTime=5 BaseTime=90 RunTime=20\n\nTrainId=2 Delay=0 FreeRun=0\nT2 Train2 AimedDepartureTime=150 WaitTime=0 BaseTime=60 RunTime=25\n";

const INSTANCE_WITH_SOLUTION: &str = "TrainId=1 Delay=0 FreeRun=0\nT1 Train1 AimedDepartureTime=100 WaitTime=10 BaseTime=50 RunTime=30 OptSolTime=60\nT2 Train1 AimedDepartureTime=200 WaitTime=5 BaseTime=90 RunTime=20 OptSolTime=95\n";

fn visit(resource_id: usize, earliest: i32, aimed: Option<i32>, travel_time: i32) -> Visit {
    Visit { resource_id, earliest, aimed, travel_time }
}

fn same_visits(a: &[Visit], b: &[Visit]) -> bool {
    a.len() == b.len()
        && a.iter().zip(b.iter()).all(|(x, y)| {
            x.resource_id == y.resource_id
                && x.earliest == y.earliest
                && x.aimed == y.aimed
                && x.travel_time == y.travel_time
        })
}

#[test]
fn reads_txt_instance_final_arrivals() {
    let (named, sol, written) =
        read_txt_file("inst", INSTANCE, DelayMeasurementType::FinalStationArrival, false, None);
    assert_eq!(named.problem.name, "inst");
    assert_eq!(named.train_names, vec!["Train1".to_string(), "Train2".to_string()]);
    assert_eq!(
        named.resource_names,
        vec!["Any station".to_string(), "T1".to_string(), "T2".to_string()]
    );
    assert_eq!(named.problem.conflicts, vec![(1, 1), (2, 2)]);
    assert!(sol.is_none());
    assert_eq!(
        written,
        vec![
            "TrainId=1 Delay=0 FreeRun=0".to_string(),
            "".to_string(),
            "TrainId=2 Delay=0 FreeRun=0".to_string()
        ]
    );
    assert_eq!(named.problem.trains.len(), 2);
    assert!(same_visits(
        &named.problem.trains[0].visits,
        &[
            visit(0, 40, None, 10),
            visit(1, 50, None, 30),
            visit(0, 80, None, 5),
            visit(2, 90, Some(200), 20),
            visit(0, 110, None, 0),
        ]
    ));
    assert!(same_visits(
        &named.problem.trains[1].visits,
        &[visit(0, 60, None, 0), visit(2, 60, Some(150), 25), visit(0, 85, None, 0)]
    ));
}

#[test]
fn reads_txt_instance_arrivals_and_departures() {
    let (arr, _, _) =
        read_txt_file("inst", INSTANCE, DelayMeasurementType::AllStationArrivals, false, None);
    let v = &arr.problem.trains[0].visits;
    assert_eq!(v[0].aimed, Some(90));
    assert_eq!(v[1].aimed, None);
    assert_eq!(v[2].aimed, Some(195));
    let (dep, _, _) =
        read_txt_file("inst", INSTANCE, DelayMeasurementType::AllStationDepartures, false, None);
    let v = &dep.problem.trains[0].visits;
    assert_eq!(v[0].aimed, None);
    assert_eq!(v[1].aimed, Some(100));
    assert_eq!(v[3].aimed, Some(200));
}

#[test]
fn reads_txt_instance_with_solution() {
    let (named, sol, _) = read_txt_file(
        "inst",
        INSTANCE_WITH_SOLUTION,
        DelayMeasurementType::FinalStationArrival,
        true,
        None,
    );
    assert_eq!(sol, Some(vec![vec![50, 60, 90, 95, 115, 115]]));
    assert_eq!(named.problem.trains[0].visits.len(), 5);
}

#[test]
fn writes_txt_visit_lines_with_given_solution() {
    let given = vec![vec![0, 7, 8, 9, 10, 11], vec![0, 3, 4, 5]];
    let (_, _, written) = read_txt_file(
        "inst",
        INSTANCE,
        DelayMeasurementType::FinalStationArrival,
        false,
        Some(given),
    );
    assert_eq!(
        written,
        vec![
            "TrainId=1 Delay=0 FreeRun=0".to_string(),
            "T1 Train1 AimedDepartureTime=100 WaitTime=10 BaseTime=50 RunTime=30\tOptSolTime=7".to_string(),
            "T2 Train1 AimedDepartureTime=200 WaitTime=5 BaseTime=90 RunTime=20\tOptSolTime=9".to_string(),
            "".to_string(),
            "TrainId=2 Delay=0 FreeRun=0".to_string(),
            "T2 Train2 AimedDepartureTime=150 WaitTime=0 BaseTime=60 RunTime=25\tOptSolTime=3".to_string(),
        ]
    );
}

#[test]
fn txt_instance_lines_that_cannot_be_read() {
    let m = DelayMeasurementType::FinalStationArrival;
    // a visit of another train than the one being read
    assert!(try_read_txt_file("i", "TrainId=1 Delay=0 FreeRun=0\nT1 Train2 AimedDepartureTime=1 WaitTime=0 BaseTime=0 RunTime=1\n", m, false, None).is_none());
    // a header without a train
    assert!(try_read_txt_file("i", "TrainId=1 Delay=0 FreeRun=0\n", m, false, None).is_none());
    // a missing key
    assert!(try_read_txt_file("i", "TrainId=1 Delay=0\n", m, false, None).is_none());
    // a solution time that is missing
    assert!(try_read_txt_file("i", INSTANCE, m, true, None).is_none());
    // a measurement that is not supported
    assert!(try_read_txt_file("i", INSTANCE, DelayMeasurementType::EverywhereEarliest, false, None).is_none());
    // nothing at all
    let (named, _, written) = read_txt_file("i", "", m, false, None);
    assert_eq!(named.problem.trains.len(), 0);
    assert_eq!(named.resource_names, vec!["Any station".to_string()]);
    assert!(named.problem.conflicts.is_empty());
    assert!(written.is_empty());
}

#[test]
fn try_parse_tells_unreadable_files() {
    assert!(try_parse_solution_txt("only one line").is_none());
    let wrong_key = "h\n\nTrian=1 Init Delay=0 FinalDelay=0\n";
    assert!(try_parse_solution_txt(wrong_key).is_none());
    let other_train = "h\n\nTrain=1 Init Delay=0 FinalDelay=0\nT TrainID=2 AimedDepartureTime=1 WaitTime=0 Delay=0 RunTime=1 FinalTimeScheduled=1\n";
    assert!(try_parse_solution_txt(other_train).is_none());
    let delayed = "h\n\nTrain=1 Init Delay=0 FinalDelay=0\nT TrainID=1 AimedDepartureTime=1 WaitTime=0 Delay=3 RunTime=1 FinalTimeScheduled=1\n";
    assert!(try_parse_solution_txt(delayed).is_none());
    let bad_number = "h\n\nTrain=1 Init Delay=x FinalDelay=0\n";
    assert!(matches!(try_parse_solution_txt(bad_number), Some(Err(TxtParseError))));
    let trains = try_parse_solution_txt(SAMPLE).unwrap().unwrap();
    assert_eq!(trains.len(), 2);
    assert_eq!(trains[1].visits[0].final_time_scheduled, 12);
}
