use trainsched::problem::{DelayMeasurementType, NamedProblem, Visit};
use trainsched::xml::read_xml_file;

fn instance(extra_info: &str, objective_name: &str) -> String {
    format!(
        r#"<?xml version="1.0" encoding="utf-8"?>
<Instance>
  <Network>
    <Stations>
      <Station StationId="A" MainTrackId="1" />
      <Station StationId="B" MainTrackId="1" />
      <Station StationId="C" MainTrackId="1" />
    </Stations>
    <Tracks>
      <Track TrackId="T1" StationA="A" StationB="B" />
      <Track TrackId="T2" StationA="B" StationB="C" />
    </Tracks>
  </Network>
  <RunningTimes>
    <SpeedClass Id="S">
      <Tracks>
        <TrackTime TrackId="T1" MinimumRunningTimeInSeconds="100" />
        <TrackTime TrackId="T2" MinimumRunningTimeInSeconds="200" />
      </Tracks>
    </SpeedClass>
  </RunningTimes>
  <Objective Name="{objective_name}">
    <TrainDelayPenalties TrainId="1">
      <DelayPenalty StationId="C" FromSeconds="0" ToSeconds="100" FromValue="0" Slope="1.5" />
    </TrainDelayPenalties>
  </Objective>
  <Snapshots>
    <Snapshot Index="0" Now="2020-01-01T10:00:00">
      <TrainInfos>
        <TrainInfo TrainId="1" Position="Offline" DelayInSeconds="60" />
        <TrainInfo TrainId="2" Position="OnConnection" TrackId="T1" TimeIn="2020-01-01T09:59:00" DelayInSeconds="0" />
        {extra_info}
      </TrainInfos>
    </Snapshot>
  </Snapshots>
  <TimeTable>
    <TrainSchedules>
      <TrainSchedule TrainId="1" SpeedClass="S" Type="P" OriginId="A" DestinationId="C" Length="100">
        <Stop StationId="A" AimedArrivalTime="2020-01-01T10:00:00" AimedDepartureTime="2020-01-01T10:01:00" />
        <Stop StationId="B" AimedArrivalTime="2020-01-01T10:03:00" AimedDepartureTime="2020-01-01T10:04:00" />
        <Stop StationId="C" AimedArrivalTime="2020-01-01T10:08:00" AimedDepartureTime="2020-01-01T10:08:00" />
      </TrainSchedule>
      <TrainSchedule TrainId="2" SpeedClass="S" Type="P" OriginId="A" DestinationId="C" Length="100">
        <Stop StationId="A" AimedArrivalTime="2020-01-01T09:58:00" AimedDepartureTime="2020-01-01T09:59:00" />
        <Stop StationId="B" AimedArrivalTime="2020-01-01T10:01:00" AimedDepartureTime="2020-01-01T10:02:00" />
        <Stop StationId="C" AimedArrivalTime="2020-01-01T10:06:00" AimedDepartureTime="2020-01-01T10:06:00" />
      </TrainSchedule>
      <TrainSchedule TrainId="3" SpeedClass="S" Type="P" OriginId="A" DestinationId="B" Length="100">
        <Stop StationId="A" AimedArrivalTime="2020-01-01T09:00:00" AimedDepartureTime="2020-01-01T09:01:00" />
        <Stop StationId="B" AimedArrivalTime="2020-01-01T09:03:00" AimedDepartureTime="2020-01-01T09:03:00" />
      </TrainSchedule>
    </TrainSchedules>
  </TimeTable>
</Instance>
"#
    )
}

type Fields = (usize, i32, Option<i32>, i32);

fn v(resource_id: usize, earliest: i32, aimed: Option<i32>, travel_time: i32) -> Fields {
    (resource_id, earliest, aimed, travel_time)
}

fn fields(vs: &[Visit]) -> Vec<Fields> {
    vs.iter().map(|x| (x.resource_id, x.earliest, x.aimed, x.travel_time)).collect()
}

fn read(text: &str, m: DelayMeasurementType) -> Option<NamedProblem> {
    read_xml_file("inst.xml", text, m)
}

#[test]
fn xml_instance_is_read() {
    let p = read(&instance("", "PiecewiseLinear"), DelayMeasurementType::FinalStationArrival).unwrap();
    assert_eq!(p.problem.name, "inst.xml");
    assert_eq!(p.resource_names, vec!["A", "T1", "B", "T2", "C"]);
    assert_eq!(p.problem.conflicts, vec![(1, 1), (3, 3)]);
    // Train 3 has no position and is left out.
    assert_eq!(p.train_names, vec!["1", "2"]);
    assert_eq!(
        fields(&p.problem.trains[0].visits),
        vec![
            v(0, 60, None, 0),
            v(1, 60, None, 100),
            v(2, 160, None, 0),
            v(3, 240, None, 200),
            v(4, 440, Some(480), 0),
        ]
    );
    // Train 2 is on track T1 and finishes it first.
    assert_eq!(
        fields(&p.problem.trains[1].visits),
        vec![v(1, -60, None, 100), v(2, 40, None, 0), v(3, 120, None, 200), v(4, 320, Some(360), 0)]
    );
}

#[test]
fn xml_aims_follow_the_measurement() {
    let text = instance("", "PiecewiseLinear");
    let arr = read(&text, DelayMeasurementType::AllStationArrivals).unwrap();
    let aims: Vec<Option<i32>> = arr.problem.trains[0].visits.iter().map(|v| v.aimed).collect();
    assert_eq!(aims, vec![Some(0), None, Some(180), None, Some(480)]);
    let dep = read(&text, DelayMeasurementType::AllStationDepartures).unwrap();
    let aims: Vec<Option<i32>> = dep.problem.trains[0].visits.iter().map(|v| v.aimed).collect();
    assert_eq!(aims, vec![None, Some(60), None, Some(240), None]);
    let early = read(&text, DelayMeasurementType::EverywhereEarliest).unwrap();
    let aims: Vec<Option<i32>> = early.problem.trains[1].visits.iter().map(|v| v.aimed).collect();
    assert_eq!(aims, vec![Some(-60), Some(40), Some(120), Some(320)]);
}

#[test]
fn xml_station_positions() {
    // Standing in a station for over an hour: taken as cancelled.
    let stale = r#"<TrainInfo TrainId="3" Position="InStation" StationId="A" TimeIn="2020-01-01T08:00:00" DelayInSeconds="0" />"#;
    let p = read(&instance(stale, "PiecewiseLinear"), DelayMeasurementType::FinalStationArrival).unwrap();
    assert_eq!(p.train_names, vec!["1", "2"]);
    let recent = r#"<TrainInfo TrainId="3" Position="InStation" StationId="A" TimeIn="2020-01-01T09:30:00" DelayInSeconds="0" />"#;
    let p = read(&instance(recent, "PiecewiseLinear"), DelayMeasurementType::FinalStationArrival).unwrap();
    assert_eq!(p.train_names, vec!["1", "2", "3"]);
    assert_eq!(fields(&p.problem.trains[2].visits), vec![v(0, -1800, None, 0), v(1, -1800, None, 100), v(2, -1700, Some(-3420), 0)]);
    let left = r#"<TrainInfo TrainId="3" Position="HasLeftTheNetwork" DelayInSeconds="0" />"#;
    let p = read(&instance(left, "PiecewiseLinear"), DelayMeasurementType::FinalStationArrival).unwrap();
    assert_eq!(p.train_names, vec!["1", "2"]);
}

#[test]
fn xml_bad_instances_are_refused() {
    let m = DelayMeasurementType::FinalStationArrival;
    assert!(read("<Instance", m).is_none());
    assert!(read("<Instance/>", m).is_none());
    assert!(read(&instance("", "Linear"), m).is_none());
    let twice = r#"<TrainInfo TrainId="1" Position="Offline" DelayInSeconds="5" />"#;
    assert!(read(&instance(twice, "PiecewiseLinear"), m).is_none());
    let negative = r#"<TrainInfo TrainId="3" Position="Offline" DelayInSeconds="-5" />"#;
    assert!(read(&instance(negative, "PiecewiseLinear"), m).is_none());
    let unknown = r#"<TrainInfo TrainId="3" Position="Flying" DelayInSeconds="0" />"#;
    assert!(read(&instance(unknown, "PiecewiseLinear"), m).is_none());
    let bad_time = instance("", "PiecewiseLinear").replace("Now=\"2020-01-01T10:00:00\"", "Now=\"noon\"");
    assert!(read(&bad_time, m).is_none());
    let same_pair = instance("", "PiecewiseLinear").replace("StationA=\"B\" StationB=\"C\"", "StationA=\"A\" StationB=\"B\"");
    assert!(read(&same_pair, m).is_none());
}

#[test]
fn xml_penalty_values_must_be_numbers() {
    let m = DelayMeasurementType::FinalStationArrival;
    let base = instance("", "PiecewiseLinear");
    for good in ["2", "-.5", "+3.", "1e5", "2.5E-3", "INF", "-infinity", "NaN"] {
        let text = base.replace("Slope=\"1.5\"", &format!("Slope=\"{}\"", good));
        assert!(read(&text, m).is_some(), "{} is a number", good);
    }
    for bad in ["", ".", "1.2.3", "e5", "1e", "1e+", "abc", " 1", "0x10", "in"] {
        let text = base.replace("Slope=\"1.5\"", &format!("Slope=\"{}\"", bad));
        assert!(read(&text, m).is_none(), "{} is no number", bad);
    }
    let missing = base.replace(" FromValue=\"0\"", "");
    assert!(read(&missing, m).is_none());
}
