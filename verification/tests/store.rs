use std::str::FromStr;

use nbm_tools::{Error, NBMData, TimeStamp};

fn ts(year: i32, month: u32, day: u32, hour: u32) -> TimeStamp {
    TimeStamp { year, month, day, hour }
}

const SAMPLE: &str = "\
 ,APCP24hr_surface_90% level,TMAX\n\
2023010100,1.5,10.5\n\
2023010101,0.0,11.25\n\
2023010102,,9.0\n";

#[test]
fn test_parse() {
    let nbm = NBMData::from_str(SAMPLE).unwrap();
    let init = nbm.initialization_time().unwrap();
    assert_eq!(init, ts(2023, 1, 1, 0));
    println!("{:?}", init);
}

#[test]
fn test_iterator() {
    let nbm = NBMData::from_str(SAMPLE).unwrap();
    let mut iter = nbm.column_iter("APCP24hr_surface_90% level").unwrap();
    let mut seen = 0;
    while let Some((vt, val)) = iter.next() {
        let mm: f32 = val.parse().unwrap();
        println!("{:?}  {}mm", vt, mm);
        seen += 1;
    }
    // the third row's precipitation cell is empty, so it is skipped
    assert_eq!(seen, 2);
}

#[test]
fn concrete_scenario() {
    let text = "time,TMAX,TMIN\n2023010100,10.5,\n2023010101,bad,5.2\n";
    let store = NBMData::create(text).unwrap();
    assert_eq!(store.num_cols(), 2);
    assert_eq!(store.num_rows(), 2);
    assert_eq!(store.initialization_time().unwrap(), ts(2023, 1, 1, 0));

    let mut tmax = store.column_iter("TMAX").unwrap();
    let (vt, val) = tmax.next().unwrap();
    assert_eq!(vt, ts(2023, 1, 1, 0));
    assert_eq!(val.parse::<f32>().unwrap(), 10.5);
    assert!(tmax.next().is_none());
    assert!(tmax.next().is_none());

    let mut tmin = store.column_iter("TMIN").unwrap();
    let (vt, val) = tmin.next().unwrap();
    assert_eq!(vt, ts(2023, 1, 1, 1));
    assert_eq!(val.parse::<f32>().unwrap(), 5.2);
    assert!(tmin.next().is_none());

    let missing = store.column_iter("RH");
    assert!(matches!(missing, Err(Error::NoSuchColumn)));
}

#[test]
fn full_column_yields_every_row_in_order() {
    let nbm = NBMData::from_str(SAMPLE).unwrap();
    let mut iter = nbm.column_iter("TMAX").unwrap();
    let expected = [
        (ts(2023, 1, 1, 0), 10.5f32),
        (ts(2023, 1, 1, 1), 11.25f32),
        (ts(2023, 1, 1, 2), 9.0f32),
    ];
    for (want_ts, want_val) in expected {
        let (vt, val) = iter.next().unwrap();
        assert_eq!(vt, want_ts);
        assert_eq!(val.parse::<f32>().unwrap(), want_val);
    }
    assert!(iter.next().is_none());
}

#[test]
fn missing_cell_skips_exactly_that_row() {
    let nbm = NBMData::from_str(SAMPLE).unwrap();
    let mut iter = nbm.column_iter("APCP24hr_surface_90% level").unwrap();
    let (vt, val) = iter.next().unwrap();
    assert_eq!(vt, ts(2023, 1, 1, 0));
    assert_eq!(val.parse::<f32>().unwrap(), 1.5);
    let (vt, val) = iter.next().unwrap();
    assert_eq!(vt, ts(2023, 1, 1, 1));
    assert_eq!(val.parse::<f32>().unwrap(), 0.0);
    assert!(iter.next().is_none());

    // a column where one row's cell is missing yields one pair fewer
    let text = "k,A\n2021060112,7.5\n2021060113,x\n2021060114,-2.25\n";
    let store = NBMData::create(text).unwrap();
    let mut a = store.column_iter("A").unwrap();
    let (vt, val) = a.next().unwrap();
    assert_eq!(vt, ts(2021, 6, 1, 12));
    assert_eq!(val.parse::<f32>().unwrap(), 7.5);
    let (vt, val) = a.next().unwrap();
    assert_eq!(vt, ts(2021, 6, 1, 14));
    assert_eq!(val.parse::<f32>().unwrap(), -2.25);
    assert!(a.next().is_none());
}

#[test]
fn column_iter_twice_is_identical() {
    let nbm = NBMData::from_str(SAMPLE).unwrap();
    let mut first = nbm.column_iter("TMAX").unwrap();
    let mut second = nbm.column_iter("TMAX").unwrap();
    let mut drained_first = vec![];
    while let Some(p) = first.next() {
        drained_first.push(p);
    }
    let mut drained_second = vec![];
    while let Some(p) = second.next() {
        drained_second.push(p);
    }
    assert_eq!(drained_first.len(), drained_second.len());
    for (a, b) in drained_first.iter().zip(drained_second.iter()) {
        assert_eq!(a.0, b.0);
        assert_eq!(a.1, b.1);
    }
}

#[test]
fn header_only_file_constructs_with_zero_rows() {
    let store = NBMData::create("time,TMAX,TMIN\n").unwrap();
    assert_eq!(store.num_rows(), 0);
    assert_eq!(store.num_cols(), 2);
    let init = store.initialization_time();
    assert!(matches!(init, Err(Error::General(_))));
}

#[test]
fn header_without_newline_constructs_too() {
    let store = NBMData::create("time,T2M").unwrap();
    assert_eq!(store.num_rows(), 0);
    assert_eq!(store.num_cols(), 1);
    assert!(store.initialization_time().is_err());
}

#[test]
fn malformed_timestamp_row_is_refused_as_shape_mismatch() {
    // the second row's key has the wrong length, so it is dropped, and the
    // dropped row leaves fewer timestamps than the line count promises
    let text = "time,TMAX\n2023010100,1.0\n20230101,2.0\n";
    let r = NBMData::create(text);
    assert!(matches!(r, Err(Error::ShapeMismatch)));
}

#[test]
fn ragged_row_is_refused_as_shape_mismatch() {
    let text = "time,TMAX,TMIN\n2023010100,1.0\n";
    let r = NBMData::create(text);
    assert!(matches!(r, Err(Error::ShapeMismatch)));
}

#[test]
fn empty_input_is_malformed() {
    let r = NBMData::create("");
    assert!(matches!(r, Err(Error::MalformedInput)));
}

#[test]
fn first_matching_column_wins() {
    let text = "time,DUP,DUP\n2023010100,1.0,2.0\n";
    let store = NBMData::create(text).unwrap();
    let mut it = store.column_iter("DUP").unwrap();
    let (_, val) = it.next().unwrap();
    assert_eq!(val.parse::<f32>().unwrap(), 1.0);
}

#[test]
fn column_names_are_trimmed() {
    let text = "time,  TMAX , TMIN\n2023010100,1.0,2.0\n";
    let store = NBMData::create(text).unwrap();
    assert!(store.column_iter("TMAX").is_ok());
    assert!(store.column_iter("TMIN").is_ok());
    assert!(matches!(store.column_iter("  TMAX "), Err(Error::NoSuchColumn)));
}

#[test]
fn error_messages_and_general_error() {
    let e = Error::general_error(String::from("boom"));
    assert!(matches!(&e, Error::General(m) if m == "boom"));
    assert_eq!(e.message(), "boom");
    assert_eq!(Error::NoSuchColumn.message(), "no such column");
    assert_eq!(Error::MalformedInput.message(), "malformed input");
    assert_eq!(Error::ShapeMismatch.message(), "shape mismatch");
    assert_eq!(Error::Internal(String::from("cause")).message(), "cause");
}

#[test]
fn crlf_line_endings_are_accepted() {
    let text = "time,TMAX\r\n2023010100,3.25\r\n";
    let store = NBMData::create(text).unwrap();
    assert_eq!(store.num_rows(), 1);
    let mut it = store.column_iter("TMAX").unwrap();
    let (vt, val) = it.next().unwrap();
    assert_eq!(vt, ts(2023, 1, 1, 0));
    assert_eq!(val.parse::<f32>().unwrap(), 3.25);
}
