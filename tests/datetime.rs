use muon_rs::{Date, DateTime, ParseError, Time, TimeOffset};

#[test]
fn date_time_ok() -> Result<(), Box<ParseError>> {
    assert_eq!(2011, "2011-01-01T12:30:15Z".parse::<DateTime>()?.date().year());
    assert_eq!(4, "2002-04-02T04:57:19.001+00:00".parse::<DateTime>()?.date().month());
    assert_eq!(15, "1975-03-15T19:23:00+07:00".parse::<DateTime>()?.date().day());
    assert_eq!(22, "2009-10-03T22:03:19-05:00".parse::<DateTime>()?.time().hour());
    assert_eq!(59, "2025-09-29T14:59:13.392853953+10:45".parse::<DateTime>()?.time().minute());
    assert_eq!(48, "2015-05-27T18:31:48.123-06:00".parse::<DateTime>()?.time().second());
    assert_eq!(
        987_654_321,
        "2003-08-22T01:55:11.987654321+02:30".parse::<DateTime>()?.time().nanosecond()
    );
    assert_eq!(0, "2007-01-11T05:45:12+04:00".parse::<DateTime>()?.time().nanosecond());
    assert_eq!(
        -21600,
        "2012-06-21T19:03:00.0-06:00".parse::<DateTime>()?.time_offset().seconds()
    );
    Ok(())
}

#[test]
fn date_time_err() -> Result<(), Box<ParseError>> {
    assert!("".parse::<DateTime>().is_err());
    assert!("0000".parse::<DateTime>().is_err());
    assert!("0000-00-00T00:00:00Z".parse::<DateTime>().is_err());
    assert!("2000-01-01t00:00:00Z".parse::<DateTime>().is_err());
    assert!("2000-01-01TT00:00:00Z".parse::<DateTime>().is_err());
    assert!("2000-01-01 00:00:00Z".parse::<DateTime>().is_err());
    assert!("2000-01-01T00:00:00 Z".parse::<DateTime>().is_err());
    assert!("2000-01-01T00:00:00=00:00".parse::<DateTime>().is_err());
    assert!("2000-01-01T00:00:00.00 +00:00".parse::<DateTime>().is_err());
    assert!("2000-01-01T00:00:00.00.-00:00".parse::<DateTime>().is_err());
    Ok(())
}

#[test]
fn date_ok() -> Result<(), Box<ParseError>> {
    assert_eq!(2011, "2011-01-01".parse::<Date>()?.year());
    assert_eq!(2050, "2050-04-30".parse::<Date>()?.year());
    assert_eq!(1, "1999-01-31".parse::<Date>()?.month());
    assert_eq!(12, "2004-12-01".parse::<Date>()?.month());
    assert_eq!(1, "1950-09-01".parse::<Date>()?.day());
    assert_eq!(31, "2019-07-31".parse::<Date>()?.day());
    assert_eq!(29, "2400-02-29".parse::<Date>()?.day());
    assert_eq!(29, "2004-02-29".parse::<Date>()?.day());
    assert_eq!(29, "2000-02-29".parse::<Date>()?.day());
    Ok(())
}

#[test]
fn date_err() -> Result<(), Box<ParseError>> {
    assert!("".parse::<Date>().is_err());
    assert!("0000".parse::<Date>().is_err());
    assert!("0000-00".parse::<Date>().is_err());
    assert!("0000-00-".parse::<Date>().is_err());
    assert!("0000-00-0".parse::<Date>().is_err());
    assert!("0000-00-00".parse::<Date>().is_err());
    assert!("1999-00-01".parse::<Date>().is_err());
    assert!("2010-01-32".parse::<Date>().is_err());
    assert!("2011-04-31".parse::<Date>().is_err());
    assert!("2015-13-01".parse::<Date>().is_err());
    assert!("2018-01-00".parse::<Date>().is_err());
    assert!("1900-02-29".parse::<Date>().is_err());
    assert!("2019:07-31".parse::<Date>().is_err());
    Ok(())
}

#[test]
fn time_ok() -> Result<(), Box<ParseError>> {
    assert_eq!(0, "00:00:00".parse::<Time>()?.hour());
    assert_eq!(23, "23:00:00".parse::<Time>()?.hour());
    assert_eq!(0, "12:00:34".parse::<Time>()?.minute());
    assert_eq!(45, "12:45:34".parse::<Time>()?.minute());
    assert_eq!(0, "12:34:00".parse::<Time>()?.second());
    assert_eq!(15, "12:45:15".parse::<Time>()?.second());
    Ok(())
}

#[test]
fn time_err() -> Result<(), Box<ParseError>> {
    assert!("".parse::<Time>().is_err());
    assert!("00".parse::<Time>().is_err());
    assert!("00:00".parse::<Time>().is_err());
    assert!("00:00:".parse::<Time>().is_err());
    assert!("00:00:0".parse::<Time>().is_err());
    assert!("00;00:00".parse::<Time>().is_err());
    assert!("00:00:00:0".parse::<Time>().is_err());
    assert!("24:00:00".parse::<Time>().is_err());
    assert!("00:60:00".parse::<Time>().is_err());
    assert!("00:00:60".parse::<Time>().is_err());
    Ok(())
}

#[test]
fn offset_ok() -> Result<(), Box<ParseError>> {
    assert_eq!(0, "Z".parse::<TimeOffset>()?.seconds());
    assert_eq!(0, "-00:00".parse::<TimeOffset>()?.seconds());
    assert_eq!(3600, "+01:00".parse::<TimeOffset>()?.seconds());
    assert_eq!(-18000, "-05:00".parse::<TimeOffset>()?.seconds());
    assert_eq!(-1800, "-00:30".parse::<TimeOffset>()?.seconds());
    assert_eq!(38700, "+10:45".parse::<TimeOffset>()?.seconds());
    assert_eq!(86340, "+23:59".parse::<TimeOffset>()?.seconds());
    Ok(())
}

#[test]
fn offset_err() -> Result<(), Box<ParseError>> {
    assert!("".parse::<TimeOffset>().is_err());
    assert!("00:00".parse::<TimeOffset>().is_err());
    assert!("0000".parse::<TimeOffset>().is_err());
    assert!("_00;00".parse::<TimeOffset>().is_err());
    assert!(" 00:00".parse::<TimeOffset>().is_err());
    assert!("+0A:00".parse::<TimeOffset>().is_err());
    assert!("+00:60".parse::<TimeOffset>().is_err());
    assert!("+24:00".parse::<TimeOffset>().is_err());
    Ok(())
}

#[test]
fn leap_day_rule() {
    assert!("2000-02-29".parse::<Date>().is_ok());
    assert!("1900-02-29".parse::<Date>().is_err());
    assert_eq!("1900-02-29".parse::<Date>(), Err(ParseError::ExpectedDate));
    assert!("2024-02-29".parse::<Date>().is_ok());
    assert!("2023-02-29".parse::<Date>().is_err());
}

#[test]
fn datetime_error_kinds() {
    assert_eq!("2000-01-01".parse::<DateTime>(), Err(ParseError::ExpectedDateTime));
    assert_eq!("2000-13-01T00:00:00Z".parse::<DateTime>(), Err(ParseError::ExpectedDate));
    assert_eq!("2000-01-01T24:00:00Z".parse::<DateTime>(), Err(ParseError::ExpectedTime));
    assert_eq!("2000-01-01T00:00:00+24:00".parse::<DateTime>(), Err(ParseError::ExpectedTimeOffset));
}

#[test]
fn date_time_text() -> Result<(), Box<ParseError>> {
    assert_eq!("2019-08-07".parse::<Date>()?.to_string(), "2019-08-07");
    assert_eq!("0005-01-09".parse::<Date>()?.to_string(), "0005-01-09");
    assert_eq!("12:34:56.789".parse::<Time>()?.to_string(), "12:34:56.789");
    assert_eq!("12:34:56.000".parse::<Time>()?.to_string(), "12:34:56");
    assert_eq!("-05:00".parse::<TimeOffset>()?.to_string(), "-05:00");
    assert_eq!("Z".parse::<TimeOffset>()?.to_string(), "Z");
    assert_eq!(
        "1999-12-31T23:59:59.999-00:00".parse::<DateTime>()?.to_string(),
        "1999-12-31T23:59:59.999-00:00"
    );
    Ok(())
}
