//! Records: parsing whole expense lines, derived values, serialisation.

use costoflife::date::add_days;
use costoflife::{date, now_local, parse_amount, today, CostOfLifeError, Lifetime, TxRecord};
use std::str::FromStr;

#[test]
fn test_tx() {
    let tests = vec![
        (
            // create by parsing
            TxRecord::from_str("Something we bought 1000€ #nice #living 100d"),
            (
                Ok(()),                                                 // ok/error
                "Something we bought",                                  // title
                today(),                                                // starts_on
                add_days(&today(), 99).unwrap(),                        // ends_on
                100,                                                    // duration days
                vec![("nice", true), ("living", true), ("car", false)], // tags
                (today(), true),                                        // is active
                parse_amount("10").unwrap(),                            // per diem
                (Some(today()), 0.0_f64),                               // progress
            ),
        ),
        (
            // create by parsing (same but with parse)
            "Something we bought 1000€ #nice #living 100d".parse::<TxRecord>(),
            (
                Ok(()),
                "Something we bought",
                today(),
                add_days(&today(), 99).unwrap(),
                100,
                vec![("nice", true), ("living", true), ("car", false)],
                (today(), true),
                parse_amount("10").unwrap(),
                (Some(today()), 0.0_f64),
            ),
        ),
        (
            // create by parsing WITH ERROR / no amount
            TxRecord::from_str("we bought nothing #nice #living 100d"),
            (
                Err(()),
                "Something we bought",
                today(),
                add_days(&today(), 99).unwrap(),
                100,
                vec![("nice", true), ("living", true), ("car", false)],
                (today(), true),
                parse_amount("10").unwrap(),
                (Some(today()), 0.0_f64),
            ),
        ),
        (
            // from string with date
            TxRecord::from_str("Rent 1729€ 1m12x 010118 #rent"),
            (
                Ok(()),
                "Rent",
                date(1, 1, 2018),
                date(31, 12, 2018),
                365,
                vec![("home", false), ("rent", true)],
                (today(), false),
                parse_amount("56.84").unwrap(),
                (None, 1.0_f64),
            ),
        ),
        (
            // from string with WRONG date
            TxRecord::from_str("Rent#2018 1729€ 1m12x 320118 #rent"),
            (
                Err(()),
                "Rent#2018",
                date(1, 1, 2018),
                date(31, 12, 2018),
                365,
                vec![("home", false), ("rent", true), ("#2018", false)],
                (today(), false),
                parse_amount("58.84").unwrap(),
                (None, 1.0_f64),
            ),
        ),
        (
            // from string with week repeats
            TxRecord::from_str("Mobile internet 9.99€ 210421 1w4x #internet"),
            (
                Ok(()),
                "Mobile internet",
                date(21, 4, 2021),
                date(18, 5, 2021),
                28,
                vec![("internet", true)],
                (date(12, 5, 2021), true),
                parse_amount("1.42").unwrap(),
                (Some(date(5, 5, 2021)), 0.5185185185185185_f64),
            ),
        ),
        (
            // create using from
            {
                let now = now_local();
                TxRecord::from(
                    "Car",
                    vec!["transportation", "lifestyle"],
                    "100000",
                    date(1, 1, 2010),
                    Lifetime::Year { amount: 20, times: 1 },
                    now.as_str(),
                    None,
                )
            },
            (
                Ok(()),
                "Car",
                date(1, 1, 2010),
                date(31, 12, 2029),
                7305,
                vec![
                    ("nice", false),
                    ("living", false),
                    ("car", false),
                    ("transportation", true),
                    ("lifestyle", true),
                ],
                (date(1, 1, 2030), false),
                parse_amount("13.68").unwrap(),
                (Some(date(1, 10, 2020)), 0.537513691128149_f64),
            ),
        ),
        (
            // create using new
            TxRecord::new("Building", "1000000"),
            (
                Ok(()),
                "Building",
                today(),
                today(),
                1,
                vec![
                    ("nice", false),
                    ("living", false),
                    ("car", false),
                    ("transportation", false),
                    ("lifestyle", false),
                ],
                (today(), true),
                parse_amount("1000000").unwrap(),
                (None, 0.0_f64),
            ),
        ),
        (
            // create using new / invalid amount
            TxRecord::new("Building", "not a number"),
            (
                Err(()),
                "Building",
                today(),
                today(),
                1,
                vec![
                    ("nice", false),
                    ("living", false),
                    ("car", false),
                    ("transportation", false),
                    ("lifestyle", false),
                ],
                (today(), true),
                parse_amount("1000000").unwrap(),
                (None, 0.0_f64),
            ),
        ),
        (
            // from a stored line
            TxRecord::from_string_record(
                "2021-01-03T19:36:43.976697738+00:00::2021-04-21::Mobile internet 9.99€ 210421 1w4x #internet",
            ),
            (
                Ok(()),
                "Mobile internet",
                date(21, 4, 2021),
                date(18, 5, 2021),
                28,
                vec![("internet", true)],
                (date(12, 5, 2021), true),
                parse_amount("1.42").unwrap(),
                (Some(date(5, 5, 2021)), 0.5185185185185185_f64),
            ),
        ),
        (
            // from a stored line WITH WRONG DATE
            TxRecord::from_string_record(
                "2021-01-03T19:36:43.976697738+00:00::2021-14-21::Mobile internet 9.99€ 210421 1w4x #internet",
            ),
            (
                Err(()),
                "Mobile internet",
                date(21, 4, 2021),
                date(18, 5, 2021),
                28,
                vec![("internet", true)],
                (date(12, 5, 2021), true),
                parse_amount("1.42").unwrap(),
                (Some(date(5, 5, 2021)), 0.5185185185185185_f64),
            ),
        ),
        (
            // from a stored line WITH WRONG RECORDED DATE
            TxRecord::from_string_record(
                "2021-01-32T19:36:43.976697738+00:00::2021-14-21::Mobile internet 9.99€ 210421 1w4x #internet",
            ),
            (
                Err(()),
                "Mobile internet",
                date(21, 4, 2021),
                date(18, 5, 2021),
                28,
                vec![("internet", true)],
                (date(12, 5, 2021), true),
                parse_amount("1.42").unwrap(),
                (Some(date(5, 5, 2021)), 0.5185185185185185_f64),
            ),
        ),
    ];

    for (i, t) in tests.iter().enumerate() {
        println!("test_getters#{i}");
        let (res, expected) = t;
        let (result, name, starts_on, ends_on, duration, tags, status, per_diem, progress_test) =
            expected;
        // test for expected errors
        assert_eq!(res.is_err(), result.is_err());
        if res.is_err() {
            continue;
        }
        let got = res.as_ref().unwrap();
        // test getters
        assert_eq!(got.get_name(), *name);
        assert_eq!(got.get_name(), got.to_text());
        assert_eq!(got.get_starts_on(), *starts_on);
        assert_eq!(got.get_ends_on(), *ends_on);
        assert_eq!(got.get_duration_days(), *duration);
        // check the tags
        tags.iter()
            .for_each(|(tag, exists)| assert_eq!(got.has_tag(tag), *exists));
        // is active
        let (target_date, is_active) = status;
        assert_eq!(got.is_active_on(target_date), *is_active);
        // per diem
        assert_eq!(got.per_diem(), *per_diem);
        // progress
        let (on_date, progress) = progress_test;
        let (num, den) = got.get_progress(*on_date);
        assert_eq!(num as f64 / den as f64, *progress);
        // test serialising and deserialising
        let txs = got.to_string_record();
        let txr = TxRecord::from_string_record(&txs).unwrap();
        assert_eq!(*got, txr);
    }
}

#[test]
fn test_extract() {
    // a line with no date token starts today
    let tx = TxRecord::from_str("invalid date 10€").unwrap();
    assert_eq!(tx.get_starts_on(), today());
}

#[test]
fn test_progress_boundaries() {
    let tx = TxRecord::from_str("Rent 1729€ 1m12x 010118 #rent").unwrap();
    // zero at the start...
    let (n0, d0) = tx.get_progress(Some(date(1, 1, 2018)));
    assert_eq!(n0 as f64 / d0 as f64, 0.0);
    // ... and one at the (inclusive) end
    let (n1, d1) = tx.get_progress(Some(date(31, 12, 2018)));
    assert_eq!(n1 as f64 / d1 as f64, 1.0);
    // strictly inside, strictly between
    let (n2, d2) = tx.get_progress(Some(date(2, 7, 2018)));
    let p = n2 as f64 / d2 as f64;
    assert!(0.0 < p && p < 1.0);
}

#[test]
fn test_error_kinds() {
    // no amount token: the default zero amount is rejected
    let r = TxRecord::from_str("we bought nothing #nice #living 100d");
    assert!(matches!(r, Err(CostOfLifeError::InvalidAmount(_))));
    // day 32 never names a calendar day
    let r = TxRecord::from_str("Rent#2018 1729€ 1m12x 320118 #rent");
    assert!(matches!(r, Err(CostOfLifeError::InvalidDateFormat(_))));
    // a stored line without its separators
    let r = TxRecord::from_string_record("no separators here");
    assert!(matches!(r, Err(CostOfLifeError::GenericError(_))));
}

#[test]
fn test_slug_keys() {
    // tag lookup goes through the slug of the label
    let now = now_local();
    let tx = TxRecord::from(
        "Trip",
        vec!["Nice Places"],
        "10",
        date(1, 1, 2021),
        Lifetime::SingleDay,
        now.as_str(),
        None,
    )
    .unwrap();
    assert!(tx.has_tag("Nice Places"));
    assert!(tx.has_tag("nice-places"));
    assert!(!tx.has_tag("nice"));
}

#[test]
fn test_synthesised_line() {
    // a record built from parts serialises the canonical text form
    let tx = TxRecord::from(
        "Car",
        vec!["transportation"],
        "100000",
        date(1, 1, 2010),
        Lifetime::Year { amount: 20, times: 1 },
        "2021-01-03T19:36:43+00:00",
        None,
    )
    .unwrap();
    let line = tx.to_string_record();
    assert_eq!(
        line,
        "2021-01-03T19:36:43+00:00::2010-01-01::Car 100000.00€ 20y1x #transportation\n"
    );
    // and reading it back restores the same record
    let back = TxRecord::from_string_record(&line).unwrap();
    assert_eq!(tx, back);
}

#[test]
fn test_per_diem() {
    // a single-day expense costs its whole amount per day
    let tx = TxRecord::from_str("20€ rent").unwrap();
    assert_eq!(tx.per_diem(), parse_amount("20").unwrap());
    assert_eq!(tx.get_name(), "rent");
}
