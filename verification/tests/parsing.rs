//! Parsing of lifetimes, dates and amounts.

use costoflife::{date, date_from_str, parse_amount, today, CostOfLifeError, Lifetime};
use std::str::FromStr;

#[test]
fn test_lifetime() {
    let tests = vec![
        (
            ("1d1x", today(), 1, "1d1x"),
            Lifetime::Day { amount: 1, times: 1 },
        ),
        (
            ("10d1x", today(), 10, "10d1x"),
            Lifetime::Day { amount: 10, times: 1 },
        ),
        (
            ("10d10x", today(), 100, "10d10x"),
            Lifetime::Day { amount: 10, times: 10 },
        ),
        (
            ("1w", today(), 7, "1w1x"),
            Lifetime::Week { amount: 1, times: 1 },
        ),
        (
            ("7w", today(), 49, "7w1x"),
            Lifetime::Week { amount: 7, times: 1 },
        ),
        (
            ("10w10x", today(), 700, "10w10x"),
            Lifetime::Week { amount: 10, times: 10 },
        ),
        (
            ("20y", date(1, 1, 2020), 7305, "20y1x"),
            Lifetime::Year { amount: 20, times: 1 },
        ),
        (
            ("1y20x", date(1, 1, 2020), 7305, "1y20x"),
            Lifetime::Year { amount: 1, times: 20 },
        ),
        (
            ("20y", date(1, 1, 2021), 7305, "20y1x"),
            Lifetime::Year { amount: 20, times: 1 },
        ),
        (
            ("1y", date(1, 1, 2020), 366, "1y1x"),
            Lifetime::Year { amount: 1, times: 1 },
        ),
        (
            ("1y", date(1, 1, 2021), 365, "1y1x"),
            Lifetime::Year { amount: 1, times: 1 },
        ),
        (
            ("1m", date(1, 1, 2021), 31, "1m1x"),
            Lifetime::Month { amount: 1, times: 1 },
        ),
        (
            ("12m", date(1, 1, 2021), 365, "12m1x"),
            Lifetime::Month { amount: 12, times: 1 },
        ),
        (
            ("1m12x", date(1, 1, 2021), 365, "1m12x"),
            Lifetime::Month { amount: 1, times: 12 },
        ),
        (
            ("", today(), 1, "1d1x"),
            Lifetime::Day { amount: 1, times: 1 },
        ),
    ];

    for (i, t) in tests.iter().enumerate() {
        println!("test_parse_lifetime#{i}");
        let (lifetime_spec, lifetime_exp) = t;
        let (input_str, start_date, duration_days, to_str) = lifetime_spec;
        assert_eq!(
            input_str
                .parse::<Lifetime>()
                .expect("test_parse_lifetime error"),
            *lifetime_exp,
        );
        assert_eq!(lifetime_exp.get_days_since(start_date), *duration_days);
        assert_eq!(lifetime_exp.to_text(), *to_str);
    }
}

#[test]
fn test_parsers() {
    // parse date
    let r = date_from_str("27/12/2020");
    assert_eq!(r.unwrap(), date(27, 12, 2020));
    // invalid date
    let r = date_from_str("30/02/2020");
    assert_eq!(r, None);
    // invalid format
    let r = date_from_str("30/02/20");
    assert_eq!(r, None);
    // dd.mm.yy
    let r = date_from_str("30.01.20");
    assert_eq!(r.unwrap(), date(30, 1, 2020));
    // dd/mm/yy
    let r = date_from_str("30/01/20");
    assert_eq!(r.unwrap(), date(30, 1, 2020));
    // dd.mm.yyyy
    let r = date_from_str("30/01/2020");
    assert_eq!(r.unwrap(), date(30, 1, 2020));
}

#[test]
fn test_ddmmyy_century() {
    // two-digit years split between the two centuries
    assert_eq!(date_from_str("010118").unwrap(), date(1, 1, 2018));
    assert_eq!(date_from_str("210421").unwrap(), date(21, 4, 2021));
    assert_eq!(date_from_str("010170").unwrap(), date(1, 1, 1970));
    assert_eq!(date_from_str("010169").unwrap(), date(1, 1, 2069));
}

#[test]
fn test_amounts() {
    let a = parse_amount("1729").unwrap();
    assert_eq!(a.mant, 1729);
    assert_eq!(a.scale, 0);
    assert!(!a.neg);
    // fractions keep their digits, trailing zeros are normalised away
    let b = parse_amount("9.99").unwrap();
    assert_eq!(b.mant, 999);
    assert_eq!(b.scale, 2);
    assert_eq!(parse_amount("10.00").unwrap(), parse_amount("10").unwrap());
    // exponents as the decimal grammar reads them
    assert_eq!(parse_amount("2e1").unwrap(), parse_amount("20").unwrap());
    assert_eq!(parse_amount("1.23E+3").unwrap(), parse_amount("1230").unwrap());
    // signs
    assert!(parse_amount("-5").unwrap().neg);
    // rejections
    assert_eq!(parse_amount("not a number"), None);
    assert_eq!(parse_amount(""), None);
    assert_eq!(parse_amount("12z3.12"), None);
    assert_eq!(parse_amount("123.12.45"), None);
}

#[test]
fn test_lifetime_out_of_range() {
    let r = Lifetime::from_str("99999999999d");
    assert!(matches!(r, Err(CostOfLifeError::InvalidLifetimeFormat(_))));
}

#[test]
fn test_unrecognised_unit() {
    // a number running into a letter that is no unit is rejected ...
    let r = Lifetime::from_str("5z");
    assert!(matches!(r, Err(CostOfLifeError::InvalidLifetimeFormat(_))));
    let r = Lifetime::from_str("3q12x");
    assert!(matches!(r, Err(CostOfLifeError::InvalidLifetimeFormat(_))));
    // ... while a token with no lifetime markers at all is one day once
    assert_eq!(
        Lifetime::from_str("zzz").unwrap(),
        Lifetime::Day { amount: 1, times: 1 }
    );
}

#[test]
fn test_leap_days() {
    // leap-year February against the common case
    assert_eq!(
        Lifetime::Month { amount: 1, times: 1 }.get_days_since(&date(1, 2, 2020)),
        29
    );
    assert_eq!(
        Lifetime::Month { amount: 1, times: 1 }.get_days_since(&date(1, 2, 2021)),
        28
    );
}
