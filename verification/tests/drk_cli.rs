use darkfi::cli::drk_cli::{amount_f64, is_float_text, Deposit};

const SAMPLES: &[&str] = &[
    "0", "1", "42", "007", "3.14", "1.", ".5", ".", "", "+", "-", "+1", "-1.5", "--1", "+-1",
    "1e5", "1E5", "1e+5", "1e-5", "1e", "e5", "1.e3", ".e3", ".5e3", "1e5.0", "1.2.3", "1..2",
    "inf", "INF", "Inf", "-inf", "+infinity", "Infinity", "infinit", "nan", "NaN", "-nan",
    "nanx", " 1", "1 ", "1_000", "0x10", "1,5", "١", "１", "12345678901234567890", "1e999",
    "e", "E", "ee", "1ee5", "1e+-5", "+.5", "-.", "in", "infinityy", "İnf", "1.5E-3",
];

#[test]
fn amount_matches_float_parsing() {
    for s in SAMPLES {
        let expected = s.parse::<f64>().is_ok();
        assert_eq!(is_float_text(s), expected, "text {:?}", s);
        assert_eq!(amount_f64(s.to_string()).is_ok(), expected, "text {:?}", s);
    }
}

#[test]
fn amount_accepts_decimal() {
    assert_eq!(amount_f64("12.5".to_string()), Ok(()));
    assert_eq!(amount_f64("-0.25e2".to_string()), Ok(()));
    assert_eq!(amount_f64("NaN".to_string()), Ok(()));
}

#[test]
fn amount_rejects_other_text() {
    let err = Err(String::from("The value is not an integer of type u64"));
    assert_eq!(amount_f64("ten".to_string()), err);
    assert_eq!(amount_f64("".to_string()), err);
    assert_eq!(amount_f64("1.2.3".to_string()), err);
    assert_eq!(amount_f64("1e".to_string()), err);
}

#[test]
fn deposit_starts_without_asset() {
    let d = Deposit::new();
    assert_eq!(d.asset, "");
}
