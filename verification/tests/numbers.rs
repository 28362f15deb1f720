use blinkterm::cdp::Event;
use blinkterm::double::Double;
use blinkterm::download::{Done, Downloads};
use blinkterm::json::Json;

/// The double that `n` is.
fn double(n: f64) -> Double {
    let bits = n.to_bits();
    let power = ((bits >> 52) & 0x7ff) as i16;
    let low = bits & 0xf_ffff_ffff_ffff;
    let (mantissa, exponent) = match power {
        0 => (low, -1074),
        0x7ff => (1 << 52, 972),
        _ => (low | (1 << 52), power - 1075),
    };
    Double {
        negative: n.is_sign_negative(),
        mantissa,
        exponent,
    }
}

fn number(text: &str) -> Double {
    Json::parse(text).and_then(|n| n.as_number()).expect(text)
}

const WRITTEN: [&str; 48] = [
    "0",
    "-0",
    "1",
    "-1",
    "10",
    "0.1",
    "0.5",
    "0.1e1",
    "123.456",
    "-2.5E-3",
    "1753017600.123456",
    "9007199254740991",
    "9007199254740992",
    "9007199254740993",
    "9007199254740995",
    "9223372036854775807",
    "9223372036854775808",
    "18446744073709551615",
    "18446744073709551616",
    "10000000000000000000",
    "1e19",
    "1e22",
    "1e23",
    "8.5e22",
    "123456789012345678901234567890",
    "0.000000000000000000000000000000123",
    "0.30000000000000004",
    "0.1000000000000000055511151231257827",
    "2.2250738585072011e-308",
    "2.2250738585072014e-308",
    "4.9e-324",
    "2.4703282292062327e-324",
    "2.4703282292062328e-324",
    "1e-400",
    "1e-999999999999999999999999999999999",
    "1.7976931348623157e308",
    "1.7976931348623158e308",
    "1.7976931348623159e308",
    "1e308",
    "1e309",
    "1e400",
    "1e999999999999999999999999999999999",
    "0e999999999999999999999999999999999",
    "0.00000000000000000000000000000000000000000000000000e60",
    "4.35",
    "0.000001",
    "5e-324",
    "179769313486231580793728971405303415079934132710037826936173778980444968292764750946649017977587207096330286416692887910946555547851940402630657488671505820681908902000708383676273854845817711531764475730270069855571366959622842914819860834936475292719074168444365510704342711559699508093042880",
];

#[test]
fn a_number_is_the_double_nearest_to_it() {
    for text in WRITTEN {
        assert_eq!(
            number(text),
            double(text.parse::<f64>().expect(text)),
            "{text}"
        );
    }
}

#[test]
fn numbers_of_every_size_are_the_doubles_nearest_to_them() {
    let mut seed: u64 = 7;
    for round in 0..2000u32 {
        seed = seed.wrapping_mul(6364136223846793005).wrapping_add(1442695040888963407);
        let digits = seed >> (round % 60);
        let power = (seed % 660) as i64 - 340;
        let text = format!("{digits}e{power}");
        let n = text.parse::<f64>().expect(&text);
        assert_eq!(number(&text), double(n), "{text}");
        let places = (seed % 25) as usize;
        let text = format!("{digits:030}");
        let text = format!("1{}.{}", &text[..30 - places], &text[30 - places..])
            .trim_end_matches('.')
            .to_string();
        let n = text.parse::<f64>().expect(&text);
        assert_eq!(number(&text), double(n), "{text}");
    }
}

#[test]
fn a_double_is_written_so_that_it_reads_back() {
    for text in WRITTEN {
        let n = number(text);
        let written = Json::Number(n).to_string();
        assert_eq!(number(&written), n, "{text}");
        assert_eq!(double(written.parse::<f64>().expect(&written)), n, "{text}");
    }
    for (n, written) in [
        (0.1, "0.1"),
        (27.5, "27.5"),
        (0.1 + 0.2, "0.30000000000000004"),
        (4.35, "4.35"),
        (-1234.0, "-1234"),
        (-0.0, "-0"),
        (0.000001, "0.000001"),
        (1753017600.123456, "1753017600.123456"),
        (9007199254740993.0, "9007199254740992"),
        (1e22, "10000000000000000000000"),
    ] {
        assert_eq!(Json::Number(double(n)).to_string(), written);
    }
}

#[test]
fn a_double_comes_to_a_whole_number_or_to_none() {
    for (text, whole) in [
        ("3", Some(3)),
        ("-3", Some(-3)),
        ("1.5", None),
        ("1e2", Some(100)),
        ("9007199254740993", Some(9007199254740992)),
        ("1e19", Some(i64::MAX)),
        ("-1e19", Some(i64::MIN)),
        ("0.0", Some(0)),
        ("1e-300", None),
    ] {
        assert_eq!(Json::parse(text).and_then(|n| n.as_i64()), whole, "{text}");
    }
    for n in [0, 1, -1, 1 << 53, -(1 << 53), (1 << 53) - 1, i64::MAX, i64::MIN] {
        assert_eq!(Double::of(n), double(n as f64), "{n}");
    }
    assert_eq!(Double::of((1 << 53) - 1).as_integer(), Some((1 << 53) - 1));
    assert_eq!(
        Double::of((1 << 53) + 1).as_integer(),
        Some(1 << 53),
        "no double is that"
    );
}

#[test]
fn an_amount_is_read_as_a_double_is() {
    let guid = "0d5c9b3e-7a1f-4d1b-8a57-6f1f0a9c2e11";
    let event = |method: &str, params: String| Event {
        method: method.to_string(),
        params: Json::parse(&params).expect("the test's own JSON"),
    };
    for (written, total) in [
        ("1e19", 10_000_000_000_000_000_000),
        ("9007199254740993", 9_007_199_254_740_992),
        ("1e300", u64::MAX),
        ("-5", 0),
        ("2.9", 2),
    ] {
        let mut downloads = Downloads::new("/tmp".to_string(), None);
        downloads.take(
            &event(
                "Browser.downloadWillBegin",
                format!(r#"{{"guid":"{guid}","url":"u","suggestedFilename":"f"}}"#),
            ),
            1,
            Done::Dir(Ok(())),
        );
        downloads.take(
            &event(
                "Browser.downloadProgress",
                format!(
                    r#"{{"guid":"{guid}","totalBytes":{written},"receivedBytes":0,"state":"inProgress"}}"#
                ),
            ),
            2,
            Done::Nothing,
        );
        assert_eq!(downloads.all()[0].total, total, "{written}");
    }
}

#[test]
fn a_count_of_matches_is_read_as_a_double_is() {
    let count = |n: &str| {
        let reply = format!(r#"{{"result":{{"value":[{n},0,false,true]}}}}"#);
        blinkterm::find::matches(&Json::parse(&reply).expect("the test's own JSON")).map(|found| found.count)
    };
    assert_eq!(count("4294967295"), Some(u32::MAX));
    assert_eq!(count("4294967295.5"), None);
    assert_eq!(count("4294967296"), None);
    assert_eq!(count("3.999"), Some(3));
    assert_eq!(count("-0"), Some(0));
    assert_eq!(count("-0.5"), None);
    assert_eq!(count("1e400"), None);
}
