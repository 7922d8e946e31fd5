use ksp_commnet_calculator::args::{parse_count, split_antenna_arg};
use ksp_commnet_calculator::error::{CountError, Error};

#[test]
fn specifier_without_colon_is_one_antenna() {
    assert_eq!(split_antenna_arg("HG-5"), Ok((1, "HG-5")));
    assert_eq!(split_antenna_arg(""), Ok((1, "")));
    assert_eq!(split_antenna_arg("DSN Lv.3"), Ok((1, "DSN Lv.3")));
}

#[test]
fn specifier_with_colon_gives_count_then_name() {
    assert_eq!(split_antenna_arg("3:HG-5"), Ok((3, "HG-5")));
    assert_eq!(split_antenna_arg("0:x"), Ok((0, "x")));
    assert_eq!(split_antenna_arg("+12:Communotron 16"), Ok((12, "Communotron 16")));
    assert_eq!(split_antenna_arg("2:"), Ok((2, "")));
    assert_eq!(split_antenna_arg("2:\u{e9}t\u{e9}"), Ok((2, "\u{e9}t\u{e9}")));
}

#[test]
fn specifier_with_a_bad_count_is_refused() {
    assert_eq!(split_antenna_arg(":x"), Err(Error::Count(CountError::Empty)));
    assert_eq!(split_antenna_arg("x:3"), Err(Error::Count(CountError::InvalidDigit)));
    assert_eq!(split_antenna_arg("+:x"), Err(Error::Count(CountError::InvalidDigit)));
    assert_eq!(split_antenna_arg("-1:x"), Err(Error::Count(CountError::InvalidDigit)));
    assert_eq!(
        split_antenna_arg("99999999999999999999999999:x"),
        Err(Error::Count(CountError::Overflow))
    );
}

#[test]
fn specifier_with_two_colons_is_refused() {
    let e = split_antenna_arg("1:2:x").unwrap_err();
    assert_eq!(
        e.message(),
        "antenna specifier should be [<NUMBER_OF_ANTENNA>:]<ANTENNA_NAME>, but 1:2:x"
    );
    assert!(matches!(e, Error::Message(_)));
    assert!(matches!(split_antenna_arg("::"), Err(Error::Message(_))));
}

#[test]
fn count_is_read_as_decimal_digits() {
    assert_eq!(parse_count("0"), Ok(0));
    assert_eq!(parse_count("007"), Ok(7));
    assert_eq!(parse_count("+42"), Ok(42));
    assert_eq!(parse_count(&usize::MAX.to_string()), Ok(usize::MAX));
    assert_eq!(parse_count(""), Err(CountError::Empty));
    assert_eq!(parse_count("+"), Err(CountError::InvalidDigit));
    assert_eq!(parse_count("1 "), Err(CountError::InvalidDigit));
    assert_eq!(parse_count("12a"), Err(CountError::InvalidDigit));
    assert_eq!(parse_count("\u{663}"), Err(CountError::InvalidDigit));
    let too_large = format!("{}0", usize::MAX);
    assert_eq!(parse_count(&too_large), Err(CountError::Overflow));
    // read from the left: the digits overflow before the letter is reached
    assert_eq!(parse_count("99999999999999999999999999x"), Err(CountError::Overflow));
    assert_eq!(parse_count("x99999999999999999999999999"), Err(CountError::InvalidDigit));
    let full = format!("{}x", usize::MAX);
    assert_eq!(parse_count(&full), Err(CountError::InvalidDigit));
}

#[test]
fn count_is_read_as_the_standard_library_reads_it() {
    let max = usize::MAX.to_string();
    let mut texts: Vec<String> = [
        "", "0", "7", "007", "+42", "+", "-", "-1", "+-1", "++1", " 1", "1 ", "12a", "a12",
        "1_000", "0x10", "1.5", "\u{663}", "1\u{663}", "99999999999999999999999999",
        "99999999999999999999999999x", "x99999999999999999999999999",
        "+99999999999999999999999999", "000000000000000000000000000000000000001",
    ]
    .iter()
    .map(|t| t.to_string())
    .collect();
    texts.push(max.clone());
    texts.push(format!("{}0", max));
    texts.push(format!("{}x", max));
    texts.push(format!("+{}", max));
    texts.push(format!("0{}", max));
    let last = max.len() - 1;
    texts.push(format!("{}{}", &max[..last], "9"));
    for t in texts {
        let expected = match t.parse::<usize>() {
            Ok(n) => Ok(n),
            Err(e) => Err(match e.kind() {
                std::num::IntErrorKind::Empty => CountError::Empty,
                std::num::IntErrorKind::InvalidDigit => CountError::InvalidDigit,
                std::num::IntErrorKind::PosOverflow => CountError::Overflow,
                other => panic!("{:?}", other),
            }),
        };
        assert_eq!(parse_count(&t), expected, "{:?}", t);
    }
}

#[test]
fn error_texts() {
    assert_eq!(Error::Count(CountError::Empty).message(), "cannot parse integer from empty string");
    assert_eq!(Error::Count(CountError::InvalidDigit).message(), "invalid digit found in string");
    assert_eq!(
        Error::Count(CountError::Overflow).message(),
        "number too large to fit in target type"
    );
}
