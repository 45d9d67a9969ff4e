use rollang::parsers::{parse_dice, parse_roll, Error, ErrorKind, Rollable};

#[test]
fn lib_test_parse_roll() {
    assert_eq!(
        parse_roll("roll 2d8"),
        Ok((" 2d8".to_string(), "roll".to_string()))
    );
    assert_eq!(
        parse_roll("toll 2d8"),
        Err(Error {
            input: "toll 2d8".to_string(),
            code: ErrorKind::Tag
        })
    );
}

#[test]
fn parser_test_parse_roll() {
    assert_eq!(
        parse_roll("roll 2d8"),
        Ok((" 2d8".to_string(), "roll".to_string()))
    );
    assert_eq!(
        parse_roll("toll 2d8"),
        Err(Error {
            input: "toll 2d8".to_string(),
            code: ErrorKind::Tag
        })
    );
}

#[test]
fn test_parse_dice() {
    assert_eq!(
        parse_dice("2d8"),
        Ok((
            "".to_string(),
            Rollable {
                amount: 2,
                sides: 8
            }
        ))
    );

    assert_eq!(
        parse_dice("qd8"),
        Err(Error {
            input: "qd8".to_string(),
            code: ErrorKind::Tag
        })
    );

    assert_eq!(
        parse_dice("5dv"),
        Err(Error {
            input: "5dv".to_string(),
            code: ErrorKind::Tag
        })
    );
}

#[test]
fn parse_dice_leaves_remaining_input() {
    assert_eq!(
        parse_dice("12d20 + 1"),
        Ok((
            " + 1".to_string(),
            Rollable {
                amount: 12,
                sides: 20
            }
        ))
    );
}

#[test]
fn parse_dice_missing_count_is_rejected() {
    assert_eq!(
        parse_dice("d8"),
        Err(Error {
            input: "d8".to_string(),
            code: ErrorKind::Tag
        })
    );
}

#[test]
fn parse_dice_overflowing_value_is_rejected() {
    assert_eq!(
        parse_dice("99999999999d8"),
        Err(Error {
            input: "99999999999d8".to_string(),
            code: ErrorKind::Tag
        })
    );
}

#[test]
fn parse_roll_rejects_short_input() {
    assert_eq!(
        parse_roll("rol"),
        Err(Error {
            input: "rol".to_string(),
            code: ErrorKind::Tag
        })
    );
}
