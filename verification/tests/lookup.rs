use line_position::{Lines, LinesError};

#[test]
fn one_line_no_eol() -> Result<(), LinesError> {
    let input = "abcdefg";
    let lines = Lines::parse(input);
    assert_eq!(lines.num_lines(), 1, "number of lines is 1");
    assert_eq!(lines.position(0)?.line(), 1, "a on line 1");
    assert_eq!(lines.position(6)?.line(), 1, "g on line 1");
    assert!(lines.position(7).is_err(), "out of bounds");

    Ok(())
}

#[test]
fn one_line_lf() -> Result<(), LinesError> {
    let input = "abcdefg\n";
    let lines = Lines::parse(input);

    assert_eq!(lines.num_lines(), 1, "number of lines is 1");
    assert_eq!(lines.position(0)?.line(), 1, "a on line 1");
    assert_eq!(lines.position(7)?.line(), 1, "newline on line 1");
    assert!(lines.position(8).is_err(), "out of bounds");

    Ok(())
}

#[test]
fn one_line_crlf() -> Result<(), LinesError> {
    let input = "abcdefg\r\n";
    let lines = Lines::parse(input);

    assert_eq!(lines.num_lines(), 1, "number of lines is 1");
    assert_eq!(lines.position(0)?.line(), 1, "a on line 1");
    assert_eq!(lines.position(8)?.line(), 1, "newline on line 1");
    assert!(lines.position(9).is_err(), "out of bounds");

    Ok(())
}

#[test]
fn two_lines_lf() -> Result<(), LinesError> {
    let input = "abcdefg\nhijklmnop\n";
    let lines = Lines::parse(input);

    assert_eq!(lines.num_lines(), 2, "number of lines is 2");
    assert_eq!(lines.position(7)?.line(), 1, "newline on line 1");
    assert_eq!(lines.position(8)?.line(), 2, "h on line 2");
    assert_eq!(lines.position(8)?.offset(), 0, "h at offset 0");

    Ok(())
}

#[test]
fn two_lines_crlf() -> Result<(), LinesError> {
    let input = "abcdefg\r\nhijklmnop\r\n";
    let lines = Lines::parse(input);

    assert_eq!(lines.num_lines(), 2, "number of lines is 2");
    assert_eq!(lines.position(8)?.line(), 1, "newline on line 1");
    assert_eq!(lines.position(9)?.line(), 2, "h on line 2");
    assert_eq!(lines.position(9)?.offset(), 0, "h at offset 0");

    Ok(())
}

#[test]
fn mixed_eol() -> Result<(), LinesError> {
    let input = "abcdefg\r\nhijklmnop\nqrstuv";
    let lines = Lines::parse(input);

    assert_eq!(lines.num_lines(), 2, "number of lines is 2");
    assert_eq!(lines.position(8)?.line(), 1, "first newline on line 1");
    assert_eq!(lines.position(9)?.line(), 2, "h on line 2");
    assert_eq!(lines.position(24)?.line(), 2, "v on line 2");
    assert!(lines.position(25).is_err(), "out of bounds");

    Ok(())
}
