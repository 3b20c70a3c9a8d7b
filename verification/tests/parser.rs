use sheetgrid::coord::Coord;
use sheetgrid::scan::{get_next_value, ParseErrKind, ScanError};
use sheetgrid::sheet::{ParseError, Sheet};
use sheetgrid::value::{CellValue, Formula};

fn parse_one(path: &str, text: &str) -> Result<Sheet, ParseError> {
    Sheet::new(path.to_string(), text.to_string())
}

fn cell_value(sheet: &Sheet, x: usize, y: usize) -> CellValue {
    match sheet.get(Coord { x, y }) {
        Some(cell) => clone_value(&cell.value),
        None => panic!("no cell at ({}, {})", x, y),
    }
}

fn clone_value(v: &CellValue) -> CellValue {
    match v {
        CellValue::Empty => CellValue::Empty,
        CellValue::Text(s) => CellValue::Text(s.clone()),
        CellValue::Number(s) => CellValue::Number(s.clone()),
        CellValue::Formula(f) => CellValue::Formula(clone_formula(f)),
        CellValue::Error(e) => CellValue::Error(*e),
    }
}

fn clone_formula(f: &Formula) -> Formula {
    match f {
        Formula::FunctionCall(name, args) => {
            Formula::FunctionCall(name.clone(), args.iter().map(clone_formula).collect())
        }
        Formula::Reference(c) => Formula::Reference(*c),
        Formula::Literal(v) => Formula::Literal(Box::new(clone_value(v))),
    }
}

fn err_of(text: &str) -> ParseError {
    parse_one("t", text).err().expect("expected a parse error")
}

#[test]
fn escape_completeness() {
    let sheet = parse_one("t", "\"a\\nb\\tc\\\\d\\\"e\"").unwrap();
    assert_eq!(
        cell_value(&sheet, 0, 0),
        CellValue::Text("a\nb\tc\\d\"e".to_string())
    );
}

#[test]
fn underscore_stripping() {
    let sheet = parse_one("t", "1_000_000").unwrap();
    assert_eq!(cell_value(&sheet, 0, 0), CellValue::Number("1000000".to_string()));
}

#[test]
fn sign_only_number_fails() {
    assert_eq!(
        err_of("+"),
        ParseError { line: 0, col: 1, kind: ParseErrKind::SignOnlyNumber }
    );
    assert_eq!(
        err_of("-"),
        ParseError { line: 0, col: 1, kind: ParseErrKind::SignOnlyNumber }
    );
    assert_eq!(
        err_of("+_"),
        ParseError { line: 0, col: 2, kind: ParseErrKind::SignOnlyNumber }
    );
}

#[test]
fn nested_formula() {
    let sheet = parse_one("t", "=sum(A1, B2, 3)").unwrap();
    let expected = CellValue::Formula(Formula::FunctionCall(
        "sum".to_string(),
        vec![
            Formula::Reference(Coord { x: 0, y: 0 }),
            Formula::Reference(Coord { x: 1, y: 1 }),
            Formula::Literal(Box::new(CellValue::Number("3".to_string()))),
        ],
    ));
    assert_eq!(cell_value(&sheet, 0, 0), expected);
}

#[test]
fn deeply_nested_formula() {
    let sheet = parse_one("t", "=sum(mul(1,2),C3)").unwrap();
    let expected = CellValue::Formula(Formula::FunctionCall(
        "sum".to_string(),
        vec![
            Formula::FunctionCall(
                "mul".to_string(),
                vec![
                    Formula::Literal(Box::new(CellValue::Number("1".to_string()))),
                    Formula::Literal(Box::new(CellValue::Number("2".to_string()))),
                ],
            ),
            Formula::Reference(Coord { x: 2, y: 2 }),
        ],
    ));
    assert_eq!(cell_value(&sheet, 0, 0), expected);
}

#[test]
fn unclosed_string_fails_at_line_end() {
    assert_eq!(
        err_of("\"abc"),
        ParseError { line: 0, col: 4, kind: ParseErrKind::UnterminatedString }
    );
}

#[test]
fn trailing_characters_in_number() {
    assert_eq!(
        err_of("5abc"),
        ParseError { line: 0, col: 1, kind: ParseErrKind::InvalidNumericDigit }
    );
    assert_eq!(
        err_of("5 6"),
        ParseError { line: 0, col: 2, kind: ParseErrKind::TrailingCharactersAfterNumber }
    );
}

#[test]
fn mixed_case_identifier() {
    assert_eq!(
        err_of("=Foo("),
        ParseError { line: 0, col: 2, kind: ParseErrKind::MixedCaseIdentifier }
    );
    assert_eq!(
        err_of("=fA1"),
        ParseError { line: 0, col: 2, kind: ParseErrKind::MixedCaseIdentifier }
    );
}

#[test]
fn row_assignment() {
    let sheet = parse_one("t", "1,2\n3,4").unwrap();
    assert_eq!(cell_value(&sheet, 0, 0), CellValue::Number("1".to_string()));
    assert_eq!(cell_value(&sheet, 1, 0), CellValue::Number("2".to_string()));
    assert_eq!(cell_value(&sheet, 0, 1), CellValue::Number("3".to_string()));
    assert_eq!(cell_value(&sheet, 1, 1), CellValue::Number("4".to_string()));
    assert!(sheet.get(Coord { x: 2, y: 0 }).is_none());
    assert!(sheet.get(Coord { x: 2, y: 1 }).is_none());
    assert!(sheet.get(Coord { x: 0, y: 2 }).is_none());
}

#[test]
fn idempotent_reparse() {
    let text = "1,\"a\",=sum(A1, 2)\n,=B2";
    let a = parse_one("t", text).unwrap();
    let b = parse_one("t", text).unwrap();
    for y in 0..4usize {
        for x in 0..5usize {
            let ca = a.get(Coord { x, y }).map(|c| (clone_value(&c.value), c.string_backing.clone()));
            let cb = b.get(Coord { x, y }).map(|c| (clone_value(&c.value), c.string_backing.clone()));
            assert_eq!(ca, cb);
        }
    }
    assert_eq!(a.file_path(), b.file_path());
    assert_eq!(a.selected(), b.selected());
}

#[test]
fn empty_slots_yield_empty_cells() {
    let sheet = parse_one("t", ",,").unwrap();
    assert_eq!(cell_value(&sheet, 0, 0), CellValue::Empty);
    assert_eq!(cell_value(&sheet, 1, 0), CellValue::Empty);
    assert_eq!(cell_value(&sheet, 2, 0), CellValue::Empty);
    assert!(sheet.get(Coord { x: 3, y: 0 }).is_none());

    let blank = parse_one("t", "  ").unwrap();
    assert_eq!(cell_value(&blank, 0, 0), CellValue::Empty);
    assert!(blank.get(Coord { x: 1, y: 0 }).is_none());

    let empty = parse_one("t", "").unwrap();
    assert_eq!(cell_value(&empty, 0, 0), CellValue::Empty);
}

#[test]
fn stray_close_paren_is_trailing_error() {
    assert_eq!(
        err_of("1)"),
        ParseError { line: 0, col: 1, kind: ParseErrKind::InvalidTrailingCharacter }
    );
}

#[test]
fn unclosed_bracket() {
    assert_eq!(
        err_of("=sum(1"),
        ParseError { line: 0, col: 6, kind: ParseErrKind::UnclosedBracket }
    );
    assert_eq!(
        err_of("=sum(1,"),
        ParseError { line: 0, col: 7, kind: ParseErrKind::UnclosedBracket }
    );
}

#[test]
fn empty_argument_list() {
    let sheet = parse_one("t", "=sum()").unwrap();
    let expected = CellValue::Formula(Formula::FunctionCall("sum".to_string(), vec![]));
    assert_eq!(cell_value(&sheet, 0, 0), expected);
    let spaced = parse_one("t", "=sum(  )").unwrap();
    assert_eq!(cell_value(&spaced, 0, 0), expected);
}

#[test]
fn formula_literals() {
    let n = parse_one("t", "=5").unwrap();
    assert_eq!(
        cell_value(&n, 0, 0),
        CellValue::Formula(Formula::Literal(Box::new(CellValue::Number("5".to_string()))))
    );
    let s = parse_one("t", "=\"hi\"").unwrap();
    assert_eq!(
        cell_value(&s, 0, 0),
        CellValue::Formula(Formula::Literal(Box::new(CellValue::Text("hi".to_string()))))
    );
    let bare = parse_one("t", "=").unwrap();
    assert_eq!(
        cell_value(&bare, 0, 0),
        CellValue::Formula(Formula::Literal(Box::new(CellValue::Empty)))
    );
}

#[test]
fn reference_formula() {
    let sheet = parse_one("t", "=A1 ").unwrap();
    assert_eq!(
        cell_value(&sheet, 0, 0),
        CellValue::Formula(Formula::Reference(Coord { x: 0, y: 0 }))
    );
}

#[test]
fn unknown_escape_fails_at_backslash() {
    assert_eq!(
        err_of("\"a\\x\""),
        ParseError { line: 0, col: 2, kind: ParseErrKind::UnknownEscapeSequence }
    );
}

#[test]
fn misplaced_sign() {
    assert_eq!(
        err_of("1+2"),
        ParseError { line: 0, col: 1, kind: ParseErrKind::MisplacedSign }
    );
}

#[test]
fn whitespace_in_function_name() {
    assert_eq!(
        err_of("=foo ("),
        ParseError { line: 0, col: 4, kind: ParseErrKind::ExpectedOpenParen }
    );
}

#[test]
fn bare_function_name_at_line_end_is_empty_literal() {
    let sheet = parse_one("t", "=foo").unwrap();
    assert_eq!(
        cell_value(&sheet, 0, 0),
        CellValue::Formula(Formula::Literal(Box::new(CellValue::Empty)))
    );
}

#[test]
fn unparseable_leading_character() {
    assert_eq!(
        err_of("x"),
        ParseError { line: 0, col: 0, kind: ParseErrKind::UnparseableLeadingCharacter }
    );
}

#[test]
fn invalid_formula_character() {
    assert_eq!(
        err_of("=;"),
        ParseError { line: 0, col: 1, kind: ParseErrKind::InvalidFormulaCharacter }
    );
    assert_eq!(
        err_of("=,"),
        ParseError { line: 0, col: 1, kind: ParseErrKind::InvalidFormulaCharacter }
    );
}

#[test]
fn trailing_characters_after_string() {
    assert_eq!(
        err_of("\"a\" x"),
        ParseError { line: 0, col: 4, kind: ParseErrKind::TrailingCharactersAfterString }
    );
}

#[test]
fn trailing_characters_after_formula() {
    assert_eq!(
        err_of("=A1 2"),
        ParseError { line: 0, col: 4, kind: ParseErrKind::TrailingCharactersAfterFormula }
    );
}

#[test]
fn reference_needs_digits() {
    assert_eq!(
        err_of("=AB "),
        ParseError { line: 0, col: 3, kind: ParseErrKind::InvalidNumber }
    );
    assert_eq!(
        err_of("=AB"),
        ParseError { line: 0, col: 3, kind: ParseErrKind::InvalidNumber }
    );
}

#[test]
fn crlf_lines_are_normalized() {
    let sheet = parse_one("t", "1\r\n2").unwrap();
    assert_eq!(cell_value(&sheet, 0, 0), CellValue::Number("1".to_string()));
    assert_eq!(cell_value(&sheet, 0, 1), CellValue::Number("2".to_string()));
}

#[test]
fn backing_spans_keep_source_text() {
    let sheet = parse_one("t", " 1_0 ,\"a\"").unwrap();
    let first = sheet.get(Coord { x: 0, y: 0 }).unwrap();
    assert_eq!(first.string_backing, " 1_0 ");
    let second = sheet.get(Coord { x: 1, y: 0 }).unwrap();
    assert_eq!(second.string_backing, "\"a\"");
}

#[test]
fn scanner_reports_terminator() {
    let line: Vec<char> = "1,2".chars().collect();
    let (cell, term) = get_next_value(&line, 0).unwrap();
    assert_eq!(cell.value, CellValue::Number("1".to_string()));
    assert_eq!(cell.string_backing, "1");
    assert_eq!(term, Some(','));
    let (cell2, term2) = get_next_value(&line, 2).unwrap();
    assert_eq!(cell2.value, CellValue::Number("2".to_string()));
    assert_eq!(term2, None);
    let empty: Vec<char> = Vec::new();
    let (cell3, term3) = get_next_value(&empty, 0).unwrap();
    assert_eq!(cell3.value, CellValue::Empty);
    assert_eq!(term3, None);
}

#[test]
fn scanner_error_positions_are_scoped_to_the_line() {
    let err: ScanError = get_next_value(&"  x".chars().collect(), 0).unwrap_err();
    assert_eq!(err, ScanError { col: 2, kind: ParseErrKind::UnparseableLeadingCharacter });
}

#[test]
fn sheet_metadata() {
    let sheet = parse_one("data.csv", "1").unwrap();
    assert_eq!(sheet.file_path(), "data.csv");
    assert_eq!(sheet.selected(), Coord { x: 0, y: 0 });
}

#[test]
fn error_on_later_line_carries_row() {
    assert_eq!(
        err_of("1,2\n3,x"),
        ParseError { line: 1, col: 2, kind: ParseErrKind::UnparseableLeadingCharacter }
    );
}

#[test]
fn signed_numbers_keep_their_sign() {
    let neg = parse_one("t", "-5").unwrap();
    assert_eq!(cell_value(&neg, 0, 0), CellValue::Number("-5".to_string()));
    let pos = parse_one("t", "+7_0").unwrap();
    assert_eq!(cell_value(&pos, 0, 0), CellValue::Number("+70".to_string()));
}

#[test]
fn number_trims_surrounding_blanks() {
    let sheet = parse_one("t", "  42  ,1").unwrap();
    assert_eq!(cell_value(&sheet, 0, 0), CellValue::Number("42".to_string()));
    let cell = sheet.get(Coord { x: 0, y: 0 }).unwrap();
    assert_eq!(cell.string_backing, "  42  ");
}
