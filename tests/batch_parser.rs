use squealmate::batch_parser::BatchParser;
use squealmate::runner::prepare_script;

#[test]
fn batch_parser_positive() {
    let parser = BatchParser::parse(
        "SELECT * FROM Some
			GO
			SELECT * FROM Some",
    );

    assert_eq!(2, parser.batches.len());
    assert!(!parser.batches[0].ends_with("G"));
    let first_line = "SELECT * FROM Some
			";
    assert_eq!(first_line, parser.batches[0]);
    let second_line = "
			SELECT * FROM Some";
    assert_eq!(second_line, parser.batches[1]);
}

#[test]
fn negative_string() {
    let content = "SELECT '
		GO
		' FROM Translation";
    let parser = BatchParser::parse(content);

    assert_eq!(1, parser.batches.len());
    assert_eq!(content, parser.batches[0]);
}

#[test]
fn negative_comment() {
    let content = "SELECT * /*
		GO
		*/ FROM Translation";
    let parser = BatchParser::parse(content);

    assert_eq!(1, parser.batches.len());
    assert_eq!(content, parser.batches[0]);
}

#[test]
fn negative_text() {
    let content = "SELECT * FROM GOals";
    let parser = BatchParser::parse(content);

    assert_eq!(1, parser.batches.len());
    assert_eq!(content, parser.batches[0]);
}

#[test]
fn complex_string() {
    let parser = BatchParser::parse(
        "SELECT '
		GO
		' FROM Translation
		GO
		SELECT '
		GO
		' FROM Translation",
    );

    assert_eq!(2, parser.batches.len());
}

#[test]
fn script_without_separator_is_one_batch() {
    let content = "SELECT 1;\nSELECT 'G' + 'O';\n-- GOTO\nUPDATE T SET X = 1";
    let parser = BatchParser::parse(content);
    assert_eq!(vec![content.to_string()], parser.batches);
}

#[test]
fn separator_splits_two_batches() {
    let parser = BatchParser::parse("SELECT 1\nGO\nSELECT 2");
    assert_eq!(vec!["SELECT 1\n".to_string(), "\nSELECT 2".to_string()], parser.batches);
}

#[test]
fn separator_inside_quotes_or_comment_does_not_split() {
    let quoted = "SELECT '\nGO\n' FROM T";
    assert_eq!(vec![quoted.to_string()], BatchParser::parse(quoted).batches);
    let commented = "SELECT 1 /* GO */ FROM T";
    assert_eq!(vec![commented.to_string()], BatchParser::parse(commented).batches);
}

#[test]
fn separator_needs_whitespace_after() {
    let parser = BatchParser::parse("SELECT 1\nGOTO x");
    assert_eq!(vec!["SELECT 1\nGOTO x".to_string()], parser.batches);
}

#[test]
fn lowercase_go_does_not_split() {
    let parser = BatchParser::parse("SELECT 1\ngo\nSELECT 2");
    assert_eq!(1, parser.batches.len());
}

#[test]
fn separator_at_end_leaves_no_empty_batch() {
    let parser = BatchParser::parse("SELECT 1\nGO");
    assert_eq!(vec!["SELECT 1\n".to_string()], parser.batches);
}

#[test]
fn leading_go_is_not_a_separator() {
    let parser = BatchParser::parse("GO\nSELECT 1");
    assert_eq!(vec!["GO\nSELECT 1".to_string()], parser.batches);
    assert_eq!(vec!["GO".to_string()], BatchParser::parse("GO").batches);
}

#[test]
fn separators_never_give_empty_batches() {
    assert_eq!(
        vec!["GO\n".to_string(), "\nX".to_string()],
        BatchParser::parse("GO\nGO\nX").batches
    );
    assert_eq!(
        vec!["GO ".to_string(), "\n".to_string()],
        BatchParser::parse("GO GO\n").batches
    );
    assert_eq!(vec![" ".to_string()], BatchParser::parse(" GO").batches);
}

#[test]
fn empty_script_has_no_batch() {
    assert!(BatchParser::parse("").batches.is_empty());
}

#[test]
fn three_batches() {
    let parser = BatchParser::parse("A\nGO\nB\r\nGO\tC");
    assert_eq!(
        vec!["A\n".to_string(), "\nB\r\n".to_string(), "\tC".to_string()],
        parser.batches
    );
}

#[test]
fn prepare_strips_byte_order_mark_but_hashes_all() {
    let with_bom = "\u{feff}SELECT 1\nGO\nSELECT 2";
    let prepared = prepare_script(with_bom);
    assert_eq!(vec!["SELECT 1\n".to_string(), "\nSELECT 2".to_string()], prepared.batches);
    let plain = prepare_script("SELECT 1\nGO\nSELECT 2");
    assert_eq!(prepared.batches, plain.batches);
    assert_ne!(prepared.checksum, plain.checksum);
}

#[test]
fn checksum_is_crc32_iso_hdlc() {
    assert_eq!(0xCBF4_3926, prepare_script("123456789").checksum);
    assert_eq!(0, prepare_script("").checksum);
}
