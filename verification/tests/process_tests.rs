use memsim::process::ParseError;
use memsim::process::Process;

#[test]
fn from_impl() {
    let input = "1 0 100 50";
    let result = Process::from(input);

    assert_eq!(result.id, 1);
    assert_eq!(result.arrival_time, 0);
    assert_eq!(result.memory_required, 100);
    assert_eq!(result.runtime, 50);
}

#[test]
fn parse_reads_the_four_fields_in_order() {
    let result = Process::parse("7 3 250 10").unwrap();
    assert_eq!(result.id, 7);
    assert_eq!(result.arrival_time, 3);
    assert_eq!(result.memory_required, 250);
    assert_eq!(result.runtime, 10);
    assert_eq!(result.is_assigned, false);
}

#[test]
fn parse_rejects_a_short_line() {
    assert_eq!(Process::parse("7 3 250"), Err(ParseError::MissingField));
    assert_eq!(Process::parse(""), Err(ParseError::MissingField));
    assert_eq!(Process::parse("   "), Err(ParseError::MissingField));
}

#[test]
fn parse_rejects_a_non_numeric_field() {
    assert_eq!(Process::parse("7 x 250 10"), Err(ParseError::InvalidNumber));
    assert_eq!(Process::parse("7 3 2a0 10"), Err(ParseError::InvalidNumber));
    assert_eq!(Process::parse("-7 3 250 10"), Err(ParseError::InvalidNumber));
}

#[test]
fn parse_rejects_a_field_too_large_for_u32() {
    assert_eq!(Process::parse("99999999999 0 1 1"), Err(ParseError::InvalidNumber));
    assert_eq!(Process::parse("1 0 4294967296 1"), Err(ParseError::InvalidNumber));
    assert!(Process::parse("1 0 4294967295 1").is_ok());
}

#[test]
fn parse_ignores_fields_beyond_the_fourth() {
    let result = Process::parse("2 1 64 9 extra junk").unwrap();
    assert_eq!(result.id, 2);
    assert_eq!(result.runtime, 9);
}

#[test]
fn parse_accepts_tabs_and_repeated_separators() {
    let result = Process::parse(" 5\t\t4  300   2 ").unwrap();
    assert_eq!(result.id, 5);
    assert_eq!(result.arrival_time, 4);
    assert_eq!(result.memory_required, 300);
    assert_eq!(result.runtime, 2);
}

#[test]
fn update_floors_the_runtime_at_zero() {
    let mut p = Process::from("1 0 10 2");
    assert!(!p.has_ended());
    p.update();
    assert_eq!(p.runtime, 1);
    p.update();
    assert_eq!(p.runtime, 0);
    assert!(p.has_ended());
    p.update();
    assert_eq!(p.runtime, 0);
}

#[test]
fn getters_report_the_parsed_fields() {
    let mut p = Process::from("8 6 123 4");
    assert_eq!(p.get_arrival_time(), 6);
    assert_eq!(p.get_memory_required(), 123);
    assert!(!p.is_assigned());
    p.assign();
    assert!(p.is_assigned());
}
