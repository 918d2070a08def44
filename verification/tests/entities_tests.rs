use parser_core::entities::EntityExtractor;

#[test]
fn test_extract_number() {
    let extractor = EntityExtractor::new();
    let entities = extractor.extract("list 5 processes");

    assert!(!entities.is_empty());
    assert!(entities.iter().any(|e| e.entity_type == "number" && e.value == "5"));
}

#[test]
fn test_extract_path() {
    let extractor = EntityExtractor::new();
    let entities = extractor.extract(r#"open "C:\Users\Desktop""#);

    assert!(!entities.is_empty());
    assert!(entities.iter().any(|e| e.entity_type == "path"));
}

#[test]
fn quoted_path_keeps_value_and_span() {
    let extractor = EntityExtractor::new();
    let text = r#"open "C:\Users\Desktop""#;
    let entities = extractor.extract(text);
    let path = entities.iter().find(|e| e.entity_type == "path").unwrap();
    assert_eq!(path.value, r"C:\Users\Desktop");
    assert_eq!(path.original, r#""C:\Users\Desktop""#);
    assert_eq!(path.start, 5);
    assert_eq!(path.end, text.chars().count());
}

#[test]
fn single_quoted_path_is_extracted() {
    let extractor = EntityExtractor::new();
    let entities = extractor.extract("open 'my notes.txt' please");
    assert!(entities.iter().any(|e| e.entity_type == "path" && e.value == "my notes.txt"));
    assert!(entities.iter().any(|e| e.entity_type == "file" && e.value == "notes.txt"));
}

#[test]
fn environment_variable_is_extracted() {
    let extractor = EntityExtractor::new();
    let entities = extractor.extract("copy %APPDATA% over");
    let env = entities.iter().find(|e| e.entity_type == "envvar").unwrap();
    assert_eq!(env.value, "APPDATA");
    assert_eq!(env.original, "%APPDATA%");
    // The keyword table also spots "appdata" in the folded text.
    assert!(entities.iter().any(|e| e.entity_type == "special_path" && e.value == "appdata"));
}

#[test]
fn file_name_needs_a_known_extension() {
    let extractor = EntityExtractor::new();
    let entities = extractor.extract("open report.pdf and report.xyz");
    let files: Vec<_> = entities.iter().filter(|e| e.entity_type == "file").collect();
    assert_eq!(files.len(), 1);
    assert_eq!(files[0].value, "report.pdf");
    assert_eq!(files[0].start, 5);
    assert_eq!(files[0].end, 15);
}

#[test]
fn number_with_unit_dedups_the_plain_number() {
    let extractor = EntityExtractor::new();
    let entities = extractor.extract("5gb");
    let numbers: Vec<_> = entities.iter().filter(|e| e.entity_type == "number").collect();
    assert_eq!(numbers.len(), 1);
    assert_eq!(numbers[0].value, "5");
    assert_eq!(numbers[0].original, "5gb");
}

#[test]
fn spaced_unit_also_dedups() {
    let extractor = EntityExtractor::new();
    let entities = extractor.extract("download 5 gb now");
    let numbers: Vec<_> = entities.iter().filter(|e| e.entity_type == "number").collect();
    assert_eq!(numbers.len(), 1);
    assert_eq!(numbers[0].value, "5");
    assert_eq!(numbers[0].original, "5 gb");
}

#[test]
fn percent_sign_is_a_unit() {
    let extractor = EntityExtractor::new();
    let entities = extractor.extract("cpu at 90%");
    let numbers: Vec<_> = entities.iter().filter(|e| e.entity_type == "number").collect();
    assert_eq!(numbers.len(), 1);
    assert_eq!(numbers[0].value, "90");
    assert_eq!(numbers[0].original, "90%");
}

#[test]
fn special_path_keyword_reports_first_occurrence() {
    let extractor = EntityExtractor::new();
    let entities = extractor.extract("open Desktop then desktop");
    let specials: Vec<_> =
        entities.iter().filter(|e| e.entity_type == "special_path").collect();
    assert_eq!(specials.len(), 1);
    assert_eq!(specials[0].value, "desktop");
    assert_eq!(specials[0].start, 5);
    assert_eq!(specials[0].end, 12);
}

#[test]
fn empty_text_yields_no_entities() {
    let extractor = EntityExtractor::new();
    assert!(extractor.extract("").is_empty());
}

#[test]
fn extraction_is_deterministic() {
    let extractor = EntityExtractor::new();
    let text = "open \"C:\\temp\" and move 5gb to %HOME% or notes.txt 7";
    let first = extractor.extract(text);
    let second = extractor.extract(text);
    assert_eq!(first, second);
    let third = EntityExtractor::default().extract(text);
    assert_eq!(first, third);
}

#[test]
fn spans_stay_inside_the_text() {
    let extractor = EntityExtractor::new();
    let text = "open \"C:\\temp\" and move 5gb to %HOME% or notes.txt 7";
    let n = text.chars().count();
    for e in extractor.extract(text) {
        assert!(e.start <= e.end);
        assert!(e.end <= n);
    }
}
