use fxtools::csv::{header_index, run, CsvError, Delimiter};

fn strings(items: &[&str]) -> Vec<String> {
    items.iter().map(|s| s.to_string()).collect()
}

#[test]
fn delimiter_bytes() {
    assert_eq!(Delimiter::Tab.try_into(), Ok(b'\t'));
    assert_eq!(Delimiter::Comma.try_into(), Ok(b','));
}

#[test]
fn header_lookup() {
    let headers = strings(&["id", "seq", "id"]);
    assert_eq!(header_index(&headers, &"id".to_string()), Some(0));
    assert_eq!(header_index(&headers, &"seq".to_string()), Some(1));
    assert_eq!(header_index(&headers, &"gene".to_string()), None);
}

#[test]
fn table_becomes_records() {
    let headers = strings(&["gene", "name", "sequence"]);
    let rows = vec![strings(&["g1", "a", "ACGT"]), strings(&["g2", "b", "TTGA"])];
    let out = run(&headers, &rows, &"name".to_string(), &"sequence".to_string()).unwrap();
    assert_eq!(out, b">a\nACGT\n>b\nTTGA\n".to_vec());
}

#[test]
fn table_errors() {
    let headers = strings(&["name", "sequence"]);
    let rows = vec![strings(&["a", "ACGT"]), strings(&["b"])];
    assert_eq!(
        run(&headers, &rows, &"name".to_string(), &"seq".to_string()),
        Err(CsvError::MissingSequenceColumn)
    );
    assert_eq!(
        run(&headers, &rows, &"id".to_string(), &"sequence".to_string()),
        Err(CsvError::MissingHeaderColumn)
    );
    assert_eq!(
        run(&headers, &rows, &"id".to_string(), &"seq".to_string()),
        Err(CsvError::MissingHeaderColumn)
    );
    assert_eq!(
        run(&headers, &rows, &"name".to_string(), &"sequence".to_string()),
        Err(CsvError::MissingSequence(1))
    );
    let rows = vec![strings(&[])];
    assert_eq!(
        run(&headers, &rows, &"sequence".to_string(), &"name".to_string()),
        Err(CsvError::MissingHeader(0))
    );
}
