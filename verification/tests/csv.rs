use pdfplumber::error::Error;
use pdfplumber::table::table_rows_to_csv;

fn row(cells: &[&str]) -> Vec<Option<String>> {
    cells.iter().map(|c| Some(c.to_string())).collect()
}

#[test]
fn plain_cells_are_joined_by_commas() {
    let rows = vec![row(&["a", "b"]), vec![None, Some("d".to_string())]];
    assert_eq!(table_rows_to_csv(&rows).unwrap(), "a,b\n,d\n");
}

#[test]
fn special_cells_are_quoted() {
    let rows = vec![row(&["a,b", "say \"x\"", "two\nlines", "cr\rend", " space "])];
    assert_eq!(
        table_rows_to_csv(&rows).unwrap(),
        "\"a,b\",\"say \"\"x\"\"\",\"two\nlines\",\"cr\rend\", space \n"
    );
}

#[test]
fn a_lone_empty_cell_is_quoted() {
    assert_eq!(table_rows_to_csv(&vec![vec![None]]).unwrap(), "\"\"\n");
    assert_eq!(table_rows_to_csv(&vec![row(&[""]), row(&["x"])]).unwrap(), "\"\"\nx\n");
}

#[test]
fn no_rows_give_no_text() {
    assert_eq!(table_rows_to_csv(&Vec::new()).unwrap(), "");
}

#[test]
fn other_alphabets_stay_as_they_are() {
    assert_eq!(table_rows_to_csv(&vec![row(&["\u{e4}\u{20ac}", "\u{1f600}"])]).unwrap(), "\u{e4}\u{20ac},\u{1f600}\n");
}

#[test]
fn rows_of_unequal_length_are_refused() {
    match table_rows_to_csv(&vec![row(&["a", "b"]), row(&["c"])]) {
        Err(Error::Csv(text)) => assert_eq!(
            text,
            "CSV error: found record with 1 fields, but the previous record has 2 fields"
        ),
        other => panic!("{:?}", other),
    }
}

fn read_back(text: &str) -> Vec<Vec<String>> {
    let mut reader = csv::ReaderBuilder::new()
        .has_headers(false)
        .flexible(true)
        .from_reader(text.as_bytes());
    reader
        .records()
        .map(|r| r.unwrap().iter().map(|field| field.to_string()).collect())
        .collect()
}

#[test]
fn written_rows_are_read_back() {
    let rows = vec![
        row(&["a,b", "say \"x\"", "\"\""]),
        row(&["two\nlines", "cr\r\nend", ""]),
        vec![None, Some("\u{20ac}".to_string()), None],
    ];
    assert_eq!(
        read_back(&table_rows_to_csv(&rows).unwrap()),
        vec![
            vec!["a,b", "say \"x\"", "\"\""],
            vec!["two\nlines", "cr\r\nend", ""],
            vec!["", "\u{20ac}", ""]
        ]
    );
    assert_eq!(read_back(&table_rows_to_csv(&vec![vec![None], row(&[""])]).unwrap()), vec![vec![""], vec![""]]);
    assert_eq!(read_back(&table_rows_to_csv(&vec![Vec::new()]).unwrap()), vec![vec![""]]);
    assert!(read_back(&table_rows_to_csv(&Vec::new()).unwrap()).is_empty());
}
