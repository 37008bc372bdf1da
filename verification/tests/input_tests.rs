use pixel_ingest::input::{input_paths, is_input_file};
use pixel_ingest::text::{chars_of, find_all};

#[test]
fn event_logs_end_in_csv_gzip() {
    assert!(is_input_file("2022_place_canvas_history-000000000000.csv.gzip"));
    assert!(is_input_file(".csv.gzip"));
    assert!(is_input_file("é.csv.gzip"));
    assert!(!is_input_file(""));
    assert!(!is_input_file("csv.gzip"));
    assert!(!is_input_file("history.csv.gz"));
    assert!(!is_input_file("history.csv"));
    assert!(!is_input_file("history.csv.gzip.part"));
    assert!(!is_input_file("history.CSV.GZIP"));
    assert!(!is_input_file("history.csv.gzip "));
    assert!(!is_input_file("db.sqlite"));
}

#[test]
fn the_paths_keep_the_order_of_the_entries() {
    let names: Vec<String> = ["b.csv.gzip", "db.sqlite", "a.csv.gzip", "src", "c.csv.gzip"]
        .iter()
        .map(|n| n.to_string())
        .collect();
    assert_eq!(input_paths("..", &names), vec!["../b.csv.gzip", "../a.csv.gzip", "../c.csv.gzip"]);
    assert_eq!(input_paths("/data/logs", &names)[1], "/data/logs/a.csv.gzip");
    assert_eq!(input_paths("..", &vec![]), Vec::<String>::new());
    assert_eq!(input_paths("..", &vec!["notes.txt".to_string()]), Vec::<String>::new());
}

#[test]
fn characters_and_positions() {
    assert_eq!(chars_of("a,é,"), vec!['a', ',', 'é', ',']);
    assert_eq!(chars_of(""), Vec::<char>::new());
    assert_eq!(find_all(&chars_of("a,é,"), ','), vec![1, 3]);
    assert_eq!(find_all(&chars_of(",,,"), ','), vec![0, 1, 2]);
    assert_eq!(find_all(&chars_of("abc"), ','), Vec::<usize>::new());
}
