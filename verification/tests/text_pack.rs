use taletool::paths::ArchiveNameError;
use taletool::text_pack::{pack_text_records, stable_key_order};

fn chars(s: &str) -> Vec<char> {
    s.chars().collect()
}

#[test]
fn key_order_is_sorted_and_stable() {
    let keys = vec![chars("b"), chars("a"), chars("b"), chars(""), chars("ab")];
    assert_eq!(stable_key_order(&keys), vec![3, 1, 4, 0, 2]);
    assert_eq!(stable_key_order(&[]), Vec::<usize>::new());
}

#[test]
fn text_records_unescape_names_and_sort_by_lowercase_name() {
    let files = vec![
        ("b.lst".to_string(), b"2".to_vec()),
        ("A.dat".to_string(), b"1".to_vec()),
        ("a%20c.txt".to_string(), b"3".to_vec()),
        ("a.DAT".to_string(), b"4".to_vec()),
    ];
    let records = pack_text_records(files).unwrap();
    let names: Vec<&str> = records.iter().map(|r| r.name.as_str()).collect();
    assert_eq!(names, vec!["a c.txt", "A.dat", "a.DAT", "b.lst"]);
    let flags: Vec<i32> = records.iter().map(|r| r.packed_flag).collect();
    assert_eq!(flags, vec![1, 1, 1, 0]);
    assert_eq!(records[0].name_bytes, b"a c.txt".to_vec());
    assert_eq!(records[3].payload, b"2".to_vec());
}

#[test]
fn text_records_report_the_first_bad_escape() {
    let files = vec![("ok.dat".to_string(), vec![]), ("bad%4".to_string(), vec![]), ("bad%zz".to_string(), vec![])];
    assert_eq!(pack_text_records(files).unwrap_err(), ArchiveNameError::TruncatedEscape);
}
