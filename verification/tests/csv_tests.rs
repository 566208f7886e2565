use sherlock_graph::csv::{chars_of, parse_bool, parse_u32, parse_u64, read_csv_lines, s, split_csv};

fn strings(v: &[&str]) -> Vec<String> {
    v.iter().map(|x| x.to_string()).collect()
}

#[test]
fn split_plain_fields() {
    assert_eq!(split_csv("a,b,c"), strings(&["a", "b", "c"]));
}

#[test]
fn split_keeps_empty_fields() {
    assert_eq!(split_csv(",a,,"), strings(&["", "a", "", ""]));
    assert_eq!(split_csv(""), strings(&[""]));
}

#[test]
fn split_quoted_comma_stays_in_field() {
    assert_eq!(split_csv("\"a,b\",c"), strings(&["a,b", "c"]));
}

#[test]
fn split_doubled_quote_inside_quotes_is_one_quote() {
    assert_eq!(split_csv("\"say \"\"hi\"\"\",x"), strings(&["say \"hi\"", "x"]));
}

#[test]
fn split_quote_outside_quotes_toggles_and_is_dropped() {
    assert_eq!(split_csv("a\"b,c\"d"), strings(&["ab,cd"]));
    assert_eq!(split_csv("\"\""), strings(&[""]));
}

#[test]
fn split_without_quotes_matches_plain_split() {
    let line = "10, x ,,y z,";
    let plain: Vec<String> = line.split(',').map(|x| x.to_string()).collect();
    assert_eq!(split_csv(line), plain);
}

#[test]
fn parse_u64_reads_trimmed_decimal() {
    assert_eq!(parse_u64("  42 "), 42);
    assert_eq!(parse_u64("+7"), 7);
    assert_eq!(parse_u64("18446744073709551615"), u64::MAX);
}

#[test]
fn parse_u64_falls_back_to_zero() {
    assert_eq!(parse_u64(""), 0);
    assert_eq!(parse_u64("-1"), 0);
    assert_eq!(parse_u64("12a"), 0);
    assert_eq!(parse_u64("+"), 0);
    assert_eq!(parse_u64("18446744073709551616"), 0);
    assert_eq!(parse_u64("1 2"), 0);
}

#[test]
fn parse_u32_range() {
    assert_eq!(parse_u32("4294967295"), u32::MAX);
    assert_eq!(parse_u32("4294967296"), 0);
    assert_eq!(parse_u32("\t9\n"), 9);
}

#[test]
fn parse_bool_accepted_spellings() {
    for t in ["1", "true", "True", "TRUE", " true "] {
        assert!(parse_bool(t), "{t}");
    }
    for f in ["0", "false", "tRUE", "yes", "", "11"] {
        assert!(!parse_bool(f), "{f}");
    }
}

#[test]
fn s_trims_both_ends() {
    assert_eq!(s("  ab c \t"), "ab c");
    assert_eq!(s("\u{00a0}x\u{3000}"), "x");
}

#[test]
fn chars_of_lists_characters() {
    assert_eq!(chars_of("aé,"), vec!['a', 'é', ',']);
}

#[test]
fn read_csv_lines_skips_header_and_blank_lines() {
    let lines = strings(&["h1,h2", " a,b ", "   ", "", "c,\"d,e\""]);
    let recs = read_csv_lines(&lines);
    assert_eq!(recs, vec![strings(&["a", "b"]), strings(&["c", "d,e"])]);
}

#[test]
fn read_csv_lines_of_header_only_is_empty() {
    assert!(read_csv_lines(&strings(&["only,header"])).is_empty());
    assert!(read_csv_lines(&Vec::new()).is_empty());
}

fn quote(f: &str) -> String {
    format!("\"{}\"", f.replace('"', "\"\""))
}

#[test]
fn quoted_fields_split_back() {
    let fields = strings(&["plain", "a,b", "say \"hi\"", "", "\"\"", ",\""]);
    let line: Vec<String> = fields.iter().map(|f| quote(f)).collect();
    assert_eq!(split_csv(&line.join(",")), fields);
    assert_eq!(split_csv(&quote("x\"")), strings(&["x\""]));
}
