use the_way::binary::BINARY_VERSION;
use the_way::lang::{Color, LanguageTable};
use the_way::render::{Style, StyledRun, FALLBACK_RULE_WIDTH};
use the_way::snippet::Snippet;
use the_way::structural::StructuralReader;
use the_way::time::{parse_date, DateError, Timestamp};
use the_way::DecodeError;

fn ts(secs: i64, nanos: u32) -> Timestamp {
    Timestamp::new(secs, nanos)
}

fn sample() -> Snippet {
    Snippet::new(
        1,
        String::from("add two numbers"),
        String::from("rust"),
        String::from("rs"),
        "math demo",
        ts(1672531200, 0),
        ts(1685577600, 123456789),
        String::from("fn add(a,b){a+b}"),
    )
}

fn assert_same(a: &Snippet, b: &Snippet) {
    assert_eq!(a.index, b.index);
    assert_eq!(a.description, b.description);
    assert_eq!(a.language, b.language);
    assert_eq!(a.code, b.code);
    assert_eq!(a.extension, b.extension);
    assert_eq!(a.tags, b.tags);
    assert_eq!(a.date.secs, b.date.secs);
    assert_eq!(a.date.nanos, b.date.nanos);
    assert_eq!(a.updated.secs, b.updated.secs);
    assert_eq!(a.updated.nanos, b.updated.nanos);
}

#[test]
fn binary_round_trip_plain() {
    let s = sample();
    let bytes = s.to_bytes();
    let back = Snippet::from_bytes(&bytes).unwrap();
    assert_same(&s, &back);
}

#[test]
fn binary_round_trip_empty_code_and_tags() {
    let s = Snippet::new(
        0,
        String::from("d"),
        String::from("text"),
        String::from("txt"),
        "",
        ts(0, 0),
        ts(0, 0),
        String::new(),
    );
    assert!(s.tags.is_empty());
    let back = Snippet::from_bytes(&s.to_bytes()).unwrap();
    assert_same(&s, &back);
}

#[test]
fn binary_round_trip_negative_seconds() {
    let s = Snippet::new(
        7,
        String::from("before the epoch"),
        String::from("c"),
        String::from("c"),
        "old",
        ts(-86400, 999999999),
        ts(-1, 0),
        String::from("int main(){}"),
    );
    let back = Snippet::from_bytes(&s.to_bytes()).unwrap();
    assert_same(&s, &back);
}

#[test]
fn binary_decode_empty_is_truncated() {
    assert_eq!(Snippet::from_bytes(&[]).unwrap_err(), DecodeError::Truncated);
}

#[test]
fn binary_decode_bad_version_is_schema_mismatch() {
    let mut bytes = sample().to_bytes();
    bytes[0] = BINARY_VERSION.wrapping_add(1);
    assert_eq!(
        Snippet::from_bytes(&bytes).unwrap_err(),
        DecodeError::SchemaMismatch
    );
}

#[test]
fn binary_decode_truncated_is_truncated() {
    let bytes = sample().to_bytes();
    assert_eq!(
        Snippet::from_bytes(&bytes[..bytes.len() - 1]).unwrap_err(),
        DecodeError::Truncated
    );
}

#[test]
fn binary_decode_trailing_byte_is_corrupt() {
    let mut bytes = sample().to_bytes();
    bytes.push(0);
    assert_eq!(Snippet::from_bytes(&bytes).unwrap_err(), DecodeError::Corrupt);
}

#[test]
fn binary_decode_bad_utf8_is_corrupt() {
    // Corrupt the first byte of the description ("add two numbers"),
    // which sits after the version byte, the index and a length field.
    let mut bytes = sample().to_bytes();
    bytes[17] = 0xff;
    assert_eq!(Snippet::from_bytes(&bytes).unwrap_err(), DecodeError::Corrupt);
}

#[test]
fn structural_round_trip_example() {
    let s = sample();
    let exported = s.structural_encode();
    let mut reader = StructuralReader::new(&exported);
    let back = reader.next_record().unwrap().unwrap();
    assert_same(&s, &back);
    assert!(reader.next_record().is_none());
}

#[test]
fn structural_round_trip_awkward_text() {
    let s = Snippet::new(
        42,
        String::from("quotes \" and \\ backslash"),
        String::from("python"),
        String::from("py"),
        "a b\tc",
        ts(-1234567890, 1),
        ts(1234567890, 999999999),
        String::from("print(\"hi\\n\")\n\tdone\u{1}"),
    );
    let exported = s.structural_encode();
    let mut reader = StructuralReader::new(&exported);
    let back = reader.next_record().unwrap().unwrap();
    assert_same(&s, &back);
}

#[test]
fn structural_stream_appends_records() {
    let a = sample();
    let b = Snippet::new(
        2,
        String::from("other"),
        String::from("go"),
        String::from("go"),
        "",
        ts(5, 0),
        ts(6, 0),
        String::from("package main"),
    );
    let mut stream = String::new();
    stream.push_str(&a.structural_encode());
    stream.push_str(&b.structural_encode());
    let mut reader = StructuralReader::new(&stream);
    let first = reader.next_record().unwrap().unwrap();
    let second = reader.next_record().unwrap().unwrap();
    assert_same(&a, &first);
    assert_same(&b, &second);
    assert!(reader.next_record().is_none());
}

#[test]
fn structural_malformed_record_is_isolated() {
    let a = sample();
    let mut stream = String::new();
    stream.push_str(&a.structural_encode());
    stream.push_str("{\"index\":oops}");
    stream.push_str(&a.structural_encode());
    let mut reader = StructuralReader::new(&stream);
    let first = reader.next_record().unwrap();
    assert!(first.is_ok());
    let second = reader.next_record().unwrap();
    assert!(second.is_err());
    let third = reader.next_record().unwrap();
    assert!(third.is_ok());
    assert_same(&a, &third.unwrap());
}

#[test]
fn filter_keeps_exactly_the_range_in_order() {
    let jan = parse_date("2023-01-01").unwrap();
    let jun = parse_date("2023-06-01").unwrap();
    assert_eq!(jan.secs, 1672531200);
    assert_eq!(jun.secs, 1685577600);
    let mk = |i: usize, date: Timestamp| {
        Snippet::new(
            i,
            format!("s{}", i),
            String::from("rust"),
            String::from("rs"),
            "",
            date,
            date,
            String::new(),
        )
    };
    let all = vec![mk(1, jan), mk(2, jun)];
    let kept = Snippet::filter_in_date_range(all, jan, jun);
    assert_eq!(kept.len(), 1);
    assert_eq!(kept[0].index, 1);
}

#[test]
fn filter_empty_range_keeps_nothing() {
    let jan = parse_date("2023-01-01").unwrap();
    let all = vec![sample(), sample()];
    let kept = Snippet::filter_in_date_range(all, jan, jan);
    assert!(kept.is_empty());
}

#[test]
fn in_date_range_is_half_open() {
    let s = sample();
    let d = s.date;
    let later = ts(d.secs + 1, 0);
    assert!(s.in_date_range(d, later));
    assert!(!s.in_date_range(later, ts(d.secs + 2, 0)));
    assert!(!s.in_date_range(ts(d.secs - 1, 0), d));
}

#[test]
fn has_tag_is_exact_and_case_sensitive() {
    let s = sample();
    assert!(s.has_tag("math"));
    assert!(s.has_tag("demo"));
    assert!(!s.has_tag("Math"));
    assert!(!s.has_tag("mat"));
    assert!(!s.has_tag(""));
}

#[test]
fn tags_split_on_any_whitespace() {
    let s = Snippet::new(
        1,
        String::from("d"),
        String::from("rust"),
        String::from("rs"),
        "  one\ttwo \n three  ",
        ts(0, 0),
        ts(0, 0),
        String::new(),
    );
    assert_eq!(s.tags, vec!["one", "two", "three"]);
}

#[test]
fn derive_extension_is_total() {
    let mut table = LanguageTable::new();
    table.add(
        String::from("rust"),
        String::from("rs"),
        Color { r: 250, g: 100, b: 0 },
    );
    let (ext, known) = table.get_extension("rust");
    assert_eq!(ext, "rs");
    assert!(known);
    let (fallback, known) = table.get_extension("whitespace");
    assert_eq!(fallback, "txt");
    assert!(!known);
}

#[test]
fn set_extension_follows_language() {
    let mut table = LanguageTable::new();
    table.add(
        String::from("python"),
        String::from("py"),
        Color { r: 0, g: 0, b: 255 },
    );
    let mut s = sample();
    s.set_extension("python", &table);
    assert_eq!(s.extension, "py");
    s.set_extension("klingon", &table);
    assert_eq!(s.extension, "txt");
}

#[test]
fn get_header_spells_every_field() {
    let s = sample();
    assert_eq!(
        s.get_header(),
        "\u{25A0} #1. add two numbers | rust :math:demo:\n"
    );
}

#[test]
fn render_header_styles_and_reset() {
    let s = sample();
    let color = Color { r: 1, g: 2, b: 3 };
    let runs = s.render_header(color);
    assert_eq!(runs.len(), 5);
    assert_eq!(runs[0].style, Style::Marker(color));
    assert_eq!(runs[0].text, "\u{25A0} ");
    assert_eq!(runs[1].style, Style::Main);
    assert_eq!(runs[1].text, "#1. add two numbers ");
    assert_eq!(runs[2].style, Style::Accent);
    assert_eq!(runs[2].text, "| rust ");
    assert_eq!(runs[3].style, Style::Tag);
    assert_eq!(runs[3].text, ":math:demo:\n");
    assert_eq!(runs[4].style, Style::Reset);
}

#[test]
fn render_code_without_grammar_keeps_full_code_unstyled() {
    let s = sample();
    let runs = s.render_code(None);
    assert_eq!(runs.len(), 2);
    assert_eq!(runs[0].style, Style::Plain);
    assert_eq!(runs[0].text, s.code);
    assert!(!runs[0].text.is_empty());
    assert_eq!(runs[1].style, Style::Reset);
}

#[test]
fn render_code_passes_highlighter_runs_through() {
    let s = sample();
    let highlighted = vec![
        StyledRun { text: String::from("fn "), style: Style::Token(3) },
        StyledRun { text: String::from("add"), style: Style::Token(9) },
    ];
    let runs = s.render_code(Some(highlighted));
    assert_eq!(runs.len(), 3);
    assert_eq!(runs[0].text, "fn ");
    assert_eq!(runs[2].style, Style::Reset);
}

#[test]
fn render_ends_with_blank_separator() {
    let s = sample();
    let runs = s.render(Color { r: 9, g: 9, b: 9 }, None);
    assert_eq!(runs.first().unwrap().text, "\n");
    let n = runs.len();
    assert_eq!(runs[n - 1].text, "\n");
    assert_eq!(runs[n - 2].text, "\n");
}

#[test]
fn legacy_render_scales_rule_to_half_width() {
    let s = sample();
    let runs = s.render_legacy("a book", None, Some(80));
    let rule = &runs[runs.len() - 1];
    assert_eq!(rule.text, format!("{}\n", "-".repeat(40)));
    assert_eq!(runs[0].text, "#1. add two numbers\n");
    assert_eq!(
        runs[runs.len() - 2].text,
        "rust | math, demo | a book\n"
    );
}

#[test]
fn legacy_render_falls_back_on_unknown_width() {
    let s = sample();
    let runs = s.render_legacy("", None, None);
    let rule = &runs[runs.len() - 1];
    assert_eq!(rule.text, format!("{}\n", "-".repeat(FALLBACK_RULE_WIDTH)));
}

#[test]
fn parse_date_accepts_calendar_dates() {
    let t = parse_date("2020-02-29").unwrap();
    assert_eq!(t.secs, 1582934400);
    assert_eq!(t.nanos, 0);
}

#[test]
fn parse_date_rejects_malformed_input() {
    assert_eq!(parse_date("2021-02-29").unwrap_err(), DateError::InvalidDate);
    assert_eq!(parse_date("yesterday").unwrap_err(), DateError::InvalidDate);
    assert_eq!(parse_date("2021-13-01").unwrap_err(), DateError::InvalidDate);
}

#[test]
fn from_fields_normalizes_language_and_stamps_updated() {
    let mut table = LanguageTable::new();
    table.add(
        String::from("rust"),
        String::from("rs"),
        Color { r: 0, g: 0, b: 0 },
    );
    let now = ts(1700000000, 5);
    let s = Snippet::from_fields(
        3,
        String::from("desc"),
        "RuSt",
        &table,
        "one two",
        Some("2023-01-01"),
        now,
        String::from("code"),
    )
    .unwrap();
    assert_eq!(s.language, "rust");
    assert_eq!(s.extension, "rs");
    assert_eq!(s.date.secs, 1672531200);
    assert_eq!(s.updated.secs, 1700000000);
    assert_eq!(s.tags, vec!["one", "two"]);
}

#[test]
fn from_fields_rejects_a_bad_date() {
    let table = LanguageTable::new();
    let r = Snippet::from_fields(
        3,
        String::from("desc"),
        "rust",
        &table,
        "",
        Some("not-a-date"),
        ts(0, 0),
        String::new(),
    );
    assert_eq!(r.unwrap_err(), DateError::InvalidDate);
}

#[test]
fn timestamp_new_folds_overlarge_nanos() {
    let t = Timestamp::new(10, 2_500_000_000);
    assert_eq!(t.secs, 12);
    assert_eq!(t.nanos, 500_000_000);
}

#[test]
fn timestamp_order_is_by_seconds_then_nanos() {
    let a = ts(5, 10);
    let b = ts(5, 11);
    let c = ts(6, 0);
    assert!(a.lt(&b));
    assert!(b.lt(&c));
    assert!(a.le(&a));
    assert!(!c.le(&a));
}

#[test]
fn structural_encode_is_readable_json_shape() {
    let s = Snippet::new(
        9,
        String::from("x"),
        String::from("go"),
        String::from("go"),
        "t",
        ts(1, 2),
        ts(3, 4),
        String::from("y"),
    );
    assert_eq!(
        s.structural_encode(),
        "{\"index\":9,\"description\":\"x\",\"language\":\"go\",\"code\":\"y\",\
         \"extension\":\"go\",\"tags\":[\"t\"],\"date\":{\"secs\":1,\"nanos\":2},\
         \"updated\":{\"secs\":3,\"nanos\":4}}"
    );
}
