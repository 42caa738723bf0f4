use pdf2json::content::{Page, PdfContent};
use pdf2json::json::{parse_pdf_content, to_json};

fn sample() -> PdfContent {
    PdfContent {
        file_name: String::from("report.pdf"),
        total_pages: 2,
        pages: vec![
            Page { page_number: 1, content: String::from("First page.\n") },
            Page { page_number: 2, content: String::from("Second page.\n") },
        ],
    }
}

#[test]
fn renders_expected_text_for_two_pages() {
    let json = to_json(&sample());
    let expected = "{\n  \"file_name\": \"report.pdf\",\n  \"total_pages\": 2,\n  \"pages\": [\n    {\n      \"page_number\": 1,\n      \"content\": \"First page.\\n\"\n    },\n    {\n      \"page_number\": 2,\n      \"content\": \"Second page.\\n\"\n    }\n  ]\n}";
    assert_eq!(json, expected);
}

#[test]
fn renders_expected_text_without_pages() {
    let c = PdfContent { file_name: String::from("empty.pdf"), total_pages: 0, pages: vec![] };
    let json = to_json(&c);
    let expected = "{\n  \"file_name\": \"empty.pdf\",\n  \"total_pages\": 0,\n  \"pages\": []\n}";
    assert_eq!(json, expected);
}

#[test]
fn escapes_quotes_backslashes_and_controls() {
    let c = PdfContent {
        file_name: String::from("a\"b\\c.pdf"),
        total_pages: 1,
        pages: vec![Page { page_number: 1, content: String::from("tab\there\x01!") }],
    };
    let json = to_json(&c);
    assert!(json.contains("\"file_name\": \"a\\\"b\\\\c.pdf\","));
    assert!(json.contains("\"content\": \"tab\\there\\u0001!\""));
}

#[test]
fn round_trip_two_pages() {
    let c = sample();
    let json = to_json(&c);
    let back = parse_pdf_content(&json).expect("the produced text must parse");
    assert_eq!(back.file_name, c.file_name);
    assert_eq!(back.total_pages, c.total_pages);
    assert_eq!(back.pages.len(), c.pages.len());
    for (a, b) in back.pages.iter().zip(c.pages.iter()) {
        assert_eq!(a.page_number, b.page_number);
        assert_eq!(a.content, b.content);
    }
}

#[test]
fn round_trip_awkward_strings() {
    let c = PdfContent {
        file_name: String::from("r\u{e9}sum\u{e9} \"final\"\\v2.pdf"),
        total_pages: 3,
        pages: vec![
            Page { page_number: 1, content: String::from("") },
            Page { page_number: 7, content: String::from("line one\r\nline\ttwo\x1b[0m") },
            Page { page_number: 4000000000, content: String::from("\u{2603} snowman") },
        ],
    };
    let json = to_json(&c);
    let back = parse_pdf_content(&json).expect("the produced text must parse");
    assert_eq!(back.file_name, c.file_name);
    assert_eq!(back.total_pages, 3);
    assert_eq!(back.pages[0].content, "");
    assert_eq!(back.pages[1].content, "line one\r\nline\ttwo\x1b[0m");
    assert_eq!(back.pages[2].page_number, 4000000000);
    assert_eq!(back.pages[2].content, "\u{2603} snowman");
}

#[test]
fn round_trip_without_pages() {
    let c = PdfContent { file_name: String::from(""), total_pages: 0, pages: vec![] };
    let json = to_json(&c);
    let back = parse_pdf_content(&json).expect("the produced text must parse");
    assert_eq!(back.file_name, "");
    assert_eq!(back.total_pages, 0);
    assert!(back.pages.is_empty());
}

#[test]
fn rejects_text_that_is_not_the_produced_form() {
    assert!(parse_pdf_content("").is_none());
    assert!(parse_pdf_content("{}").is_none());
    assert!(parse_pdf_content("{\n  \"file_name\": \"x\",\n  \"total_pages\": 0\n}").is_none());
    let good = to_json(&sample());
    let mut truncated = good.clone();
    truncated.pop();
    assert!(parse_pdf_content(&truncated).is_none());
    let trailing = format!("{} ", good);
    assert!(parse_pdf_content(&trailing).is_none());
}

#[test]
fn rejects_raw_control_characters_in_strings() {
    let json = "{\n  \"file_name\": \"a\nb\",\n  \"total_pages\": 0,\n  \"pages\": []\n}";
    assert!(parse_pdf_content(json).is_none());
}

#[test]
fn produced_text_is_json_that_serde_reads_the_same_way() {
    let c = sample();
    let json = to_json(&c);
    let v: serde_json::Value = serde_json::from_str(&json).expect("valid JSON");
    assert_eq!(v["file_name"].as_str(), Some("report.pdf"));
    assert_eq!(v["total_pages"].as_u64(), Some(2));
    let pages = v["pages"].as_array().expect("pages is an array");
    assert_eq!(pages.len(), 2);
    assert_eq!(pages[0]["page_number"].as_u64(), Some(1));
    assert_eq!(pages[0]["content"].as_str(), Some("First page.\n"));
    assert_eq!(pages[1]["page_number"].as_u64(), Some(2));
    assert_eq!(pages[1]["content"].as_str(), Some("Second page.\n"));
}

#[test]
fn string_escaping_matches_the_reference_encoder_byte_for_byte() {
    let samples = vec![
        "plain",
        "line one\nline two\n",
        "a\u{8}b\tc\nd\u{c}e\rf",
        "quote \" backslash \\ slash /",
        "controls \x00\x01\x0b\x0e\x1f end",
        "r\u{e9}sum\u{e9} \u{2603}",
        "",
    ];
    for text in samples {
        let c = PdfContent {
            file_name: String::from(text),
            total_pages: 1,
            pages: vec![Page { page_number: 1, content: String::from(text) }],
        };
        let json = to_json(&c);
        let reference = serde_json::to_string(text).expect("a string always encodes");
        assert!(
            json.contains(&format!("\"file_name\": {},", reference)),
            "file_name of {:?}: reference {}",
            text,
            reference
        );
        assert!(
            json.contains(&format!("\"content\": {}\n", reference)),
            "content of {:?}: reference {}",
            text,
            reference
        );
    }
}

#[test]
fn round_trip_keeps_short_escaped_controls() {
    let c = PdfContent {
        file_name: String::from("a\u{8}b.pdf"),
        total_pages: 1,
        pages: vec![Page { page_number: 1, content: String::from("x\u{8}\t\n\u{c}\r y") }],
    };
    let json = to_json(&c);
    assert!(json.contains("\"content\": \"x\\b\\t\\n\\f\\r y\""));
    let back = parse_pdf_content(&json).expect("the produced text must parse");
    assert_eq!(back.file_name, "a\u{8}b.pdf");
    assert_eq!(back.pages[0].content, "x\u{8}\t\n\u{c}\r y");
}

#[test]
fn serde_reads_escaped_controls_back_to_the_original() {
    let c = PdfContent {
        file_name: String::from("n\u{e4}me \"x\"\\.pdf"),
        total_pages: 1,
        pages: vec![Page { page_number: 1, content: String::from("a\nb\tc\x02d") }],
    };
    let json = to_json(&c);
    let v: serde_json::Value = serde_json::from_str(&json).expect("valid JSON");
    assert_eq!(v["file_name"].as_str(), Some("n\u{e4}me \"x\"\\.pdf"));
    assert_eq!(v["pages"][0]["content"].as_str(), Some("a\nb\tc\x02d"));
}
