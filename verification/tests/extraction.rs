use lopdf::content::{Content, Operation};
use lopdf::{Dictionary, Document, Object, Stream};
use pdf2json::content::file_name_of;
use pdf2json::json::{parse_pdf_content, to_json};
use pdf2json::pdf::{extract_pdf_content, PdfError};
use pdf2json::sorting::sort_distinct_u32;

fn standard_ops(text: &str) -> Vec<Operation> {
    vec![
        Operation::new("BT", vec![]),
        Operation::new("Tf", vec!["F1".into(), 48.into()]),
        Operation::new("Td", vec![100.into(), 600.into()]),
        Operation::new("Tj", vec![Object::string_literal(text)]),
        Operation::new("ET", vec![]),
    ]
}

fn build_pdf_from_ops(page_ops: Vec<Vec<Operation>>) -> Vec<u8> {
    let mut doc = Document::with_version("1.5");
    let pages_id = doc.new_object_id();

    let mut font = Dictionary::new();
    font.set("Type", "Font");
    font.set("Subtype", "Type1");
    font.set("BaseFont", "Courier");
    let font_id = doc.add_object(font);

    let mut fonts = Dictionary::new();
    fonts.set("F1", font_id);
    let mut resources = Dictionary::new();
    resources.set("Font", fonts);
    let resources_id = doc.add_object(resources);

    let count = page_ops.len() as i64;
    let mut kids: Vec<Object> = Vec::new();
    for operations in page_ops {
        let content = Content { operations };
        let stream = Stream::new(Dictionary::new(), content.encode().unwrap());
        let content_id = doc.add_object(stream);
        let mut page = Dictionary::new();
        page.set("Type", "Page");
        page.set("Parent", pages_id);
        page.set("Contents", content_id);
        let page_id = doc.add_object(page);
        kids.push(page_id.into());
    }

    let mut pages = Dictionary::new();
    pages.set("Type", "Pages");
    pages.set("Count", count);
    pages.set("Kids", kids);
    pages.set("Resources", resources_id);
    pages.set("MediaBox", vec![0.into(), 0.into(), 595.into(), 842.into()]);
    doc.objects.insert(pages_id, Object::Dictionary(pages));

    let mut catalog = Dictionary::new();
    catalog.set("Type", "Catalog");
    catalog.set("Pages", pages_id);
    let catalog_id = doc.add_object(catalog);
    doc.trailer.set("Root", catalog_id);

    let mut buf: Vec<u8> = Vec::new();
    doc.save_to(&mut buf).unwrap();
    buf
}

fn build_pdf(texts: &[&str]) -> Vec<u8> {
    build_pdf_from_ops(texts.iter().map(|t| standard_ops(t)).collect())
}

#[test]
fn extraction_failure_names_the_first_bad_page() {
    let ops = vec![
        standard_ops("good page"),
        vec![Operation::new("BT", vec![]), Operation::new("Tf", vec![]), Operation::new(
            "ET",
            vec![],
        )],
    ];
    let bytes = build_pdf_from_ops(ops);
    match extract_pdf_content(&bytes, "bad.pdf") {
        Err(PdfError::Extraction { page_number, .. }) => assert_eq!(page_number, 2),
        Ok(_) => panic!("extraction must fail on the malformed page"),
        Err(PdfError::Load { .. }) => panic!("the document itself loads"),
    }
}

#[test]
fn multi_page_document_keeps_every_page_in_order() {
    let bytes = build_pdf(&["Alpha page", "Bravo page", "Charlie page"]);
    let content = extract_pdf_content(&bytes, "docs/archive/sample.pdf").unwrap();
    assert_eq!(content.file_name, "sample.pdf");
    assert_eq!(content.total_pages, 3);
    assert_eq!(content.pages.len(), 3);
    let numbers: Vec<u32> = content.pages.iter().map(|p| p.page_number).collect();
    assert_eq!(numbers, vec![1, 2, 3]);
    assert!(content.pages[0].content.contains("Alpha"));
    assert!(content.pages[1].content.contains("Bravo"));
    assert!(content.pages[2].content.contains("Charlie"));
}

#[test]
fn single_page_without_text_yields_whitespace_only_content() {
    let bytes = build_pdf(&[""]);
    let content = extract_pdf_content(&bytes, "blank.pdf").unwrap();
    assert_eq!(content.total_pages, 1);
    assert_eq!(content.pages.len(), 1);
    assert_eq!(content.pages[0].page_number, 1);
    assert!(content.pages[0].content.trim().is_empty());
}

#[test]
fn bytes_that_are_no_pdf_give_a_load_error() {
    let r = extract_pdf_content(b"this is not a pdf", "dir/broken.pdf");
    match r {
        Err(PdfError::Load { path, .. }) => assert_eq!(path, "dir/broken.pdf"),
        _ => panic!("loading must fail with a Load error"),
    }
}

#[test]
fn extracted_content_survives_the_json_round_trip() {
    let bytes = build_pdf(&["Round", "Trip"]);
    let content = extract_pdf_content(&bytes, "rt.pdf").unwrap();
    let json = to_json(&content);
    let back = parse_pdf_content(&json).expect("the produced text must parse");
    assert_eq!(back.file_name, content.file_name);
    assert_eq!(back.total_pages, content.total_pages);
    assert_eq!(back.pages.len(), content.pages.len());
    for (a, b) in back.pages.iter().zip(content.pages.iter()) {
        assert_eq!(a.page_number, b.page_number);
        assert_eq!(a.content, b.content);
    }
}

#[test]
fn content_from_document_assembles_sorted_pages() {
    let bytes = build_pdf(&["One", "Two"]);
    let doc = Document::load_mem(&bytes).unwrap();
    let content = pdf2json::pdf::content_from_document(&doc, String::from("direct.pdf")).unwrap();
    assert_eq!(content.file_name, "direct.pdf");
    assert_eq!(content.total_pages, 2);
    assert_eq!(content.pages.len(), 2);
    assert_eq!(content.pages[0].page_number, 1);
    assert_eq!(content.pages[1].page_number, 2);
    assert!(content.pages[0].content.contains("One"));
    assert!(content.pages[1].content.contains("Two"));
}

#[test]
fn file_name_is_the_final_path_component() {
    assert_eq!(file_name_of("report.pdf"), "report.pdf");
    assert_eq!(file_name_of("a/report.pdf"), "report.pdf");
    assert_eq!(file_name_of("/very/deep/tree/of/dirs/report.pdf"), "report.pdf");
    assert_eq!(file_name_of("./report.pdf"), "report.pdf");
    assert_eq!(file_name_of("dir.with.dots/r\u{e9}port.pdf"), "r\u{e9}port.pdf");
    assert_eq!(file_name_of(""), "");
}

#[test]
fn file_name_matches_the_standard_base_name_on_edge_paths() {
    assert_eq!(file_name_of("ends/with/slash/"), "slash");
    assert_eq!(file_name_of("a//"), "a");
    assert_eq!(file_name_of("a/b/."), "b");
    assert_eq!(file_name_of("a/./."), "a");
    assert_eq!(file_name_of("."), "");
    assert_eq!(file_name_of("./."), "");
    assert_eq!(file_name_of(".."), "");
    assert_eq!(file_name_of("a/b/.."), "");
    assert_eq!(file_name_of("a/../"), "");
    assert_eq!(file_name_of("/"), "");
    assert_eq!(file_name_of("//"), "");
    assert_eq!(file_name_of("..."), "...");
    assert_eq!(file_name_of("a/x."), "x.");
    assert_eq!(file_name_of("a/.hidden"), ".hidden");
    assert_eq!(file_name_of("..b"), "..b");
}

#[test]
fn file_name_agrees_with_the_standard_library() {
    let paths = vec![
        "report.pdf", "a/report.pdf", "/very/deep/tree/of/dirs/report.pdf", "./report.pdf",
        "ends/with/slash/", "a//", "a/b/.", "a/./.", ".", "./.", "..", "a/b/..", "a/../", "/",
        "//", "...", "a/x.", "a/.hidden", "..b", "",
    ];
    for p in paths {
        let expected = std::path::Path::new(p)
            .file_name()
            .map(|n| n.to_string_lossy().into_owned())
            .unwrap_or_default();
        assert_eq!(file_name_of(p), expected, "path: {:?}", p);
    }
}

#[test]
fn sorting_orders_distinct_numbers_ascending() {
    let r = sort_distinct_u32(vec![5, 1, 9, 3, 2]);
    assert_eq!(r, vec![1, 2, 3, 5, 9]);
    let empty = sort_distinct_u32(vec![]);
    assert!(empty.is_empty());
    let one = sort_distinct_u32(vec![42]);
    assert_eq!(one, vec![42]);
}
