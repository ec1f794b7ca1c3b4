use pageflow::bytes::{estimate_text_width, split_bytes, split_words, trim_bytes};
use pageflow::engine::{convert_paragraphs_to_pdf, DocContent, ImageContent};
use pageflow::ops::{ConvertError, DrawOp, Page};
use pageflow::text::wrap_line;

fn doc_text(s: &[u8]) -> DocContent {
    DocContent { text: s.to_vec(), image: None }
}

fn doc_image(bytes: Vec<u8>) -> DocContent {
    DocContent { text: Vec::new(), image: Some(ImageContent { bytes }) }
}

fn crc32(bytes: &[u8]) -> u32 {
    let mut crc: u32 = 0xFFFF_FFFF;
    for &b in bytes {
        crc ^= b as u32;
        for _ in 0..8 {
            if crc & 1 != 0 {
                crc = (crc >> 1) ^ 0xEDB8_8320;
            } else {
                crc >>= 1;
            }
        }
    }
    !crc
}

fn adler32(data: &[u8]) -> u32 {
    let mut a: u32 = 1;
    let mut b: u32 = 0;
    for &d in data {
        a = (a + d as u32) % 65521;
        b = (b + a) % 65521;
    }
    (b << 16) | a
}

fn png_chunk(kind: &[u8; 4], data: &[u8]) -> Vec<u8> {
    let mut v = Vec::new();
    v.extend_from_slice(&(data.len() as u32).to_be_bytes());
    let mut td = kind.to_vec();
    td.extend_from_slice(data);
    v.extend_from_slice(&td);
    v.extend_from_slice(&crc32(&td).to_be_bytes());
    v
}

/// A valid 1x1 grayscale PNG.
fn png_1x1() -> Vec<u8> {
    let mut v = vec![137u8, 80, 78, 71, 13, 10, 26, 10];
    let ihdr = [0u8, 0, 0, 1, 0, 0, 0, 1, 8, 0, 0, 0, 0];
    v.extend_from_slice(&png_chunk(b"IHDR", &ihdr));
    let raw = [0u8, 128];
    let mut z = vec![0x78u8, 0x01, 0x01, 0x02, 0x00, 0xFD, 0xFF];
    z.extend_from_slice(&raw);
    z.extend_from_slice(&adler32(&raw).to_be_bytes());
    v.extend_from_slice(&png_chunk(b"IDAT", &z));
    v.extend_from_slice(&png_chunk(b"IEND", &[]));
    v
}

/// A JPEG holding just the start marker and a 3x2 baseline frame header.
fn jpeg_3x2() -> Vec<u8> {
    vec![
        0xFF, 0xD8, // SOI
        0xFF, 0xC0, 0x00, 0x0B, // SOF0, length 11
        0x08, // precision
        0x00, 0x02, // height 2
        0x00, 0x03, // width 3
        0x01, // one component
        0x01, 0x11, 0x00, // component 1, 1x1 sampling, table 0
    ]
}

fn text_ops(page: &Page) -> Vec<(Vec<u8>, i64, i64, bool)> {
    let mut out = Vec::new();
    for op in &page.ops {
        if let DrawOp::Text { content, x, y, bold, .. } = op {
            out.push((content.clone(), *x, *y, *bold));
        }
    }
    out
}

fn count_h_lines(page: &Page) -> usize {
    page.ops
        .iter()
        .filter(|op| matches!(op, DrawOp::Line { y1, y2, .. } if y1 == y2))
        .count()
}

fn count_v_lines(page: &Page) -> usize {
    page.ops
        .iter()
        .filter(|op| matches!(op, DrawOp::Line { x1, y1, x2, y2 } if x1 == x2 && y1 != y2))
        .count()
}

#[test]
fn estimate_width_basic() {
    assert_eq!(estimate_text_width(&b"abc".to_vec(), 44), 33);
    assert_eq!(estimate_text_width(&b" ".to_vec(), 44), 11);
    assert_eq!(estimate_text_width(&Vec::new(), 44), 0);
}

#[test]
fn byte_helpers() {
    assert_eq!(trim_bytes(&b"  hi \t".to_vec()), b"hi".to_vec());
    let words = split_words(&b" a  bb c ".to_vec());
    assert_eq!(words, vec![b"a".to_vec(), b"bb".to_vec(), b"c".to_vec()]);
    let parts = split_bytes(&b"a|b|".to_vec(), b'|');
    assert_eq!(parts, vec![b"a".to_vec(), b"b".to_vec(), b"".to_vec()]);
}

#[test]
fn wrap_keeps_short_line() {
    let lines = wrap_line(&b"Hello world".to_vec());
    assert_eq!(lines, vec![b"Hello world".to_vec()]);
}

#[test]
fn wrap_breaks_at_width() {
    let w = "a".repeat(30);
    let text = format!("{w} {w} {w} {w}").into_bytes();
    let lines = wrap_line(&text);
    let joined = format!("{w} {w}").into_bytes();
    assert_eq!(lines, vec![joined.clone(), joined]);
}

#[test]
fn wrap_overlong_word_stands_alone() {
    let long = "x".repeat(80);
    let text = format!("{long} y").into_bytes();
    let lines = wrap_line(&text);
    assert_eq!(lines, vec![long.clone().into_bytes(), b"y".to_vec()]);
}

#[test]
fn convert_single_paragraph() {
    let content = vec![doc_text(b"Hello world")];
    let pages = convert_paragraphs_to_pdf(&content).unwrap();
    assert_eq!(pages.len(), 1);
    let ops = text_ops(&pages[0]);
    assert_eq!(ops, vec![(b"Hello world".to_vec(), 40, 1148, false)]);
    assert_eq!(pages[0].ops.len(), 1);
}

#[test]
fn convert_wraps_and_advances_cursor() {
    let w = "a".repeat(30);
    let para = format!("{w} {w} {w} {w}");
    let content = vec![doc_text(para.as_bytes()), doc_text(b"next")];
    let pages = convert_paragraphs_to_pdf(&content).unwrap();
    assert_eq!(pages.len(), 1);
    let ops = text_ops(&pages[0]);
    let joined = format!("{w} {w}").into_bytes();
    // Two wrapped lines one line height apart, then the next paragraph one
    // paragraph spacing below the second line.
    assert_eq!(ops.len(), 3);
    assert_eq!(ops[0], (joined.clone(), 40, 1148, false));
    assert_eq!(ops[1], (joined, 40, 1124, false));
    assert_eq!(ops[2], (b"next".to_vec(), 40, 1068, false));
}

#[test]
fn convert_table_grid() {
    let content = vec![doc_text(b"TABLE_START\n|a|b|\n|c|d|\nTABLE_END\n")];
    let pages = convert_paragraphs_to_pdf(&content).unwrap();
    assert_eq!(pages.len(), 1);
    let ops = text_ops(&pages[0]);
    // Two columns of width 380 each: cell text at margin + column offset + 52.
    assert_eq!(
        ops,
        vec![
            (b"a".to_vec(), 92, 1132, false),
            (b"b".to_vec(), 472, 1132, false),
            (b"c".to_vec(), 92, 1108, false),
            (b"d".to_vec(), 472, 1108, false),
        ]
    );
    // k data rows draw k + 2 horizontal borders and k * columns + 1 verticals.
    assert_eq!(count_h_lines(&pages[0]), 4);
    assert_eq!(count_v_lines(&pages[0]), 5);
    // The top border spans all columns: from the margin to margin + 2 * 380.
    assert!(matches!(
        pages[0].ops[0],
        DrawOp::Line { x1: 40, y1: 1148, x2: 800, y2: 1148 }
    ));
}

#[test]
fn convert_table_short_row_draws_available_cells() {
    // The second row has one cell; the column count still comes from the
    // first data row, and the short row draws what it has (the piece after
    // its last delimiter counts as an empty trailing cell).
    let content = vec![doc_text(b"TABLE_START\n|a|b|\n|c|\nTABLE_END\n")];
    let pages = convert_paragraphs_to_pdf(&content).unwrap();
    let ops = text_ops(&pages[0]);
    assert_eq!(
        ops,
        vec![
            (b"a".to_vec(), 92, 1132, false),
            (b"b".to_vec(), 472, 1132, false),
            (b"c".to_vec(), 92, 1108, false),
            (b"".to_vec(), 472, 1108, false),
        ]
    );
    assert_eq!(count_h_lines(&pages[0]), 4);
    assert_eq!(count_v_lines(&pages[0]), 5);
}

#[test]
fn convert_table_rows_after_end_marker_ignored() {
    let content = vec![
        doc_text(b"TABLE_START\n|a|\nTABLE_END\n|zz|\n"),
        doc_text(b"after"),
    ];
    let pages = convert_paragraphs_to_pdf(&content).unwrap();
    let ops = text_ops(&pages[0]);
    // Only the one data row is drawn, and the next block continues from the
    // table's final cursor with no extra spacing.
    assert_eq!(
        ops,
        vec![(b"a".to_vec(), 92, 1132, false), (b"after".to_vec(), 40, 1124, false)]
    );
    assert_eq!(count_h_lines(&pages[0]), 3);
    assert_eq!(count_v_lines(&pages[0]), 2);
}

#[test]
fn convert_malformed_table_missing_rows() {
    let content = vec![doc_text(b"TABLE_START")];
    let r = convert_paragraphs_to_pdf(&content);
    assert!(matches!(r, Err(ConvertError::MalformedTable)));
}

#[test]
fn convert_malformed_table_no_columns() {
    let content = vec![doc_text(b"TABLE_START\nTABLE_END\n")];
    let r = convert_paragraphs_to_pdf(&content);
    assert!(matches!(r, Err(ConvertError::MalformedTable)));
}

#[test]
fn convert_image_fits_page() {
    let content = vec![doc_image(png_1x1())];
    let pages = convert_paragraphs_to_pdf(&content).unwrap();
    assert_eq!(pages.len(), 1);
    assert_eq!(pages[0].ops.len(), 1);
    // A 1x1 image scales to the usable width, keeps its aspect ratio and is
    // centered: x + width / 2 == page width / 2.
    match &pages[0].ops[0] {
        DrawOp::Image { x, y, width, height, data } => {
            assert_eq!((*x, *y, *width, *height), (40, 388, 760, 760));
            assert_eq!(*data, png_1x1());
            assert_eq!(2 * x + width, 840);
        }
        other => panic!("expected an image instruction, got {:?}", op_kind(other)),
    }
}

#[test]
fn convert_image_triggers_one_page_break() {
    // Eleven blank-line gaps drop the cursor to 732, leaving 692 units of
    // room: less than the 760 the width-fit image needs, so exactly one new
    // page is opened before the image is placed at the fresh top.
    let blanks = "\n".repeat(11);
    let content = vec![doc_text(blanks.as_bytes()), doc_image(png_1x1())];
    let pages = convert_paragraphs_to_pdf(&content).unwrap();
    assert_eq!(pages.len(), 2);
    assert_eq!(pages[0].ops.len(), 0);
    assert_eq!(pages[1].ops.len(), 1);
    assert!(matches!(
        pages[1].ops[0],
        DrawOp::Image { x: 40, y: 388, width: 760, height: 760, .. }
    ));
}

#[test]
fn convert_unsupported_image_fails_whole_run() {
    let gif = b"GIF89a\x01\x00\x01\x00\x00\x00\x00".to_vec();
    let content = vec![doc_image(gif)];
    let r = convert_paragraphs_to_pdf(&content);
    assert!(matches!(r, Err(ConvertError::UnsupportedImage)));
}

#[test]
fn convert_png_garbage_is_decode_error() {
    let mut bad = vec![137u8, 80, 78, 71, 13, 10, 26, 10];
    bad.extend_from_slice(b"not a real png");
    let content = vec![doc_image(bad)];
    let r = convert_paragraphs_to_pdf(&content);
    assert!(matches!(r, Err(ConvertError::ImageDecode)));
}

#[test]
fn convert_jpeg_dimensions_drive_scaling() {
    // 3 pixels wide, 2 high: scaled width 760, height floor(2 * 760 / 3).
    let content = vec![doc_image(jpeg_3x2())];
    let pages = convert_paragraphs_to_pdf(&content).unwrap();
    assert_eq!(pages.len(), 1);
    assert!(matches!(
        pages[0].ops[0],
        DrawOp::Image { x: 40, y: 642, width: 760, height: 506, .. }
    ));
}

#[test]
fn convert_bold_first_line_and_bullet() {
    let content = vec![doc_text(b"Title\n- item\nplain")];
    let pages = convert_paragraphs_to_pdf(&content).unwrap();
    let ops = text_ops(&pages[0]);
    assert_eq!(
        ops,
        vec![
            (b"Title".to_vec(), 40, 1148, true),
            (b"- item".to_vec(), 48, 1124, false),
            (b"plain".to_vec(), 40, 1100, false),
        ]
    );
}

#[test]
fn convert_low_water_resets_cursor() {
    // A paragraph of blank lines drives the cursor below the low-water mark;
    // the next block starts at the top of a fresh page.
    let blanks = "\n".repeat(33);
    let content = vec![doc_text(blanks.as_bytes()), doc_text(b"after")];
    let pages = convert_paragraphs_to_pdf(&content).unwrap();
    assert_eq!(pages.len(), 2);
    assert_eq!(pages[0].ops.len(), 0);
    let ops = text_ops(&pages[1]);
    assert_eq!(ops, vec![(b"after".to_vec(), 40, 1148, false)]);
}

#[test]
fn convert_empty_text_draws_nothing() {
    let content = vec![doc_text(b""), doc_text(b"next")];
    let pages = convert_paragraphs_to_pdf(&content).unwrap();
    assert_eq!(pages.len(), 1);
    let ops = text_ops(&pages[0]);
    // The empty block applies no spacing at all: the next paragraph still
    // starts at the page top.
    assert_eq!(ops, vec![(b"next".to_vec(), 40, 1148, false)]);
}

#[test]
fn convert_whitespace_paragraph_only_spaces_down() {
    let content = vec![doc_text(b" "), doc_text(b"next")];
    let pages = convert_paragraphs_to_pdf(&content).unwrap();
    let ops = text_ops(&pages[0]);
    // One blank-line gap plus the trailing paragraph spacing: 64 units down.
    assert_eq!(ops, vec![(b"next".to_vec(), 40, 1084, false)]);
}

#[test]
fn cursor_non_increasing_within_page() {
    let w = "a".repeat(30);
    let para = format!("{w} {w} {w} {w} {w}");
    let content = vec![
        doc_text(para.as_bytes()),
        doc_text(b"TABLE_START\n|a|b|\n|c|d|\nTABLE_END\n"),
        doc_text(b"tail"),
    ];
    let pages = convert_paragraphs_to_pdf(&content).unwrap();
    assert_eq!(pages.len(), 1);
    let ops = text_ops(&pages[0]);
    for pair in ops.windows(2) {
        assert!(pair[0].2 >= pair[1].2);
    }
}

fn op_kind(op: &DrawOp) -> &'static str {
    match op {
        DrawOp::Text { .. } => "text",
        DrawOp::Line { .. } => "line",
        DrawOp::Image { .. } => "image",
    }
}
