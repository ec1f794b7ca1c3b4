use pageflow::content::{
    image_zip_path, process_body_content, process_paragraph, process_paragraph_content,
    process_table, BodyContent, Paragraph, Run, Table, TableCell, TableRow,
};
use pageflow::engine::DocContent;

fn par(runs: Vec<Run>) -> Paragraph {
    Paragraph { runs }
}

fn text_run(s: &[u8]) -> Run {
    Run::Text(s.to_vec())
}

#[test]
fn paragraph_content_joins_runs_with_spaces() {
    let p = par(vec![text_run(b"a"), Run::LineBreak, text_run(b"b"), Run::Image(vec![1, 2])]);
    let mut out: Vec<u8> = b"x".to_vec();
    process_paragraph_content(&p, &mut out);
    assert_eq!(out, b"xa b".to_vec());
}

#[test]
fn paragraph_emits_images_then_text() {
    let p = par(vec![
        text_run(b"Hello"),
        Run::Image(vec![9, 9]),
        Run::LineBreak,
        text_run(b"World"),
    ]);
    let mut order: Vec<DocContent> = Vec::new();
    process_paragraph(&p, &mut order);
    assert_eq!(order.len(), 2);
    assert!(order[0].text.is_empty());
    assert_eq!(order[0].image.as_ref().unwrap().bytes, vec![9, 9]);
    assert_eq!(order[1].text, b"Hello\nWorld".to_vec());
    assert!(order[1].image.is_none());
}

#[test]
fn paragraph_without_text_emits_no_text_block() {
    let p = par(vec![Run::Image(vec![7])]);
    let mut order: Vec<DocContent> = Vec::new();
    process_paragraph(&p, &mut order);
    assert_eq!(order.len(), 1);
    assert!(order[0].text.is_empty());
}

#[test]
fn table_is_encoded_with_markers() {
    let table = Table {
        rows: vec![
            TableRow {
                cells: vec![
                    TableCell { paragraphs: vec![par(vec![text_run(b"a")])] },
                    TableCell {
                        paragraphs: vec![par(vec![text_run(b"b")]), par(vec![text_run(b"c")])],
                    },
                ],
            },
            TableRow { cells: vec![TableCell { paragraphs: vec![] }] },
        ],
    };
    let mut order: Vec<DocContent> = Vec::new();
    process_table(&table, &mut order);
    assert_eq!(order.len(), 1);
    assert_eq!(order[0].text, b"TABLE_START\n|a|bc|\n||\nTABLE_END\n".to_vec());
    assert!(order[0].image.is_none());
}

#[test]
fn body_walks_items_in_order() {
    let items = vec![
        BodyContent::Paragraph(par(vec![text_run(b"p1")])),
        BodyContent::Table(Table {
            rows: vec![TableRow {
                cells: vec![TableCell { paragraphs: vec![par(vec![text_run(b"z")])] }],
            }],
        }),
        BodyContent::Paragraph(par(vec![text_run(b"p2")])),
    ];
    let mut order: Vec<DocContent> = Vec::new();
    process_body_content(&items, &mut order);
    assert_eq!(order.len(), 3);
    assert_eq!(order[0].text, b"p1".to_vec());
    assert_eq!(order[1].text, b"TABLE_START\n|z|\nTABLE_END\n".to_vec());
    assert_eq!(order[2].text, b"p2".to_vec());
}

#[test]
fn zip_path_gets_media_prefix() {
    assert_eq!(image_zip_path(&b"media/image1.png".to_vec()), b"word/media/image1.png".to_vec());
}

#[test]
fn zip_path_keeps_existing_prefix() {
    assert_eq!(image_zip_path(&b"word/media/x.jpg".to_vec()), b"word/media/x.jpg".to_vec());
}
