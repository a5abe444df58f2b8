use typeshare_annotator::annotator::{
    add_typeshare_annotations, join_lines, split_lines, transform_lines,
};

#[test]
fn split_handles_both_terminators() {
    let lines = split_lines("a\r\nb\nc".as_bytes());
    assert_eq!(lines, vec![b"a".to_vec(), b"b".to_vec(), b"c".to_vec()]);
}

#[test]
fn split_drops_the_final_empty_record() {
    assert_eq!(split_lines("a\n".as_bytes()), vec![b"a".to_vec()]);
    assert_eq!(split_lines("".as_bytes()), Vec::<Vec<u8>>::new());
}

#[test]
fn split_keeps_a_lone_carriage_return() {
    assert_eq!(split_lines("a\r".as_bytes()), vec![b"a\r".to_vec()]);
}

#[test]
fn join_appends_a_line_feed_to_each_line() {
    let joined = join_lines(&vec![b"x".to_vec(), b"".to_vec()]);
    assert_eq!(joined, b"x\n\n".to_vec());
}

#[test]
fn transform_lines_matches_the_whole_text_transform() {
    let input = "pub enum Visibility {\n}\n";
    let via_lines = join_lines(&transform_lines(&split_lines(input.as_bytes())));
    assert_eq!(via_lines, add_typeshare_annotations(input.as_bytes()));
}

#[test]
fn transform_lines_keeps_input_lines_in_order() {
    let lines = vec![b"fn a() {}".to_vec(), b"fn b() {}".to_vec()];
    let out = transform_lines(&lines);
    assert_eq!(
        out,
        vec![
            b"use typeshare::typeshare;".to_vec(),
            b"fn a() {}".to_vec(),
            b"fn b() {}".to_vec(),
        ]
    );
}
