use toak_rs::ocr::{
    build_output, check_path, deserialize_regions, read_u32, AppleOcrEngine, BoundingBox, OcrError,
    OcrInput, TextRegion, Truncated,
};

fn region(text: &str) -> TextRegion {
    TextRegion { text: text.to_string(), bounding_box: None, confidence: None }
}

fn number(value: u32) -> [u8; 4] {
    value.to_le_bytes()
}

fn float_bytes(value: f32) -> [u8; 4] {
    value.to_bits().to_le_bytes()
}

fn engine_error(result: Result<Vec<TextRegion>, OcrError>) -> String {
    match result {
        Err(OcrError::EngineError(detail)) => detail,
        _ => panic!("an engine error was expected"),
    }
}

#[test]
fn engine_is_made_either_way() {
    let _made = AppleOcrEngine::new();
    let _default = AppleOcrEngine::default();
    let _path = OcrInput::FilePath("scan.pdf".to_string());
    let _bytes = OcrInput::Bytes(vec![1, 2, 3]);
}

#[test]
fn errors_read_in_words() {
    assert_eq!(OcrError::Unsupported.message(), "unsupported operation");
    assert_eq!(OcrError::InvalidInput("non-utf8 path".to_string()).message(), "invalid input: non-utf8 path");
    assert_eq!(OcrError::EngineError("truncated data".to_string()).message(), "engine error: truncated data");
    assert_eq!(Truncated::Text.to_error().message(), "engine error: truncated text");
    assert_eq!(Truncated::BoxFlag.to_error().message(), "engine error: truncated bbox flag");
}

#[test]
fn output_joins_the_texts_of_the_regions() {
    let output = build_output(vec![region("first"), region(""), region("third line")]);
    assert_eq!(output.text, "first\n\nthird line");
    assert_eq!(output.regions.len(), 3);
    assert_eq!(output.regions[2].text, "third line");
    assert_eq!(build_output(vec![region("only")]).text, "only");
    assert_eq!(build_output(Vec::new()).text, "");
}

#[test]
fn numbers_are_read_lowest_byte_first() {
    assert_eq!(read_u32(&[0x78, 0x56, 0x34, 0x12], 0), Some(0x1234_5678));
    assert_eq!(read_u32(&[0, 0xff, 0xff, 0xff, 0xff], 1), Some(u32::MAX));
    assert_eq!(read_u32(&[1, 0, 0], 0), None);
    assert_eq!(read_u32(&[1, 0, 0, 0], 1), None);
    assert_eq!(read_u32(&[1, 0, 0, 0], 9), None);
}

#[test]
fn regions_are_read_from_bytes() {
    let mut data = Vec::new();
    data.extend(number(2));
    data.extend(number(5));
    data.extend(b"hello");
    data.extend(float_bytes(0.75));
    data.push(1);
    data.extend(float_bytes(1.0));
    data.extend(float_bytes(2.0));
    data.extend(float_bytes(30.5));
    data.extend(float_bytes(4.25));
    data.extend(number(2));
    data.extend("h\u{e9}".as_bytes()[..2].iter());
    data.extend(float_bytes(0.5));
    data.push(0);
    let regions = deserialize_regions(&data).ok().unwrap();
    assert_eq!(regions.len(), 2);
    assert_eq!(regions[0].text, "hello");
    assert_eq!(regions[0].confidence.map(f32::from_bits), Some(0.75));
    assert_eq!(
        regions[0].bounding_box,
        Some(BoundingBox {
            x: 1.0f32.to_bits(),
            y: 2.0f32.to_bits(),
            width: 30.5f32.to_bits(),
            height: 4.25f32.to_bits(),
        })
    );
    // the second text breaks off inside a character: what is missing is replaced
    assert_eq!(regions[1].text, "h\u{fffd}");
    assert_eq!(regions[1].confidence.map(f32::from_bits), Some(0.5));
    assert_eq!(regions[1].bounding_box, None);
}

#[test]
fn no_regions_is_an_empty_list() {
    assert!(deserialize_regions(&number(0)).ok().unwrap().is_empty());
    // what follows the last region is not read
    let mut data = number(0).to_vec();
    data.extend(b"rest");
    assert!(deserialize_regions(&data).ok().unwrap().is_empty());
}

#[test]
fn bytes_that_break_off_are_an_engine_error() {
    assert_eq!(engine_error(deserialize_regions(&[])), "truncated data");
    assert_eq!(engine_error(deserialize_regions(&[1, 0, 0])), "truncated data");
    assert_eq!(engine_error(deserialize_regions(&number(1))), "truncated data");

    let mut data = number(1).to_vec();
    data.extend(number(5));
    data.extend(b"hel");
    assert_eq!(engine_error(deserialize_regions(&data)), "truncated text");

    let mut data = number(1).to_vec();
    data.extend(number(2));
    data.extend(b"hi");
    data.extend([0, 0]);
    assert_eq!(engine_error(deserialize_regions(&data)), "truncated data");

    let mut data = number(1).to_vec();
    data.extend(number(2));
    data.extend(b"hi");
    data.extend(float_bytes(1.0));
    assert_eq!(engine_error(deserialize_regions(&data)), "truncated bbox flag");

    data.push(7);
    data.extend(float_bytes(1.0));
    data.extend(float_bytes(1.0));
    data.extend(float_bytes(1.0));
    data.extend([0, 0, 0]);
    assert_eq!(engine_error(deserialize_regions(&data)), "truncated data");

    let mut data = number(2).to_vec();
    data.extend(number(0));
    data.extend(float_bytes(1.0));
    data.push(0);
    assert_eq!(engine_error(deserialize_regions(&data)), "truncated data");
}

#[test]
fn huge_text_length_is_a_truncated_text() {
    let mut data = number(1).to_vec();
    data.extend(number(u32::MAX));
    data.extend(b"x");
    assert_eq!(engine_error(deserialize_regions(&data)), "truncated text");
}

#[test]
fn path_with_a_nul_is_invalid_input() {
    assert!(check_path("scans/page 1.png").is_ok());
    assert!(check_path("").is_ok());
    match check_path("scans/pa\0ge.png") {
        Err(OcrError::InvalidInput(detail)) => assert_eq!(detail, "null byte in path"),
        _ => panic!("the path must be refused"),
    }
}
