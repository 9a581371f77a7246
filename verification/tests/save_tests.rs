use std::io::Cursor;

use spotlight_save::save::{save_image, save_images, SourceEntry};

fn jpeg_bytes(w: u32, h: u32) -> Vec<u8> {
    let img = image::DynamicImage::ImageRgb8(image::RgbImage::new(w, h));
    let mut buf: Cursor<Vec<u8>> = Cursor::new(Vec::new());
    img.write_to(&mut buf, image::ImageFormat::Jpeg).unwrap();
    buf.into_inner()
}

fn png_bytes(w: u32, h: u32) -> Vec<u8> {
    let img = image::DynamicImage::ImageRgb8(image::RgbImage::new(w, h));
    let mut buf: Cursor<Vec<u8>> = Cursor::new(Vec::new());
    img.write_to(&mut buf, image::ImageFormat::Png).unwrap();
    buf.into_inner()
}

fn entry(name: &str, data: Vec<u8>) -> SourceEntry {
    SourceEntry { name: String::from(name), is_file: true, data }
}

#[test]
fn landscape_jpeg_gets_jpg_name() {
    let e = entry("a", jpeg_bytes(1920, 1080));
    let dest = save_image(&e);
    assert_eq!(dest.unwrap().as_str(), "a.jpg");
}

#[test]
fn png_gets_png_name() {
    let e = entry("p", png_bytes(1024, 768));
    let dest = save_image(&e);
    assert_eq!(dest.unwrap().as_str(), "p.png");
}

#[test]
fn small_image_rejected() {
    let e = entry("b", jpeg_bytes(400, 300));
    assert_eq!(save_image(&e), None);
}

#[test]
fn portrait_rejected() {
    let e = entry("tall", jpeg_bytes(600, 800));
    assert_eq!(save_image(&e), None);
}

#[test]
fn boundary_dimensions() {
    assert_eq!(
        save_image(&entry("x", jpeg_bytes(800, 600))).unwrap().as_str(),
        "x.jpg"
    );
    assert_eq!(save_image(&entry("x", jpeg_bytes(799, 600))), None);
    assert_eq!(save_image(&entry("x", jpeg_bytes(800, 599))), None);
    // 800 wide but taller than wide is still rejected
    assert_eq!(save_image(&entry("x", jpeg_bytes(800, 801))), None);
}

#[test]
fn corrupt_bytes_rejected() {
    let e = entry("c", vec![0u8, 1, 2, 3, 4]);
    assert_eq!(save_image(&e), None);
}

#[test]
fn jpeg_magic_with_truncated_body_rejected() {
    // format detection succeeds on the magic bytes, the decode then fails
    let e = entry("t", vec![0xff, 0xd8, 0xff, 0x00]);
    assert_eq!(save_image(&e), None);
}

#[test]
fn non_file_entry_rejected() {
    let e = SourceEntry {
        name: String::from("subdir"),
        is_file: false,
        data: jpeg_bytes(1920, 1080),
    };
    assert_eq!(save_image(&e), None);
}

#[test]
fn save_stage_scenario() {
    // a qualifies, b fails the filter, c fails to decode
    let entries = vec![
        entry("a", jpeg_bytes(1920, 1080)),
        entry("b", jpeg_bytes(400, 300)),
        entry("c", vec![1u8, 2, 3]),
    ];
    let plan = save_images(&entries, &Vec::new());
    assert_eq!(plan.len(), 1);
    assert_eq!(plan[0].src_index, 0);
    assert_eq!(plan[0].dest_name.as_str(), "a.jpg");
}

#[test]
fn existing_name_skipped() {
    let entries = vec![entry("a", jpeg_bytes(1920, 1080))];
    let existing = vec![String::from("a.jpg")];
    let plan = save_images(&entries, &existing);
    assert_eq!(plan.len(), 0);
}

#[test]
fn duplicate_destination_saved_once() {
    // two entries mapping to the same destination name: only the first,
    // in directory order, is copied
    let entries = vec![
        entry("a", jpeg_bytes(1920, 1080)),
        entry("a", jpeg_bytes(800, 600)),
    ];
    let plan = save_images(&entries, &Vec::new());
    assert_eq!(plan.len(), 1);
    assert_eq!(plan[0].src_index, 0);
}

#[test]
fn second_run_plans_nothing() {
    let entries = vec![
        entry("a", jpeg_bytes(1920, 1080)),
        entry("b", png_bytes(1024, 768)),
        entry("c", vec![9u8, 9, 9]),
    ];
    let mut existing: Vec<String> = vec![String::from("unrelated.txt")];
    let first = save_images(&entries, &existing);
    assert_eq!(first.len(), 2);
    for a in &first {
        existing.push(a.dest_name.clone());
    }
    let second = save_images(&entries, &existing);
    assert_eq!(second.len(), 0);
}
