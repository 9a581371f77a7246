use std::io::Cursor;

use chrono::Datelike;

use spotlight_save::archive::{ArchiveStep, TargetEntry};
use spotlight_save::dates::{archive_cutoff, today, Date};
use spotlight_save::discover::{get_spotlight_dir, DirEntry};
use spotlight_save::run;
use spotlight_save::save::SourceEntry;
use spotlight_save::Config;

fn jpeg_bytes(w: u32, h: u32) -> Vec<u8> {
    let img = image::DynamicImage::ImageRgb8(image::RgbImage::new(w, h));
    let mut buf: Cursor<Vec<u8>> = Cursor::new(Vec::new());
    img.write_to(&mut buf, image::ImageFormat::Jpeg).unwrap();
    buf.into_inner()
}

fn days_ago(n: u64) -> Date {
    let d = chrono::Local::now().date_naive() - chrono::Days::new(n);
    Date { year: d.year(), month: d.month() as u8, day: d.day() as u8 }
}

#[test]
fn config_holds_its_fields() {
    let c = Config::new(String::from("/tmp/pics"), true, false);
    assert_eq!(c.target.as_str(), "/tmp/pics");
    assert!(c.verbose);
    assert!(!c.archive);
}

#[test]
fn config_description() {
    let c = Config::new(String::from("T"), true, false);
    assert_eq!(
        c.describe().as_str(),
        "[target = T, verbose = true, archive = false]"
    );
}

#[test]
fn run_without_archive() {
    let config = Config::new(String::from("T"), false, false);
    let source = vec![SourceEntry {
        name: String::from("a"),
        is_file: true,
        data: jpeg_bytes(1920, 1080),
    }];
    let target: Vec<TargetEntry> = Vec::new();
    let cutoff = archive_cutoff(&today()).unwrap();
    let plan = run(&config, &source, &target, &cutoff);
    assert_eq!(plan.copies.len(), 1);
    assert_eq!(plan.saved_count, 1);
    assert_eq!(plan.copies[0].dest_name.as_str(), "a.jpg");
    assert!(plan.archive.is_none());
}

#[test]
fn run_with_archive() {
    let config = Config::new(String::from("T"), false, true);
    let source = vec![
        SourceEntry { name: String::from("a"), is_file: true, data: jpeg_bytes(1920, 1080) },
        SourceEntry { name: String::from("b"), is_file: true, data: jpeg_bytes(400, 300) },
        SourceEntry { name: String::from("c"), is_file: true, data: vec![0u8, 1, 2] },
    ];
    let old_date = days_ago(400);
    let target = vec![
        TargetEntry { name: String::from("old.jpg"), is_file: true, date: Some(old_date) },
        TargetEntry { name: String::from("new.jpg"), is_file: true, date: Some(days_ago(10)) },
        // a.jpg already exists in the target: the copy is skipped
        TargetEntry { name: String::from("a.jpg"), is_file: true, date: Some(days_ago(10)) },
    ];
    let cutoff = archive_cutoff(&today()).unwrap();
    let plan = run(&config, &source, &target, &cutoff);
    assert_eq!(plan.saved_count, 0);
    let steps = plan.archive.unwrap();
    assert_eq!(steps.len(), 3);
    match &steps[2] {
        ArchiveStep::RemoveOriginal { name } => assert_eq!(name.as_str(), "old.jpg"),
        other => panic!("unexpected step {:?}", other),
    }
}

#[test]
fn discovery_picks_first_matching_directory() {
    let entries = vec![
        DirEntry {
            // matching name, but a regular file: skipped
            name: String::from("Microsoft.Windows.ContentDeliveryManager_file"),
            is_dir: false,
        },
        DirEntry { name: String::from("Some.Other.Package_abc"), is_dir: true },
        DirEntry {
            name: String::from("Microsoft.Windows.ContentDeliveryManager_cw5n1h2txyewy"),
            is_dir: true,
        },
        DirEntry {
            name: String::from("Microsoft.Windows.ContentDeliveryManager_second"),
            is_dir: true,
        },
    ];
    let home = String::from("C:\\Users\\me");
    let dir = get_spotlight_dir(&home, &entries).unwrap();
    assert_eq!(
        dir.as_str(),
        "C:\\Users\\me\\AppData\\Local\\Packages\\Microsoft.Windows.ContentDeliveryManager_cw5n1h2txyewy\\LocalState\\Assets"
    );
}

#[test]
fn discovery_accepts_bare_prefix_directory() {
    let entries = vec![DirEntry {
        name: String::from("Microsoft.Windows.ContentDeliveryManager_"),
        is_dir: true,
    }];
    let home = String::from("H");
    let dir = get_spotlight_dir(&home, &entries).unwrap();
    assert_eq!(
        dir.as_str(),
        "H\\AppData\\Local\\Packages\\Microsoft.Windows.ContentDeliveryManager_\\LocalState\\Assets"
    );
}

#[test]
fn discovery_fails_without_match() {
    let entries = vec![
        DirEntry { name: String::from("Some.Other.Package_abc"), is_dir: true },
        // prefix must match exactly, case-sensitive
        DirEntry {
            name: String::from("microsoft.windows.contentdeliverymanager_x"),
            is_dir: true,
        },
        // a strict prefix of the vendor prefix does not match
        DirEntry { name: String::from("Microsoft.Windows.ContentDelivery"), is_dir: true },
    ];
    let home = String::from("C:\\Users\\me");
    assert!(get_spotlight_dir(&home, &entries).is_none());
}
