use chrono::Datelike;

use spotlight_save::archive::{archive_images, ArchiveStep, TargetEntry};
use spotlight_save::dates::{archive_cutoff, date_before, today, year_string, Date};

fn file(name: &str, date: Option<Date>) -> TargetEntry {
    TargetEntry { name: String::from(name), is_file: true, date }
}

fn days_ago(n: u64) -> Date {
    let d = chrono::Local::now().date_naive() - chrono::Days::new(n);
    Date { year: d.year(), month: d.month() as u8, day: d.day() as u8 }
}

#[test]
fn today_is_a_valid_date() {
    let d = today();
    assert!((1..=12).contains(&d.month));
    assert!((1..=31).contains(&d.day));
    let now = chrono::Local::now().date_naive();
    assert_eq!(d.year, now.year());
}

#[test]
fn cutoff_is_365_days_before_today() {
    let t = Date { year: 2024, month: 10, day: 12 };
    let c = archive_cutoff(&t).unwrap();
    assert_eq!(c, Date { year: 2023, month: 10, day: 13 });
}

#[test]
fn cutoff_crosses_leap_day() {
    let t = Date { year: 2024, month: 3, day: 1 };
    let c = archive_cutoff(&t).unwrap();
    // 2024 is a leap year: 365 days before 2024-03-01 is 2023-03-02
    assert_eq!(c, Date { year: 2023, month: 3, day: 2 });
}

#[test]
fn date_order() {
    let a = Date { year: 2023, month: 9, day: 8 };
    let b = Date { year: 2023, month: 9, day: 9 };
    let c = Date { year: 2024, month: 1, day: 1 };
    assert!(date_before(&a, &b));
    assert!(date_before(&b, &c));
    assert!(!date_before(&b, &a));
    assert!(!date_before(&a, &a));
}

#[test]
fn archive_scenario() {
    let old_date = days_ago(400);
    let entries = vec![
        file("old.jpg", Some(old_date)),
        file("new.jpg", Some(days_ago(10))),
    ];
    let cutoff = archive_cutoff(&today()).unwrap();
    let steps = archive_images(&entries, &cutoff);
    let year = year_string(old_date.year);
    assert_eq!(
        steps,
        vec![
            ArchiveStep::EnsureDir { year: year.clone() },
            ArchiveStep::CopyToYear { name: String::from("old.jpg"), year },
            ArchiveStep::RemoveOriginal { name: String::from("old.jpg") },
        ]
    );
}

#[test]
fn file_at_cutoff_not_touched() {
    let cutoff = Date { year: 2023, month: 10, day: 13 };
    let entries = vec![
        file("same.jpg", Some(cutoff)),
        file("later.jpg", Some(Date { year: 2023, month: 10, day: 14 })),
    ];
    let steps = archive_images(&entries, &cutoff);
    assert!(steps.is_empty());
}

#[test]
fn file_just_before_cutoff_archived() {
    let cutoff = Date { year: 2023, month: 10, day: 13 };
    let entries = vec![file("old.jpg", Some(Date { year: 2023, month: 10, day: 12 }))];
    let steps = archive_images(&entries, &cutoff);
    assert_eq!(steps.len(), 3);
    assert_eq!(
        steps[0],
        ArchiveStep::EnsureDir { year: String::from("2023") }
    );
}

#[test]
fn directories_and_undated_files_not_touched() {
    let cutoff = Date { year: 2023, month: 10, day: 13 };
    let entries = vec![
        TargetEntry {
            name: String::from("2020"),
            is_file: false,
            date: Some(Date { year: 2020, month: 1, day: 1 }),
        },
        file("nodate.jpg", None),
    ];
    let steps = archive_images(&entries, &cutoff);
    assert!(steps.is_empty());
}

#[test]
fn year_directory_names() {
    assert_eq!(year_string(2023).as_str(), "2023");
    assert_eq!(year_string(987).as_str(), "0987");
    assert_eq!(year_string(0).as_str(), "0000");
    assert_eq!(year_string(-50).as_str(), "-0050");
    assert_eq!(year_string(10500).as_str(), "+10500");
    assert_eq!(year_string(262142).as_str(), "+262142");
    assert_eq!(year_string(-262143).as_str(), "-262143");
}

#[test]
fn year_names_match_date_formatting() {
    // the year directory is named exactly as the original date formatting
    // names it
    for y in [2023, 987, 1, 9999] {
        let d = chrono::NaiveDate::from_ymd_opt(y, 6, 15).unwrap();
        assert_eq!(year_string(y), d.format("%Y").to_string());
    }
}
