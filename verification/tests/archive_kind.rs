use manager_core::archive::kind_for;
use manager_core::archive::zip::{days_from_civil, dos_parts_to_nanos, to_system_time};

#[test]
fn zip_files_are_recognised() {
    assert_eq!(kind_for("photos.zip"), Some("zip"));
}

#[test]
fn the_extension_is_not_case_sensitive() {
    assert_eq!(kind_for("PHOTOS.ZIP"), Some("zip"));
    assert_eq!(kind_for("Photos.Zip"), Some("zip"));
}

#[test]
fn formats_that_are_really_zips_are_recognised_too() {
    for name in ["app.jar", "app.apk", "book.epub", "add-on.xpi", "doc.odt"] {
        assert_eq!(kind_for(name), Some("zip"), "{name}");
    }
}

#[test]
fn ordinary_files_are_left_alone() {
    for name in ["notes.txt", "image.jpg", "no-extension", "zip"] {
        assert_eq!(kind_for(name), None, "{name}");
    }
}

#[test]
fn a_leading_dot_is_not_an_extension() {
    assert_eq!(kind_for(".zip"), None);
    assert_eq!(kind_for("trailing."), None);
}

#[test]
fn the_tar_family_is_recognised() {
    for name in ["backup.tar", "backup.tar.gz", "backup.tgz", "BACKUP.TAR.GZ"] {
        assert_eq!(kind_for(name), Some("tar"), "{name}");
    }
}

#[test]
fn a_double_extension_is_not_mistaken_for_its_last_half() {
    assert_eq!(kind_for("notes.gz"), None);
}

#[test]
fn formats_we_cannot_read_yet_are_not_offered() {
    for name in ["stuff.7z", "stuff.rar", "disk.iso", "backup.tar.bz2"] {
        assert_eq!(kind_for(name), None, "{name}");
    }
}

#[test]
fn ms_dos_dates_convert_to_the_right_instant() {
    let cases = [
        (1980, 1, 1, 0, 0, 0, 315_532_800i128),
        (2000, 1, 1, 0, 0, 0, 946_684_800),
        (2024, 2, 29, 12, 0, 0, 1_709_208_000),
        (2024, 3, 17, 14, 30, 10, 1_710_685_810),
        (2099, 12, 31, 23, 59, 58, 4_102_444_798),
    ];
    for (y, m, d, h, min, s, expected) in cases {
        let stamp = zip::DateTime::from_date_and_time(y, m, d, h, min, s).unwrap();
        assert_eq!(
            to_system_time(stamp),
            Some(expected * 1_000_000_000),
            "{y}-{m:02}-{d:02} {h:02}:{min:02}:{s:02}"
        );
    }
}

// ---- More cases ----

#[test]
fn only_a_name_ending_in_tar_needs_something_before_it() {
    assert_eq!(kind_for(".tar"), None);
    assert_eq!(kind_for("a.tar"), Some("tar"));
    assert_eq!(kind_for("x.tar.gz"), Some("tar"));
    assert_eq!(kind_for(".tar.gz"), None, "nothing before the suffix, and gz is no archive");
}

#[test]
fn days_count_from_the_epoch_either_way() {
    assert_eq!(days_from_civil(1970, 1, 1), 0);
    assert_eq!(days_from_civil(1970, 1, 2), 1);
    assert_eq!(days_from_civil(1969, 12, 31), -1);
    assert_eq!(days_from_civil(2000, 3, 1), 11_017);
    assert_eq!(days_from_civil(1600, 1, 1), -135_140);
}

#[test]
fn dos_parts_become_nanoseconds() {
    assert_eq!(dos_parts_to_nanos(1980, 1, 1, 0, 0, 2), 315_532_802 * 1_000_000_000);
}

#[test]
fn the_day_count_takes_any_date_that_fits_in_64_bits() {
    assert_eq!(days_from_civil(0, 1, 1), -719_528);
    assert_eq!(days_from_civil(-1_000_000_000, 1, 1), -365_243_219_528);
    assert_eq!(days_from_civil(5_000_000_000_000, 7, 4), 1_826_212_499_280_657);
    assert_eq!(days_from_civil(2024, 14, 40), 20_159, "months and days past their end run on");
    assert_eq!(days_from_civil(2024, -20, 3), 19_083);
}
