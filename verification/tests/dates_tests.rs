use commit_viz::dates::{day_of_week, days_from_epoch, month_name, parse_date};
use commit_viz::overlay::{short_repo_name, text_after_last};
use commit_viz::palette::{report_category_color, Rgba};

#[test]
fn a_day_is_read_part_by_part() {
    assert_eq!(parse_date("2024-03-15"), (2024, 3, 15));
    assert_eq!(parse_date("2024-03-15-and-more"), (2024, 3, 15));
    assert_eq!(parse_date("0001-1-1"), (1, 1, 1));
    assert_eq!(parse_date("+2024-+3-+4"), (2024, 3, 4));
    assert_eq!(parse_date("2147483647-4294967295-0"), (2147483647, 4294967295, 0));
}

#[test]
fn a_part_that_is_no_number_stands_as_its_sentinel() {
    assert_eq!(parse_date("x-y-z"), (2020, 1, 1));
    assert_eq!(parse_date("2024-xx-07"), (2024, 1, 7));
    assert_eq!(parse_date("2024-07-"), (2024, 7, 1));
    assert_eq!(parse_date("-5-03-02"), (2020, 5, 3));
    assert_eq!(parse_date("2147483648-4294967296-1"), (2020, 1, 1));
    assert_eq!(parse_date("99999999999999999999999-1-1"), (2020, 1, 1));
    assert_eq!(parse_date("2024-+-1"), (2024, 1, 1));
    assert_eq!(parse_date("2024- 3-1"), (2024, 1, 1));
    assert_eq!(parse_date("20\u{e9}4-03-15"), (2020, 3, 15));
}

#[test]
fn a_text_of_fewer_parts_is_the_first_day_of_2020() {
    assert_eq!(parse_date(""), (2020, 1, 1));
    assert_eq!(parse_date("2024"), (2020, 1, 1));
    assert_eq!(parse_date("2024-03"), (2020, 1, 1));
    assert_eq!(parse_date("2024/03/15"), (2020, 1, 1));
}

#[test]
fn months_have_short_names() {
    let names: Vec<&str> = (0..14).map(month_name).collect();
    assert_eq!(
        names,
        vec![
            "?", "Jan", "Feb", "Mar", "Apr", "May", "Jun", "Jul", "Aug", "Sep", "Oct", "Nov",
            "Dec", "?"
        ]
    );
}

#[test]
fn a_repository_is_shown_without_its_host() {
    assert_eq!(short_repo_name("https://github.com/owner/repo"), "owner/repo");
    assert_eq!(short_repo_name("git@github.com:owner/repo"), "git@github.com:owner/repo");
    assert_eq!(short_repo_name("owner/repo"), "owner/repo");
    assert_eq!(short_repo_name("github.com"), "github.com");
    assert_eq!(short_repo_name("github.com/"), "");
    assert_eq!(short_repo_name("https://github.com/a/github.com/b"), "b");
    assert_eq!(short_repo_name(""), "");
    assert_eq!(short_repo_name("https://github.com/\u{e9}t\u{e9}"), "\u{e9}t\u{e9}");
}

#[test]
fn the_text_after_the_last_pattern() {
    assert_eq!(text_after_last("a--b--c", "--"), "c");
    assert_eq!(text_after_last("aaa", "aa"), "");
    assert_eq!(text_after_last("abc", ""), "");
    assert_eq!(text_after_last("abc", "abcd"), "abc");
    assert_eq!(text_after_last("abc", "x"), "abc");
}

#[test]
fn weekdays_count_from_monday() {
    assert_eq!(day_of_week(2023, 11, 14), 1);
    assert_eq!(day_of_week(2024, 2, 29), 3);
    assert_eq!(day_of_week(2024, 1, 1), 0);
    assert_eq!(day_of_week(2000, 12, 31), 6);
    assert_eq!(day_of_week(1970, 1, 1), 3);
    assert_eq!(day_of_week(0, 1, 1), 6);
    let mut last = day_of_week(2024, 3, 1);
    for d in 2..=31u32 {
        let w = day_of_week(2024, 3, d);
        assert_eq!(w, (last + 1) % 7);
        last = w;
    }
    assert_eq!(days_from_epoch(2024, 3, 2) - days_from_epoch(2024, 3, 1), 1);
    assert_eq!(days_from_epoch(2024, 3, 1), 365 * 2024 + 506 - 20 + 5 + 0 + 1 - 1);
    assert_eq!(days_from_epoch(2023, 1, 1), 365 * 2023 + 505 - 20 + 5 + 306 + 1 - 1);
    assert_eq!(days_from_epoch(-5, 1, 1), 365 * -5 - 1 + 306);
}

#[test]
fn the_report_has_its_own_colours() {
    assert_eq!(report_category_color("feature"), Rgba { r: 66, g: 133, b: 244, a: 255 });
    assert_eq!(report_category_color("bugfix"), Rgba { r: 234, g: 67, b: 53, a: 255 });
    assert_eq!(report_category_color("release"), Rgba { r: 255, g: 215, b: 0, a: 255 });
    assert_eq!(report_category_color("refactor"), Rgba { r: 171, g: 71, b: 188, a: 255 });
    assert_eq!(report_category_color("docs"), Rgba { r: 124, g: 179, b: 66, a: 255 });
    assert_eq!(report_category_color("ci"), Rgba { r: 0, g: 172, b: 193, a: 255 });
    assert_eq!(report_category_color("test"), Rgba { r: 255, g: 152, b: 0, a: 255 });
    assert_eq!(report_category_color("merge"), Rgba { r: 158, g: 158, b: 158, a: 255 });
}
