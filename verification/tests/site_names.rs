use quarterpastmarch::assignment::ShortcutAssignment;
use quarterpastmarch::calendar::CalendarDate;
use quarterpastmarch::plan::plan_site;
use quarterpastmarch::assignment::default_offsets;
use quarterpastmarch::resolver::ClosestMapping;
use quarterpastmarch::site::{
    label_slug, page_dir_name, page_path, page_url, plan_page, plan_pages, sitemap_text,
    sitemap_urls, without_spaces,
};

const HOST: &str = "quarterpastmarch.houseofmoran.io";

fn date(year: i32, month: u32, day: u32) -> CalendarDate {
    CalendarDate::new(year, month, day).unwrap()
}

fn mapping(day: CalendarDate, on: CalendarDate, label: &str) -> ClosestMapping {
    ClosestMapping { query_date: day, assignment: ShortcutAssignment::new(on, label) }
}

#[test]
fn without_spaces_drops_every_space() {
    assert_eq!(without_spaces("quarter past march"), "quarterpastmarch");
    assert_eq!(without_spaces("  a  b "), "ab");
    assert_eq!(without_spaces(""), "");
    assert_eq!(without_spaces("   "), "");
    assert_eq!(without_spaces("tab\tstays"), "tab\tstays");
    assert_eq!(without_spaces("é t é"), "été");
}

#[test]
fn label_slug_is_lower_case_without_spaces() {
    assert_eq!(label_slug("quarter past March"), "quarterpastmarch");
    assert_eq!(label_slug("half past January"), "halfpastjanuary");
    assert_eq!(label_slug("Half Past DECEMBER"), "halfpastdecember");
    assert_eq!(label_slug("ÉTÉ À Nice"), "étéànice");
    assert_eq!(label_slug(""), "");
}

#[test]
fn page_url_ends_with_the_date_and_a_slash() {
    assert_eq!(
        page_url(HOST, &date(2020, 4, 23)),
        "https://quarterpastmarch.houseofmoran.io/2020-04-23/"
    );
    assert_eq!(page_url("example.org", &date(2029, 12, 31)), "https://example.org/2029-12-31/");
}

#[test]
fn page_dir_and_path_lie_under_the_output_root() {
    assert_eq!(page_dir_name("public", &date(2020, 4, 23)), "public/2020-04-23");
    assert_eq!(page_path("public", &date(2020, 4, 23)), "public/2020-04-23/index.html");
    assert_eq!(page_path("/var/www/out", &date(2021, 1, 2)), "/var/www/out/2021-01-02/index.html");
}

#[test]
fn plan_page_names_everything_of_one_day() {
    let resolved = mapping(date(2020, 1, 1), date(2020, 4, 23), "quarter past January");
    let page = plan_page(HOST, "public", &resolved);
    assert_eq!(page.date, "2020-01-01");
    assert_eq!(page.closest, "quarter past January");
    assert_eq!(page.slug, "quarterpastjanuary");
    assert_eq!(page.dir_name, "public/2020-01-01");
    assert_eq!(page.path, "public/2020-01-01/index.html");
    assert_eq!(page.url, "https://quarterpastmarch.houseofmoran.io/2020-01-01/");
}

#[test]
fn plan_pages_keeps_the_order_of_the_days() {
    let mappings = vec![
        mapping(date(2020, 3, 2), date(2020, 4, 23), "quarter past January"),
        mapping(date(2020, 3, 1), date(2020, 4, 23), "quarter past January"),
        mapping(date(2020, 7, 17), date(2020, 7, 23), "quarter past May"),
    ];
    let pages = plan_pages(HOST, "public", &mappings);
    let dates: Vec<&str> = pages.iter().map(|p| p.date.as_str()).collect();
    assert_eq!(dates, vec!["2020-03-02", "2020-03-01", "2020-07-17"]);
    assert_eq!(pages[2].slug, "quarterpastmay");
    assert_eq!(plan_pages(HOST, "public", &Vec::new()).len(), 0);
}

#[test]
fn sitemap_urls_follow_the_pages() {
    let mappings = vec![
        mapping(date(2020, 3, 2), date(2020, 4, 23), "quarter past January"),
        mapping(date(2020, 3, 1), date(2020, 4, 23), "quarter past January"),
    ];
    let urls = sitemap_urls(&plan_pages(HOST, "public", &mappings));
    assert_eq!(
        urls,
        vec![
            "https://quarterpastmarch.houseofmoran.io/2020-03-02/",
            "https://quarterpastmarch.houseofmoran.io/2020-03-01/"
        ]
    );
}

#[test]
fn sitemap_text_is_one_address_per_line() {
    let urls = vec!["https://a/2020-01-01/".to_string(), "https://a/2020-01-02/".to_string()];
    assert_eq!(sitemap_text(&urls), "https://a/2020-01-01/\nhttps://a/2020-01-02/\n");
    assert_eq!(sitemap_text(&vec!["x".to_string()]), "x\n");
    assert_eq!(sitemap_text(&Vec::new()), "");
}

#[test]
fn the_manifest_of_a_year_lists_its_days_in_order() {
    let plan = plan_site(2020, 1, &default_offsets()).unwrap();
    let pages = plan_pages(HOST, "public", &plan.mappings);
    let text = sitemap_text(&sitemap_urls(&pages));
    let lines: Vec<&str> = text.lines().collect();
    assert_eq!(lines.len(), 366);
    assert!(text.ends_with("/2020-12-31/\n"));
    assert_eq!(lines[0], "https://quarterpastmarch.houseofmoran.io/2020-01-01/");
    assert_eq!(lines[59], "https://quarterpastmarch.houseofmoran.io/2020-02-29/");
    assert_eq!(lines[365], "https://quarterpastmarch.houseofmoran.io/2020-12-31/");
    let again = sitemap_text(&sitemap_urls(&plan_pages(
        HOST,
        "public",
        &plan_site(2020, 1, &default_offsets()).unwrap().mappings,
    )));
    assert_eq!(text, again);
}

#[test]
fn every_page_is_stored_on_its_own() {
    let plan = plan_site(2019, 3, &default_offsets()).unwrap();
    let pages = plan_pages(HOST, "public", &plan.mappings);
    let paths: std::collections::HashSet<&str> = pages.iter().map(|p| p.path.as_str()).collect();
    let dirs: std::collections::HashSet<&str> =
        pages.iter().map(|p| p.dir_name.as_str()).collect();
    let urls: std::collections::HashSet<&str> = pages.iter().map(|p| p.url.as_str()).collect();
    assert_eq!(pages.len(), 365 + 366 + 365);
    assert_eq!(paths.len(), pages.len());
    assert_eq!(dirs.len(), pages.len());
    assert_eq!(urls.len(), pages.len());
}
