use declimiter::icon::{apply_mask, icon_size, swap_red_blue};
use declimiter::groups::{build_groups, keep_matching, matches_query, sort_groups, visible_rows, AppGroup, FrozenOrder, SortColumn, VisibleRow};
use declimiter::traffic::ProcessTraffic;
use declimiter::util::text_contains;

fn proc(pid: u32, name: &str, dl: u64, ul: u64) -> ProcessTraffic {
    ProcessTraffic { pid, name: name.to_string(), download_bytes: dl, upload_bytes: ul, download_speed: dl, upload_speed: ul }
}

fn names(groups: &[AppGroup]) -> Vec<String> {
    groups.iter().map(|g| g.name.clone()).collect()
}

fn pids(groups: &[AppGroup]) -> Vec<Vec<u32>> {
    groups.iter().map(|g| g.procs.iter().map(|p| p.pid).collect()).collect()
}

fn sample() -> Vec<AppGroup> {
    build_groups(vec![
        proc(30, "beta", 5, 1),
        proc(10, "Alpha", 1, 9),
        proc(20, "beta", 7, 2),
        proc(40, "gamma", 3, 3),
        proc(5, "beta", 7, 0),
    ])
}

#[test]
fn sort_by_name_ignores_case() {
    let mut g = sample();
    sort_groups(&mut g, SortColumn::Name, true);
    assert_eq!(names(&g), vec!["Alpha", "beta", "gamma"]);
    assert_eq!(pids(&g), vec![vec![10], vec![5, 20, 30], vec![40]]);
    sort_groups(&mut g, SortColumn::Name, false);
    assert_eq!(names(&g), vec!["gamma", "beta", "Alpha"]);
    assert_eq!(pids(&g), vec![vec![40], vec![30, 20, 5], vec![10]]);
}

#[test]
fn sort_by_speed_is_stable() {
    let mut g = sample();
    sort_groups(&mut g, SortColumn::DownloadSpeed, false);
    // beta 19, gamma 3, Alpha 1
    assert_eq!(names(&g), vec!["beta", "gamma", "Alpha"]);
    // Within beta: 7 (pid 20), 7 (pid 5) keep their order, then 5.
    assert_eq!(pids(&g)[0], vec![20, 5, 30]);
    sort_groups(&mut g, SortColumn::UploadSpeed, true);
    assert_eq!(names(&g), vec!["beta", "gamma", "Alpha"]);
    assert_eq!(pids(&g)[0], vec![5, 30, 20]);
}

#[test]
fn sort_by_process_count() {
    let mut g = sample();
    sort_groups(&mut g, SortColumn::Pid, true);
    // Equal counts keep their order: Alpha came before gamma after building.
    assert_eq!(names(&g), vec!["Alpha", "gamma", "beta"]);
    assert_eq!(pids(&g)[2], vec![5, 20, 30]);
}

#[test]
fn frozen_order_holds_lines() {
    let mut g = sample();
    sort_groups(&mut g, SortColumn::Name, true);
    let frozen = FrozenOrder::capture(&g);
    // Applying the order just taken moves nothing.
    frozen.apply(&mut g);
    assert_eq!(names(&g), vec!["Alpha", "beta", "gamma"]);
    assert_eq!(pids(&g), vec![vec![10], vec![5, 20, 30], vec![40]]);
    // New traffic re-sorts the table, a new application and a new process
    // appear: the recorded lines stay, the new ones go to the end.
    let mut next = build_groups(vec![
        proc(20, "beta", 1, 0),
        proc(40, "gamma", 9, 0),
        proc(77, "delta", 8, 0),
        proc(30, "beta", 9, 0),
        proc(66, "beta", 5, 0),
        proc(10, "Alpha", 2, 0),
    ]);
    sort_groups(&mut next, SortColumn::DownloadSpeed, false);
    assert_eq!(names(&next), vec!["beta", "gamma", "delta", "Alpha"]);
    frozen.apply(&mut next);
    assert_eq!(names(&next), vec!["Alpha", "beta", "gamma", "delta"]);
    assert_eq!(pids(&next), vec![vec![10], vec![20, 30, 66], vec![40], vec![77]]);
}

#[test]
fn search_matches_name_pid_or_publisher() {
    assert!(matches_query("Firefox.exe", 1234, "", "fire"));
    assert!(matches_query("Firefox.exe", 1234, "", "FOX"));
    assert!(matches_query("app", 1234, "", "23"));
    assert!(matches_query("app", 1234, "Mozilla Corporation", "mozilla"));
    assert!(!matches_query("app", 1234, "Mozilla", "chrome"));
    assert!(matches_query("app", 1, "", ""));
    assert!(matches_query("ÀBC.exe", 7, "", "àb"));
    assert!(matches_query("àbc.exe", 7, "", "ÀB"));
}

#[test]
fn text_contains_examples() {
    assert!(text_contains("hello world", "o w"));
    assert!(text_contains("abc", ""));
    assert!(text_contains("", ""));
    assert!(!text_contains("", "a"));
    assert!(!text_contains("abc", "abcd"));
    assert!(text_contains("aaab", "aab"));
    assert!(!text_contains("abab", "bb"));
}

#[test]
fn visible_rows_follow_expansion() {
    let g = sample();
    // beta, Alpha, gamma in first-seen order.
    assert_eq!(names(&g), vec!["beta", "Alpha", "gamma"]);
    let rows = visible_rows(&g, &vec![]);
    assert_eq!(rows, vec![VisibleRow::System, VisibleRow::Group(0), VisibleRow::Group(1), VisibleRow::Group(2)]);
    let rows = visible_rows(&g, &vec!["beta".to_string(), "gamma".to_string()]);
    assert_eq!(
        rows,
        vec![
            VisibleRow::System,
            VisibleRow::Group(0),
            VisibleRow::Child(0, 0),
            VisibleRow::Child(0, 1),
            VisibleRow::Child(0, 2),
            VisibleRow::Group(1),
            VisibleRow::Group(2),
        ]
    );
}

#[test]
fn icon_pixels_swap_and_mask() {
    assert_eq!(icon_size(32, 16), Some((32, 16)));
    assert_eq!(icon_size(0, 16), None);
    assert_eq!(icon_size(-3, 16), None);
    let mut p = vec![1, 2, 3, 4, 5, 6, 7, 8, 9, 10];
    swap_red_blue(&mut p);
    assert_eq!(p, vec![3, 2, 1, 4, 7, 6, 5, 8, 9, 10]);
    // No alpha: the mask decides; a set mask bit is transparent.
    let mut q = vec![10, 20, 30, 0, 40, 50, 60, 0];
    apply_mask(&mut q, Some(&vec![0, 0, 0, 0, 255, 255, 255, 0]));
    assert_eq!(q, vec![10, 20, 30, 255, 40, 50, 60, 0]);
    // No alpha and no mask: opaque.
    let mut r = vec![1, 1, 1, 0, 2, 2, 2, 0];
    apply_mask(&mut r, None);
    assert_eq!(r, vec![1, 1, 1, 255, 2, 2, 2, 255]);
    // An alpha channel is kept.
    let mut s = vec![1, 1, 1, 7, 2, 2, 2, 0];
    apply_mask(&mut s, None);
    assert_eq!(s, vec![1, 1, 1, 7, 2, 2, 2, 0]);
    // A short mask covers only its pixels.
    let mut t = vec![1, 1, 1, 0, 2, 2, 2, 0];
    apply_mask(&mut t, Some(&vec![9, 0, 0, 0]));
    assert_eq!(t, vec![1, 1, 1, 0, 2, 2, 2, 0]);
}

#[test]
fn keep_matching_rows_in_order() {
    let rows = vec![
        (proc(1, "Firefox.exe", 0, 0), "Mozilla".to_string()),
        (proc(22, "app", 0, 0), String::new()),
        (proc(3, "tool", 0, 0), "Fire Corp".to_string()),
        (proc(4, "other", 0, 0), String::new()),
    ];
    let pids = |v: Vec<ProcessTraffic>| v.iter().map(|p| p.pid).collect::<Vec<u32>>();
    assert_eq!(pids(keep_matching(rows.clone(), "FIRE")), vec![1, 3]);
    assert_eq!(pids(keep_matching(rows.clone(), "2")), vec![22]);
    assert_eq!(pids(keep_matching(rows.clone(), "")), vec![1, 22, 3, 4]);
    assert!(keep_matching(rows, "zzz").is_empty());
}
