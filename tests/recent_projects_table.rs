use recent_projects::{
    add_recent_project, clear_recent_projects, get_recent_projects, name_from_segment,
    project_name, remove_recent_project, text_less, RecentProject, RecentProjects, DEFAULT_LIMIT,
};

fn s(text: &str) -> String {
    text.to_string()
}

fn row(path: &str, last_accessed: &str, access_count: i32) -> RecentProject {
    RecentProject {
        path: s(path),
        name: s(path.rsplit('/').next().unwrap()),
        last_accessed: s(last_accessed),
        access_count,
    }
}

fn paths(list: &[RecentProject]) -> Vec<String> {
    list.iter().map(|p| p.path.clone()).collect()
}

#[test]
fn repeated_access_keeps_one_record_with_count_two() {
    let mut t = RecentProjects::new();
    add_recent_project(&mut t, s("/home/u/proj"), s("2024-05-01 10:00:00")).unwrap();
    add_recent_project(&mut t, s("/home/u/proj"), s("2024-05-01 10:00:05")).unwrap();
    assert_eq!(t.len(), 1);
    let p = t.find(&s("/home/u/proj")).unwrap();
    assert_eq!(p.access_count, 2);
    assert_eq!(p.name, "proj");
    assert_eq!(p.last_accessed, "2024-05-01 10:00:05");
}

#[test]
fn later_access_lists_first() {
    let mut t = RecentProjects::new();
    add_recent_project(&mut t, s("/a"), s("2024-05-01 10:00:00")).unwrap();
    add_recent_project(&mut t, s("/b"), s("2024-05-01 10:00:01")).unwrap();
    add_recent_project(&mut t, s("/a"), s("2024-05-01 10:00:02")).unwrap();
    let list = get_recent_projects(&t, Some(10));
    assert_eq!(paths(&list), vec![s("/a"), s("/b")]);
}

#[test]
fn same_second_access_lists_more_frequent_first() {
    let mut t = RecentProjects::new();
    let now = "2024-05-01 10:00:00";
    add_recent_project(&mut t, s("/a"), s(now)).unwrap();
    add_recent_project(&mut t, s("/b"), s(now)).unwrap();
    add_recent_project(&mut t, s("/a"), s(now)).unwrap();
    let list = get_recent_projects(&t, Some(10));
    assert_eq!(paths(&list), vec![s("/a"), s("/b")]);
    assert_eq!(list[0].access_count, 2);
    assert_eq!(list[1].access_count, 1);
}

#[test]
fn zero_limit_lists_nothing() {
    let mut t = RecentProjects::new();
    add_recent_project(&mut t, s("/a"), s("2024-05-01 10:00:00")).unwrap();
    add_recent_project(&mut t, s("/b"), s("2024-05-01 10:00:01")).unwrap();
    assert!(get_recent_projects(&t, Some(0)).is_empty());
    assert!(get_recent_projects(&RecentProjects::new(), Some(0)).is_empty());
}

#[test]
fn first_access_creates_one_record() {
    let mut t = RecentProjects::new();
    add_recent_project(&mut t, s("/x/one"), s("2024-01-01 00:00:00")).unwrap();
    add_recent_project(&mut t, s("/x/two"), s("2024-01-01 00:00:01")).unwrap();
    assert_eq!(t.len(), 2);
    let p = t.find(&s("/x/two")).unwrap();
    assert_eq!(p.access_count, 1);
    assert_eq!(p.name, "two");
    assert_eq!(p.last_accessed, "2024-01-01 00:00:01");
    assert_eq!(t.find(&s("/x/one")).unwrap().access_count, 1);
}

#[test]
fn access_never_moves_time_back() {
    let mut t = RecentProjects::new();
    add_recent_project(&mut t, s("/p"), s("2024-06-01 12:00:00")).unwrap();
    add_recent_project(&mut t, s("/p"), s("2024-05-01 12:00:00")).unwrap();
    let p = t.find(&s("/p")).unwrap();
    assert_eq!(p.last_accessed, "2024-06-01 12:00:00");
    assert_eq!(p.access_count, 2);
}

#[test]
fn listing_is_bounded_and_ordered() {
    let rows = vec![
        row("/old", "2024-01-01 00:00:00", 9),
        row("/new", "2024-03-01 00:00:00", 1),
        row("/mid_rare", "2024-02-01 00:00:00", 1),
        row("/mid_often", "2024-02-01 00:00:00", 5),
    ];
    let t = RecentProjects::from_rows(rows).unwrap();
    let all = get_recent_projects(&t, Some(10));
    assert_eq!(
        paths(&all),
        vec![s("/new"), s("/mid_often"), s("/mid_rare"), s("/old")]
    );
    let two = get_recent_projects(&t, Some(2));
    assert_eq!(paths(&two), vec![s("/new"), s("/mid_often")]);
}

#[test]
fn default_limit_is_ten() {
    assert_eq!(DEFAULT_LIMIT, 10);
    let mut t = RecentProjects::new();
    for k in 0..12 {
        let stamp = format!("2024-01-01 00:00:{:02}", k);
        add_recent_project(&mut t, format!("/p{}", k), stamp).unwrap();
    }
    let list = get_recent_projects(&t, None);
    assert_eq!(list.len(), 10);
    assert_eq!(list[0].path, "/p11");
    assert_eq!(list[9].path, "/p2");
}

#[test]
fn removed_project_is_not_listed() {
    let mut t = RecentProjects::new();
    add_recent_project(&mut t, s("/a"), s("2024-05-01 10:00:00")).unwrap();
    add_recent_project(&mut t, s("/b"), s("2024-05-01 10:00:01")).unwrap();
    remove_recent_project(&mut t, s("/a"));
    let list = get_recent_projects(&t, None);
    assert_eq!(paths(&list), vec![s("/b")]);
    assert!(t.find(&s("/a")).is_none());
}

#[test]
fn removing_absent_project_changes_nothing() {
    let mut t = RecentProjects::new();
    add_recent_project(&mut t, s("/a"), s("2024-05-01 10:00:00")).unwrap();
    remove_recent_project(&mut t, s("/zzz"));
    assert_eq!(t.len(), 1);
    let mut empty = RecentProjects::new();
    remove_recent_project(&mut empty, s("/a"));
    assert_eq!(empty.len(), 0);
}

#[test]
fn cleared_table_lists_nothing() {
    let mut t = RecentProjects::new();
    add_recent_project(&mut t, s("/a"), s("2024-05-01 10:00:00")).unwrap();
    add_recent_project(&mut t, s("/b"), s("2024-05-01 10:00:01")).unwrap();
    clear_recent_projects(&mut t);
    assert_eq!(t.len(), 0);
    assert!(get_recent_projects(&t, Some(100)).is_empty());
    clear_recent_projects(&mut t);
    assert_eq!(t.len(), 0);
}

#[test]
fn saturated_count_is_an_error() {
    let rows = vec![row("/busy", "2024-01-01 00:00:00", i32::MAX)];
    let mut t = RecentProjects::from_rows(rows).unwrap();
    assert!(add_recent_project(&mut t, s("/busy"), s("2024-02-01 00:00:00")).is_err());
    let p = t.find(&s("/busy")).unwrap();
    assert_eq!(p.access_count, i32::MAX);
    assert_eq!(p.last_accessed, "2024-01-01 00:00:00");
}

#[test]
fn malformed_rows_are_refused() {
    let dup = vec![
        row("/a", "2024-01-01 00:00:00", 1),
        row("/a", "2024-01-02 00:00:00", 2),
    ];
    assert!(RecentProjects::from_rows(dup).is_none());
    let zero = vec![row("/a", "2024-01-01 00:00:00", 0)];
    assert!(RecentProjects::from_rows(zero).is_none());
    let ok = vec![row("/a", "2024-01-01 00:00:00", 1), row("/b", "2024-01-01 00:00:00", 3)];
    assert_eq!(RecentProjects::from_rows(ok).unwrap().len(), 2);
}

#[test]
fn name_is_final_segment() {
    assert_eq!(project_name(&s("/home/u/proj")), "proj");
    assert_eq!(project_name(&s("/home/u/proj/")), "proj");
    assert_eq!(project_name(&s("proj")), "proj");
}

#[test]
fn name_falls_back_to_whole_path() {
    assert_eq!(project_name(&s("/")), "/");
    assert_eq!(project_name(&s("/a/..")), "/a/..");
    assert_eq!(name_from_segment(&s("/a/.."), None), "/a/..");
    assert_eq!(name_from_segment(&s("/a/b"), Some(s("b"))), "b");
}

#[test]
fn text_order_is_by_code_point() {
    assert!(text_less("2024-01-01 00:00:00", "2024-01-01 00:00:01"));
    assert!(!text_less("2024-01-01 00:00:01", "2024-01-01 00:00:00"));
    assert!(!text_less("same", "same"));
    assert!(text_less("ab", "abc"));
    assert!(!text_less("abc", "ab"));
    assert!(text_less("", "a"));
    assert!(text_less("Z", "a"));
    assert!(text_less("a", "\u{e9}"));
}
