use glassy_sync::change::{classify, ChangeType, PriorState};
use glassy_sync::dal::{DataAccessLayer, FileRecord, Project, Server};

fn s(text: &str) -> String {
    text.to_string()
}

/// A store with a server and some projects.
fn init_db() -> DataAccessLayer {
    let mut dal = DataAccessLayer::new();
    dal.add_server(s("url"), s("key"), s("owo/location"), s("test server")).unwrap();
    dal.add_project(0, s("project name"), s("team name"), 0).unwrap();
    dal.add_project(1, s("project 2"), s("team name"), 41).unwrap();
    dal.add_project(14, s("another project"), s("team 2"), 2).unwrap();
    dal
}

/// A store whose ledger holds `a.txt` of project 0, confirmed with hash `H1`.
fn with_base_state() -> DataAccessLayer {
    let mut dal = init_db();
    dal.stage_transfer_target(0, s("a.txt"), s("H1"), 7, 100);
    assert_eq!(dal.update_downloaded_file_entry(0, s("a.txt")), Ok(true));
    dal
}

#[test]
fn test_cache_setting() {
    let mut dal = init_db();

    // verify initial settings
    let res = dal.get_cache_setting().unwrap();
    assert_eq!(res, false);

    // update settings
    let _ = dal.update_cache_setting(true).unwrap();

    // verify cache setting was updated
    let res = dal.get_cache_setting().unwrap();
    assert_eq!(res, true);
}

#[test]
fn test_owo() {
    let dal = init_db();
    assert_eq!(dal.project_rows().len(), 3);
    assert_eq!(dal.server_rows().len(), 1);
}

#[test]
fn empty_store_has_no_active_server() {
    let mut dal = DataAccessLayer::new();
    assert_eq!(dal.get_active_server(), Ok(s("")));
    assert_eq!(dal.get_current_server(), Ok(s("")));
    assert_eq!(dal.get_server_name(), Ok(s("glassyPDM")));
    assert_eq!(dal.get_cache_setting(), Ok(false));
    assert_eq!(dal.get_project_dir(0), Ok(s("")));
    assert_eq!(dal.update_cache_setting(true), Ok(true));
    assert_eq!(dal.get_cache_setting(), Ok(false));
    // without an active server a project is not recorded
    dal.add_project(3, s("t"), s("team"), 1).unwrap();
    assert!(dal.project_rows().is_empty());
}

#[test]
fn added_server_is_active_with_debug_address_off() {
    let dal = init_db();
    assert_eq!(dal.get_active_server(), Ok(s("url")));
    assert_eq!(dal.get_current_server(), Ok(s("url")));
    assert_eq!(dal.get_server_name(), Ok(s("test server")));
    let row = &dal.server_rows()[0];
    assert_eq!(row.clerk_publickey, "key");
    assert_eq!(row.local_dir, "owo/location");
    assert_eq!(row.debug_url, "http://localhost:5000");
    assert!(row.active && !row.debug_active && !row.cache_setting);
}

#[test]
fn adding_a_second_server_leaves_one_active() {
    let mut dal = init_db();
    dal.add_server(s("url2"), s("k2"), s("dir2"), s("second")).unwrap();
    assert_eq!(dal.get_active_server(), Ok(s("url2")));
    assert_eq!(dal.get_server_name(), Ok(s("second")));
    let active: Vec<&str> =
        dal.server_rows().iter().filter(|r| r.active).map(|r| r.url.as_str()).collect();
    assert_eq!(active, vec!["url2"]);
    // the projects of the first server are not those of the second
    assert_eq!(dal.get_project_dir(0), Ok(s("")));
}

#[test]
fn current_server_is_the_debug_address_when_switched_on() {
    let server = Server {
        url: s("https://live"),
        name: s("n"),
        local_dir: s("d"),
        clerk_publickey: s("k"),
        cache_setting: true,
        active: true,
        debug_url: s("http://localhost:5000"),
        debug_active: true,
    };
    let dal = DataAccessLayer::restore(vec![server], Vec::new(), Vec::new()).unwrap();
    assert_eq!(dal.get_current_server(), Ok(s("http://localhost:5000")));
    assert_eq!(dal.get_active_server(), Ok(s("https://live")));
    assert_eq!(dal.get_cache_setting(), Ok(true));
}

#[test]
fn project_dir_joins_local_dir_team_and_title() {
    let dal = init_db();
    let expected = std::path::Path::new("owo/location")
        .join("team name")
        .join("project name")
        .display()
        .to_string();
    assert_eq!(dal.get_project_dir(0), Ok(expected));
    let other = std::path::Path::new("owo/location")
        .join("team 2")
        .join("another project")
        .display()
        .to_string();
    assert_eq!(dal.get_project_dir(14), Ok(other));
    assert_ne!(dal.get_project_dir(0).unwrap(), "owo/location");
    assert_eq!(dal.get_project_dir(99), Ok(s("")));
}

#[test]
fn listing_a_known_project_again_only_updates_the_remote_title() {
    let mut dal = init_db();
    dal.add_project(1, s("renamed upstream"), s("other team"), 50).unwrap();
    assert_eq!(dal.project_rows().len(), 3);
    let row = dal.project_rows().iter().find(|p| p.pid == 1).unwrap();
    assert_eq!(row.title, "project 2");
    assert_eq!(row.remote_title, "renamed upstream");
    assert_eq!(row.team_name, "team name");
    assert_eq!(row.base_commitid, 41);
    let fresh = dal.project_rows().iter().find(|p| p.pid == 14).unwrap();
    assert_eq!(fresh.remote_title, "another project");
}

#[test]
fn clearing_projects_of_a_server() {
    let mut dal = init_db();
    dal.clear_project_table(s("elsewhere")).unwrap();
    assert_eq!(dal.project_rows().len(), 3);
    dal.clear_project_table(s("url")).unwrap();
    assert!(dal.project_rows().is_empty());
    assert_eq!(dal.server_rows().len(), 1);
}

#[test]
fn lookup_of_unknown_path_is_an_error() {
    let dal = init_db();
    assert!(dal.get_file_info(0, s("a.txt")).is_err());
    assert!(dal.get_basehash(0, s("a.txt")).is_err());
    assert!(dal.get_file_record(0, &s("a.txt")).is_none());
}

#[test]
fn staging_does_not_touch_the_confirmed_state() {
    let mut dal = with_base_state();
    dal.stage_transfer_target(0, s("a.txt"), s("H9"), 8, 900);
    let rec = dal.get_file_record(0, &s("a.txt")).unwrap();
    assert_eq!(rec.base_hash, "H1");
    assert_eq!(rec.curr_hash, "H1");
    assert_eq!(rec.size, 100);
    assert_eq!(rec.base_commitid, 7);
    assert!(rec.in_fs);
    assert_eq!(rec.change_type, ChangeType::NoChange);
    assert_eq!(rec.tracked_hash, "H9");
    assert_eq!(rec.tracked_commitid, 8);
    assert_eq!(rec.tracked_size, 900);
}

#[test]
fn confirming_promotes_the_staged_values() {
    let mut dal = with_base_state();
    dal.stage_transfer_target(0, s("a.txt"), s("H9"), 8, 900);
    assert_eq!(dal.update_downloaded_file_entry(0, s("a.txt")), Ok(true));
    let once = dal.get_file_record(0, &s("a.txt")).unwrap();
    assert_eq!(once.base_hash, "H9");
    assert_eq!(once.curr_hash, "H9");
    assert_eq!(once.base_commitid, 8);
    assert_eq!(once.size, 900);
    assert!(once.in_fs);
    assert_eq!(once.change_type, ChangeType::NoChange);
    // confirming again changes nothing
    assert_eq!(dal.update_downloaded_file_entry(0, s("a.txt")), Ok(true));
    let twice = dal.get_file_record(0, &s("a.txt")).unwrap();
    assert_eq!(twice.base_hash, "H9");
    assert_eq!(twice.size, 900);
    // confirming an unknown path creates no record
    assert_eq!(dal.update_downloaded_file_entry(0, s("nope")), Ok(true));
    assert_eq!(dal.file_rows().len(), 1);
}

#[test]
fn scan_of_deleted_file_is_delete() {
    let mut dal = with_base_state();
    let change = dal.record_scan(0, s("a.txt"), None);
    assert_eq!(change, ChangeType::Delete);
    let info = dal.get_file_info(0, s("a.txt")).unwrap();
    assert_eq!(info.change, ChangeType::Delete);
    assert!(!info.in_fs);
    assert_eq!(info.hash, "H1");
    assert_eq!(info.size, 100);
    assert_eq!(dal.get_basehash(0, s("a.txt")), Ok(s("H1")));
    // a second scan of the missing file keeps the pending deletion
    let again = dal.record_scan(0, s("a.txt"), None);
    assert_eq!(again, ChangeType::Delete);
    assert_eq!(dal.get_file_info(0, s("a.txt")).unwrap().change, ChangeType::Delete);
}

#[test]
fn scan_of_changed_file_is_update_and_keeps_base_hash() {
    let mut dal = with_base_state();
    let h2 = s("H2");
    let change = dal.record_scan(0, s("a.txt"), Some((&h2, 120)));
    assert_eq!(change, ChangeType::Update);
    let info = dal.get_file_info(0, s("a.txt")).unwrap();
    assert_eq!(info.change, ChangeType::Update);
    assert_eq!(info.hash, "H2");
    assert_eq!(info.size, 120);
    assert!(info.in_fs);
    assert_eq!(info.path, "a.txt");
    assert_eq!(dal.get_basehash(0, s("a.txt")), Ok(s("H1")));
}

#[test]
fn scan_of_new_file_is_create() {
    let mut dal = with_base_state();
    let hb = s("HB");
    let change = dal.record_scan(0, s("b.txt"), Some((&hb, 5)));
    assert_eq!(change, ChangeType::Create);
    let info = dal.get_file_info(0, s("b.txt")).unwrap();
    assert_eq!(info.change, ChangeType::Create);
    assert_eq!(info.hash, "HB");
    assert!(info.in_fs);
    assert_eq!(dal.get_basehash(0, s("b.txt")), Ok(s("")));
    assert_eq!(dal.file_rows().len(), 2);
}

#[test]
fn scan_of_unchanged_file_is_no_change() {
    let mut dal = with_base_state();
    let h1 = s("H1");
    assert_eq!(dal.record_scan(0, s("a.txt"), Some((&h1, 100))), ChangeType::NoChange);
    assert_eq!(dal.record_scan(0, s("a.txt"), Some((&h1, 100))), ChangeType::NoChange);
    assert_eq!(dal.get_file_info(0, s("a.txt")).unwrap().change, ChangeType::NoChange);
    // a path that is neither recorded nor on disk leaves no trace
    assert_eq!(dal.record_scan(0, s("ghost"), None), ChangeType::NoChange);
    assert_eq!(dal.file_rows().len(), 1);
}

#[test]
fn same_path_in_another_project_is_another_record() {
    let mut dal = with_base_state();
    let h = s("X");
    assert_eq!(dal.record_scan(1, s("a.txt"), Some((&h, 1))), ChangeType::Create);
    assert_eq!(dal.file_rows().len(), 2);
    assert_eq!(dal.get_file_info(0, s("a.txt")).unwrap().hash, "H1");
    assert_eq!(dal.get_file_info(1, s("a.txt")).unwrap().hash, "X");
}

#[test]
fn upsert_on_scan_twice_is_once() {
    let mut dal = init_db();
    dal.upsert_on_scan(0, s("p"), s("h"), 3, ChangeType::Create);
    dal.upsert_on_scan(0, s("p"), s("h"), 3, ChangeType::Create);
    assert_eq!(dal.file_rows().len(), 1);
    let rec = dal.get_file_record(0, &s("p")).unwrap();
    assert_eq!(rec.curr_hash, "h");
    assert_eq!(rec.size, 3);
    assert_eq!(rec.change_type, ChangeType::Create);
    assert!(rec.in_fs);
}

#[test]
fn delete_and_clear_remove_records() {
    let mut dal = with_base_state();
    let h = s("X");
    dal.record_scan(0, s("b.txt"), Some((&h, 1)));
    dal.record_scan(1, s("c.txt"), Some((&h, 1)));
    assert_eq!(dal.delete_file_entry(0, s("a.txt")), Ok(true));
    assert!(dal.get_file_info(0, s("a.txt")).is_err());
    assert_eq!(dal.delete_file_entry(0, s("a.txt")), Ok(true));
    assert_eq!(dal.file_rows().len(), 2);
    dal.clear_project_files(0);
    let left: Vec<&str> = dal.file_rows().iter().map(|r| r.filepath.as_str()).collect();
    assert_eq!(left, vec!["c.txt"]);
    dal.clear_file_table().unwrap();
    assert!(dal.file_rows().is_empty());
    assert_eq!(dal.project_rows().len(), 3);
}

#[test]
fn restore_refuses_rows_that_are_not_well_formed() {
    let server = |url: &str, active: bool| Server {
        url: s(url),
        name: s("n"),
        local_dir: s("d"),
        clerk_publickey: s("k"),
        cache_setting: false,
        active,
        debug_url: s(""),
        debug_active: false,
    };
    let project = |pid: i32, url: &str| Project {
        pid,
        url: s(url),
        title: s("t"),
        team_name: s("team"),
        base_commitid: 0,
        remote_title: s("t"),
    };
    let record = |pid: i32, path: &str| FileRecord {
        pid,
        filepath: s(path),
        base_hash: s(""),
        curr_hash: s(""),
        size: 0,
        change_type: ChangeType::NoChange,
        in_fs: false,
        base_commitid: 0,
        tracked_hash: s(""),
        tracked_commitid: 0,
        tracked_size: 0,
    };
    assert!(DataAccessLayer::restore(
        vec![server("a", true), server("b", false)],
        vec![project(1, "a"), project(1, "b"), project(2, "a")],
        vec![record(1, "x"), record(2, "x"), record(1, "y")],
    )
    .is_some());
    assert!(DataAccessLayer::restore(
        vec![server("a", true), server("a", false)],
        Vec::new(),
        Vec::new()
    )
    .is_none());
    assert!(DataAccessLayer::restore(
        vec![server("a", true), server("b", true)],
        Vec::new(),
        Vec::new()
    )
    .is_none());
    assert!(DataAccessLayer::restore(
        Vec::new(),
        vec![project(1, "a"), project(1, "a")],
        Vec::new()
    )
    .is_none());
    assert!(DataAccessLayer::restore(
        Vec::new(),
        Vec::new(),
        vec![record(1, "x"), record(1, "x")]
    )
    .is_none());
}

#[test]
fn change_codes_round_trip() {
    assert_eq!(ChangeType::NoChange.code(), 0);
    assert_eq!(ChangeType::Create.code(), 1);
    assert_eq!(ChangeType::Update.code(), 2);
    assert_eq!(ChangeType::Delete.code(), 3);
    assert_eq!(ChangeType::from_code(0), ChangeType::NoChange);
    assert_eq!(ChangeType::from_code(1), ChangeType::Create);
    assert_eq!(ChangeType::from_code(2), ChangeType::Update);
    assert_eq!(ChangeType::from_code(3), ChangeType::Delete);
    assert_eq!(ChangeType::from_code(4), ChangeType::NoChange);
    assert_eq!(ChangeType::from_code(-1), ChangeType::NoChange);
}

#[test]
fn classify_covers_every_case() {
    let prior = |in_fs: bool, change: ChangeType| PriorState { base_hash: s("H1"), in_fs, change };
    let h1 = s("H1");
    let h2 = s("H2");
    assert_eq!(classify(None, None), ChangeType::NoChange);
    assert_eq!(classify(None, Some(&h1)), ChangeType::Create);
    assert_eq!(classify(Some(&prior(true, ChangeType::NoChange)), None), ChangeType::Delete);
    assert_eq!(classify(Some(&prior(false, ChangeType::NoChange)), None), ChangeType::NoChange);
    assert_eq!(classify(Some(&prior(false, ChangeType::Delete)), None), ChangeType::Delete);
    assert_eq!(classify(Some(&prior(true, ChangeType::Update)), Some(&h1)), ChangeType::NoChange);
    assert_eq!(classify(Some(&prior(true, ChangeType::NoChange)), Some(&h2)), ChangeType::Update);
    assert_eq!(classify(Some(&prior(false, ChangeType::Delete)), Some(&h2)), ChangeType::Update);
}
