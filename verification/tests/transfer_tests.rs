use glassy_sync::cache::{append_bytes, AssemblyError, ContentCache, FileChunk};
use glassy_sync::change::ChangeType;
use glassy_sync::dal::DataAccessLayer;
use glassy_sync::download::{
    cache_entry_dir, chunk_path, commit_effects, count_unavailable, delete_file, delete_file_cmd,
    download_files, failed_output, manifest_endpoint, manifest_request, mapping_path,
    plan_downloads, project_file_path, read_output, DownloadAction, DownloadInformation,
    DownloadRequestMessage, DownloadServerOutput, DownloadSession, FileEffect, ManifestFailure,
    CONCURRENT_AWS_REQUESTS, CONCURRENT_SERVER_REQUESTS,
};
use glassy_sync::fingerprint::{Change, LocalCADFile};
use glassy_sync::text::u64_to_decimal;
use glassy_sync::upload::{upload_endpoint, upload_files, upload_form, UploadStatusPayload};

fn s(text: &str) -> String {
    text.to_string()
}

fn chunk(file_hash: &str, block_hash: &str) -> FileChunk {
    FileChunk {
        s3_url: format!("https://store/{}/{}", file_hash, block_hash),
        file_hash: s(file_hash),
        block_hash: s(block_hash),
    }
}

fn request(rel_path: &str, hash: &str, download: bool) -> DownloadRequestMessage {
    DownloadRequestMessage { rel_path: s(rel_path), hash: s(hash), commit_id: 5, download }
}

fn success(file_hash: &str, blocks: &[&str]) -> DownloadServerOutput {
    DownloadServerOutput {
        response: s("success"),
        body: Some(DownloadInformation {
            file_hash: s(file_hash),
            file_chunks: blocks.iter().map(|b| chunk(file_hash, b)).collect(),
        }),
    }
}

fn store() -> DataAccessLayer {
    let mut dal = DataAccessLayer::new();
    dal.add_server(s("https://srv"), s("key"), s("root"), s("server")).unwrap();
    dal.add_project(7, s("proj"), s("team"), 0).unwrap();
    dal
}

fn project_dir() -> String {
    std::path::Path::new("root").join("team").join("proj").display().to_string()
}

/// Runs a session to its end against answers held in memory and returns the
/// highest counts of requests that were under way at once.
fn run(
    session: &mut DownloadSession,
    cache: &mut ContentCache,
    manifests: &dyn Fn(&str) -> DownloadServerOutput,
    bodies: &dyn Fn(&FileChunk) -> Option<Vec<u8>>,
) -> (usize, usize) {
    let mut waiting_manifests: Vec<String> = Vec::new();
    let mut waiting_chunks: Vec<FileChunk> = Vec::new();
    let mut most = (0, 0);
    loop {
        match session.next_action() {
            DownloadAction::FetchManifest(req) => waiting_manifests.push(req.path),
            DownloadAction::FetchChunk(c) => waiting_chunks.push(c),
            DownloadAction::Wait => {
                // answer the chunk fetches first, so that manifests stay held open
                if let Some(c) = waiting_chunks.pop() {
                    let body = bodies(&c);
                    assert!(session.chunk_arrived(&c, body, cache));
                } else {
                    let path = waiting_manifests.remove(0);
                    assert!(session.manifest_arrived(manifests(&path), cache));
                }
            }
            DownloadAction::Finished => break,
        }
        assert_eq!(session.manifests_in_flight(), waiting_manifests.len());
        assert_eq!(session.chunks_in_flight(), waiting_chunks.len());
        most.0 = most.0.max(session.manifests_in_flight());
        most.1 = most.1.max(session.chunks_in_flight());
    }
    most
}

#[test]
fn assemble_single_chunk_is_byte_identical() {
    let mut cache = ContentCache::new();
    cache.put_mapping(&s("hash"), &vec![chunk("hash", "abc")]);
    cache.put_chunk(&s("hash"), &s("abc"), vec![1, 2, 3, 255, 0]);
    assert!(cache.has(&s("hash")));
    assert!(cache.has_chunk(&s("hash"), &s("abc")));
    assert_eq!(cache.assemble(&s("hash")), Ok(vec![1, 2, 3, 255, 0]));
}

#[test]
fn assemble_empty_mapping_is_an_error() {
    let mut cache = ContentCache::new();
    cache.put_mapping(&s("hash"), &Vec::new());
    assert!(cache.has(&s("hash")));
    assert_eq!(cache.assemble(&s("hash")), Err(AssemblyError::EmptyMapping));
}

#[test]
fn assemble_concatenates_in_mapping_order() {
    let mut cache = ContentCache::new();
    cache.put_chunk(&s("h"), &s("b2"), vec![3, 4]);
    cache.put_chunk(&s("h"), &s("b1"), vec![1, 2]);
    cache.put_chunk(&s("h"), &s("b3"), vec![5]);
    assert!(!cache.has(&s("h")));
    assert_eq!(cache.assemble(&s("h")), Err(AssemblyError::NoMapping));
    cache.put_mapping(&s("h"), &vec![chunk("h", "b1"), chunk("h", "b2"), chunk("h", "b3")]);
    assert_eq!(cache.assemble(&s("h")), Ok(vec![1, 2, 3, 4, 5]));
}

#[test]
fn assemble_with_missing_chunk_is_an_error() {
    let mut cache = ContentCache::new();
    cache.put_mapping(&s("h"), &vec![chunk("h", "b1"), chunk("h", "b2")]);
    cache.put_chunk(&s("h"), &s("b1"), vec![1]);
    // the same block under another file does not count
    cache.put_chunk(&s("other"), &s("b2"), vec![2]);
    assert_eq!(cache.assemble(&s("h")), Err(AssemblyError::MissingChunk));
    cache.put_chunk(&s("h"), &s("b2"), vec![9]);
    assert_eq!(cache.assemble(&s("h")), Ok(vec![1, 9]));
}

#[test]
fn cache_entries_are_write_once() {
    let mut cache = ContentCache::new();
    cache.put_mapping(&s("h"), &vec![chunk("h", "b1")]);
    cache.put_mapping(&s("h"), &vec![chunk("h", "b2")]);
    cache.put_chunk(&s("h"), &s("b1"), vec![1]);
    cache.put_chunk(&s("h"), &s("b1"), vec![7, 7]);
    assert_eq!(cache.assemble(&s("h")), Ok(vec![1]));
}

#[test]
fn append_bytes_appends() {
    let mut out = vec![1u8, 2];
    append_bytes(&mut out, &vec![3, 4]);
    append_bytes(&mut out, &Vec::new());
    assert_eq!(out, vec![1, 2, 3, 4]);
}

#[test]
fn paths_follow_the_cache_layout() {
    assert_eq!(manifest_endpoint(&s("https://srv")), "https://srv/store/download");
    assert_eq!(cache_entry_dir(&s("cache"), &s("h")), "cache/h");
    assert_eq!(mapping_path(&s("cache"), &s("h")), "cache/h/mapping.json");
    assert_eq!(chunk_path(&s("cache"), &chunk("h", "b")), "cache/h/b");
    assert_eq!(project_file_path(&s("proj"), &s("a/b.txt")), "proj/a/b.txt");
}

#[test]
fn manifest_request_carries_project_path_and_commit() {
    let req = manifest_request(7, &request("dir/a.sldprt", "h", true));
    assert_eq!(req.project_id, 7);
    assert_eq!(req.path, "dir/a.sldprt");
    assert_eq!(req.commit_id, 5);
}

#[test]
fn answers_are_read_as_manifest_or_failure() {
    let ok = success("h", &["b"]);
    assert_eq!(read_output(&ok).unwrap().file_hash, "h");
    let server = failed_output(ManifestFailure::Server);
    assert_eq!(server.response, "server error");
    assert!(server.body.is_none());
    assert!(matches!(read_output(&server), Err(ManifestFailure::Server)));
    let transport = failed_output(ManifestFailure::Transport);
    assert_eq!(transport.response, "reqwest error");
    assert!(matches!(read_output(&transport), Err(ManifestFailure::Transport)));
    let refused = DownloadServerOutput { response: s("no permission"), body: None };
    assert!(matches!(read_output(&refused), Err(ManifestFailure::Server)));
    let hollow = DownloadServerOutput { response: s("success"), body: None };
    assert!(matches!(read_output(&hollow), Err(ManifestFailure::Server)));
}

#[test]
fn plan_sorts_requests_by_what_they_need() {
    let mut cache = ContentCache::new();
    cache.put_mapping(&s("cached"), &vec![chunk("cached", "b")]);
    let files = vec![
        request("a", "cached", true),
        request("b", "new1", true),
        request("c", "whatever", false),
        request("d", "new2", true),
        request("e", "cached", true),
    ];
    let plan = plan_downloads(&files, &cache);
    let need: Vec<&str> = plan.to_download.iter().map(|f| f.rel_path.as_str()).collect();
    let gone: Vec<&str> = plan.to_delete.iter().map(|f| f.rel_path.as_str()).collect();
    assert_eq!(need, vec!["b", "d"]);
    assert_eq!(gone, vec!["c"]);
    assert_eq!(plan.cached, 2);
}

#[test]
fn download_needs_server_and_project() {
    let cache = ContentCache::new();
    assert!(download_files(7, vec![request("a", "h", true)], &DataAccessLayer::new(), &cache)
        .is_none());
    assert!(download_files(8, vec![request("a", "h", true)], &store(), &cache).is_none());
    let session = download_files(7, vec![request("a", "h", true)], &store(), &cache).unwrap();
    assert_eq!(session.endpoint(), "https://srv/store/download");
    assert_eq!(session.project_dir(), &project_dir());
    assert_eq!(session.cached(), 0);
}

#[test]
fn manifest_requests_never_exceed_their_bound() {
    let mut cache = ContentCache::new();
    let files: Vec<DownloadRequestMessage> =
        (0..9).map(|i| request(&format!("f{}", i), &format!("h{}", i), true)).collect();
    let mut session = download_files(7, files, &store(), &cache).unwrap();
    let manifests = |path: &str| {
        let hash = path.replace('f', "h");
        success(&hash, &["b1", "b2", "b3", "b4", "b5"])
    };
    let bodies = |c: &FileChunk| Some(c.block_hash.clone().into_bytes());
    let most = run(&mut session, &mut cache, &manifests, &bodies);
    assert_eq!(most.0, CONCURRENT_SERVER_REQUESTS);
    assert_eq!(most.1, CONCURRENT_AWS_REQUESTS);
    assert_eq!(CONCURRENT_SERVER_REQUESTS, 2);
    assert_eq!(CONCURRENT_AWS_REQUESTS, 4);
    assert_eq!(session.manifest_failures(), 0);
    assert_eq!(session.chunk_failures(), 0);
    for i in 0..9 {
        assert_eq!(cache.assemble(&format!("h{}", i)), Ok(b"b1b2b3b4b5".to_vec()));
    }
}

#[test]
fn third_manifest_waits_while_two_are_held_open() {
    let cache = ContentCache::new();
    let files = vec![request("a", "ha", true), request("b", "hb", true), request("c", "hc", true)];
    let mut session = download_files(7, files, &store(), &cache).unwrap();
    assert!(matches!(session.next_action(), DownloadAction::FetchManifest(r) if r.path == "a"));
    assert!(matches!(session.next_action(), DownloadAction::FetchManifest(r) if r.path == "b"));
    assert!(matches!(session.next_action(), DownloadAction::Wait));
    assert!(matches!(session.next_action(), DownloadAction::Wait));
    assert_eq!(session.manifests_in_flight(), 2);
}

#[test]
fn chunks_are_fetched_while_manifests_are_held_open() {
    let mut cache = ContentCache::new();
    let files = vec![request("a", "ha", true), request("b", "hb", true), request("c", "hc", true)];
    let mut session = download_files(7, files, &store(), &cache).unwrap();
    session.next_action();
    session.next_action();
    assert!(session.manifest_arrived(success("ha", &["1", "2", "3", "4", "5"]), &mut cache));
    // one slot is free again: the third manifest comes first, then chunks
    assert!(matches!(session.next_action(), DownloadAction::FetchManifest(r) if r.path == "c"));
    for expected in ["1", "2", "3", "4"] {
        assert!(
            matches!(session.next_action(), DownloadAction::FetchChunk(c) if c.block_hash == expected)
        );
    }
    assert!(matches!(session.next_action(), DownloadAction::Wait));
    assert_eq!(session.manifests_in_flight(), 2);
    assert_eq!(session.chunks_in_flight(), 4);
    assert!(session.chunk_arrived(&chunk("ha", "1"), Some(vec![1]), &mut cache));
    assert!(matches!(session.next_action(), DownloadAction::FetchChunk(c) if c.block_hash == "5"));
    assert_eq!(session.manifests_in_flight(), 2);
}

#[test]
fn answers_without_a_request_are_turned_away() {
    let mut cache = ContentCache::new();
    let mut session = download_files(7, vec![request("a", "ha", true)], &store(), &cache).unwrap();
    assert!(!session.manifest_arrived(success("ha", &["1"]), &mut cache));
    assert!(!session.chunk_arrived(&chunk("ha", "1"), Some(vec![1]), &mut cache));
    assert!(!cache.has(&s("ha")));
    assert!(!cache.has_chunk(&s("ha"), &s("1")));
    assert!(matches!(session.next_action(), DownloadAction::FetchManifest(_)));
}

#[test]
fn failed_manifest_does_not_stop_the_batch() {
    let mut cache = ContentCache::new();
    let files = vec![request("a", "ha", true), request("b", "hb", true), request("c", "hc", true)];
    let mut session = download_files(7, files, &store(), &cache).unwrap();
    let manifests = |path: &str| match path {
        "a" => failed_output(ManifestFailure::Transport),
        "b" => success("hb", &["1"]),
        _ => failed_output(ManifestFailure::Server),
    };
    let bodies = |_: &FileChunk| Some(vec![42u8]);
    run(&mut session, &mut cache, &manifests, &bodies);
    assert_eq!(session.manifest_failures(), 2);
    let effects = session.effects(&cache);
    assert_eq!(count_unavailable(&effects), 2);
    assert!(matches!(&effects[0], FileEffect::Unavailable { rel_path, reason }
        if rel_path == "a" && *reason == AssemblyError::NoMapping));
    assert!(matches!(&effects[1], FileEffect::Write { rel_path, bytes }
        if rel_path == "b" && bytes == &vec![42u8]));
    assert!(matches!(&effects[2], FileEffect::Unavailable { rel_path, .. } if rel_path == "c"));
}

#[test]
fn failed_chunk_leaves_the_file_unavailable() {
    let mut cache = ContentCache::new();
    let files = vec![request("a", "ha", true)];
    let mut session = download_files(7, files, &store(), &cache).unwrap();
    let manifests = |_: &str| success("ha", &["1", "2"]);
    let bodies = |c: &FileChunk| if c.block_hash == "2" { None } else { Some(vec![1u8]) };
    run(&mut session, &mut cache, &manifests, &bodies);
    assert_eq!(session.chunk_failures(), 1);
    let effects = session.effects(&cache);
    assert!(matches!(&effects[0], FileEffect::Unavailable { reason, .. }
        if *reason == AssemblyError::MissingChunk));
    // the chunk list stays for a later pass
    assert!(cache.has(&s("ha")));
}

#[test]
fn second_file_with_cached_content_needs_no_network() {
    let mut cache = ContentCache::new();
    let mut first = download_files(7, vec![request("a", "same", true)], &store(), &cache).unwrap();
    let manifests = |_: &str| success("same", &["abc"]);
    let bodies = |_: &FileChunk| Some(vec![9u8, 8, 7]);
    run(&mut first, &mut cache, &manifests, &bodies);

    let mut second =
        download_files(7, vec![request("copy/of/a", "same", true)], &store(), &cache).unwrap();
    assert_eq!(second.cached(), 1);
    assert!(matches!(second.next_action(), DownloadAction::Finished));
    let effects = second.effects(&cache);
    assert!(matches!(&effects[0], FileEffect::Write { rel_path, bytes }
        if rel_path == "copy/of/a" && bytes == &vec![9u8, 8, 7]));
}

#[test]
fn two_files_of_one_content_in_one_batch_fetch_one_chunk_set() {
    let mut cache = ContentCache::new();
    let files = vec![
        request("a.txt", "h", true),
        request("b.txt", "h", true),
        request("c.txt", "other", true),
        request("d.txt", "h", true),
    ];
    let plan = plan_downloads(&files, &cache);
    let asked: Vec<&str> = plan.to_download.iter().map(|f| f.rel_path.as_str()).collect();
    assert_eq!(asked, vec!["a.txt", "c.txt"]);

    let mut session = download_files(7, files, &store(), &cache).unwrap();
    let manifests_asked = std::cell::RefCell::new(Vec::new());
    let chunks_fetched = std::cell::RefCell::new(Vec::new());
    let manifests = |path: &str| {
        manifests_asked.borrow_mut().push(path.to_string());
        if path == "c.txt" {
            success("other", &["o1"])
        } else {
            success("h", &["c1", "c2", "c3"])
        }
    };
    let bodies = |c: &FileChunk| {
        chunks_fetched.borrow_mut().push((c.file_hash.clone(), c.block_hash.clone()));
        Some(c.block_hash.clone().into_bytes())
    };
    run(&mut session, &mut cache, &manifests, &bodies);
    assert_eq!(*manifests_asked.borrow(), vec![s("a.txt"), s("c.txt")]);
    let mut fetched = chunks_fetched.borrow().clone();
    fetched.sort();
    assert_eq!(
        fetched,
        vec![(s("h"), s("c1")), (s("h"), s("c2")), (s("h"), s("c3")), (s("other"), s("o1"))]
    );
    let effects = session.effects(&cache);
    let written: Vec<(String, Vec<u8>)> = effects
        .iter()
        .map(|e| match e {
            FileEffect::Write { rel_path, bytes } => (rel_path.clone(), bytes.clone()),
            _ => panic!("every file of the batch is written"),
        })
        .collect();
    assert_eq!(
        written,
        vec![
            (s("a.txt"), b"c1c2c3".to_vec()),
            (s("b.txt"), b"c1c2c3".to_vec()),
            (s("c.txt"), b"o1".to_vec()),
            (s("d.txt"), b"c1c2c3".to_vec()),
        ]
    );
}

#[test]
fn a_chunk_named_by_two_manifests_is_queued_once() {
    let mut cache = ContentCache::new();
    cache.put_chunk(&s("hb"), &s("held"), vec![1]);
    let files = vec![request("a", "ha", true), request("b", "hb", true)];
    let mut session = download_files(7, files, &store(), &cache).unwrap();
    session.next_action();
    session.next_action();
    // the answer for the first path names the content of the second too
    assert!(session.manifest_arrived(success("hb", &["x", "x", "held", "y"]), &mut cache));
    assert!(session.manifest_arrived(success("hb", &["y", "x", "z"]), &mut cache));
    let mut handed_out = Vec::new();
    while let DownloadAction::FetchChunk(c) = session.next_action() {
        handed_out.push(c.block_hash);
    }
    assert_eq!(handed_out, vec!["x", "y", "z"]);
}

#[test]
fn effects_follow_the_order_of_the_requests() {
    let mut cache = ContentCache::new();
    cache.put_mapping(&s("h"), &vec![chunk("h", "b")]);
    cache.put_chunk(&s("h"), &s("b"), vec![5]);
    let files = vec![request("gone", "x", false), request("a", "h", true)];
    let session = download_files(7, files, &store(), &cache).unwrap();
    let effects = session.effects(&cache);
    assert_eq!(effects.len(), 2);
    assert!(matches!(&effects[0], FileEffect::Remove { rel_path } if rel_path == "gone"));
    assert!(matches!(&effects[1], FileEffect::Write { rel_path, .. } if rel_path == "a"));
    assert_eq!(count_unavailable(&effects), 0);
}

#[test]
fn commit_confirms_written_paths_and_forgets_removed_ones() {
    let mut dal = store();
    dal.stage_transfer_target(7, s("a"), s("HA"), 3, 10);
    dal.stage_transfer_target(7, s("b"), s("HB"), 3, 20);
    dal.stage_transfer_target(7, s("c"), s("HC"), 3, 30);
    let effects = vec![
        FileEffect::Write { rel_path: s("a"), bytes: vec![1] },
        FileEffect::Unavailable { rel_path: s("b"), reason: AssemblyError::MissingChunk },
        FileEffect::Remove { rel_path: s("c") },
    ];
    commit_effects(&mut dal, 7, &effects);
    let a = dal.get_file_record(7, &s("a")).unwrap();
    assert_eq!((a.base_hash.as_str(), a.curr_hash.as_str(), a.size), ("HA", "HA", 10));
    assert!(a.in_fs);
    assert_eq!(a.change_type, ChangeType::NoChange);
    let b = dal.get_file_record(7, &s("b")).unwrap();
    assert_eq!(b.base_hash, "");
    assert!(!b.in_fs);
    assert!(dal.get_file_record(7, &s("c")).is_none());
}

#[test]
fn commit_after_an_interrupted_commit_converges() {
    let effects = vec![
        FileEffect::Write { rel_path: s("a"), bytes: vec![1] },
        FileEffect::Remove { rel_path: s("b") },
        FileEffect::Write { rel_path: s("b"), bytes: vec![2] },
        FileEffect::Write { rel_path: s("c"), bytes: vec![3] },
    ];
    let staged = || {
        let mut dal = store();
        dal.stage_transfer_target(7, s("a"), s("HA"), 3, 10);
        dal.stage_transfer_target(7, s("b"), s("HB"), 3, 20);
        dal.stage_transfer_target(7, s("c"), s("HC"), 3, 30);
        dal
    };
    let snapshot = |dal: &DataAccessLayer| -> Vec<(String, String, bool)> {
        dal.file_rows().iter().map(|r| (r.filepath.clone(), r.base_hash.clone(), r.in_fs)).collect()
    };
    let mut whole = staged();
    commit_effects(&mut whole, 7, &effects);
    for done in 0..=effects.len() {
        let mut dal = staged();
        let first: Vec<FileEffect> = effects
            .iter()
            .take(done)
            .map(|e| match e {
                FileEffect::Write { rel_path, bytes } => {
                    FileEffect::Write { rel_path: rel_path.clone(), bytes: bytes.clone() }
                }
                FileEffect::Remove { rel_path } => FileEffect::Remove { rel_path: rel_path.clone() },
                FileEffect::Unavailable { rel_path, reason } => {
                    FileEffect::Unavailable { rel_path: rel_path.clone(), reason: *reason }
                }
            })
            .collect();
        commit_effects(&mut dal, 7, &first);
        commit_effects(&mut dal, 7, &effects);
        assert_eq!(snapshot(&dal), snapshot(&whole));
    }
    assert_eq!(
        snapshot(&whole),
        vec![(s("a"), s("HA"), true), (s("c"), s("HC"), true)]
    );
}

#[test]
fn delete_file_resolves_the_path_to_remove() {
    let mut dal = store();
    let h = s("H");
    dal.record_scan(7, s("a.txt"), Some((&h, 1)));
    assert_eq!(delete_file(7, &s("a.txt"), &dal), Some(format!("{}/a.txt", project_dir())));
    assert_eq!(delete_file(8, &s("a.txt"), &dal), None);
    // without a project directory the ledger is left alone
    assert_eq!(delete_file_cmd(8, s("a.txt"), &mut dal), None);
    assert_eq!(dal.file_rows().len(), 1);
    assert_eq!(delete_file_cmd(7, s("a.txt"), &mut dal), Some(format!("{}/a.txt", project_dir())));
    assert!(dal.file_rows().is_empty());
}

#[test]
fn decimal_rendering() {
    assert_eq!(u64_to_decimal(0), "0");
    assert_eq!(u64_to_decimal(7), "7");
    assert_eq!(u64_to_decimal(10), "10");
    assert_eq!(u64_to_decimal(1234567890), "1234567890");
    assert_eq!(u64_to_decimal(u64::MAX), "18446744073709551615");
}

fn change(path: &str, size: u64, hash: &str, change: ChangeType) -> Change {
    Change { file: LocalCADFile { path: s(path), size, hash: s(hash) }, change }
}

fn fields(form: &glassy_sync::upload::UploadForm) -> Vec<(String, String)> {
    form.fields.iter().map(|f| (f.name.clone(), f.value.clone())).collect()
}

#[test]
fn upload_form_carries_the_fields_in_order() {
    let form = upload_form(&change("/proj/dir/a.sldprt", 120, "abcd", ChangeType::Update), 42, &s("/proj"));
    assert_eq!(
        fields(&form),
        vec![
            (s("commit"), s("42")),
            (s("path"), s("/dir/a.sldprt")),
            (s("size"), s("120")),
            (s("hash"), s("abcd")),
            (s("project"), s("0")),
        ]
    );
    let part = form.part.unwrap();
    assert_eq!(part.name, "key");
    assert_eq!(part.file_name, "/dir/a.sldprt");
    assert_eq!(part.source, "/proj/dir/a.sldprt");
}

#[test]
fn upload_form_of_a_deletion_has_no_file_part() {
    let form = upload_form(&change("/proj/gone.txt", 77, "h", ChangeType::Delete), 1, &s("/proj"));
    assert!(form.part.is_none());
    assert_eq!(fields(&form)[2], (s("size"), s("77")));
    // an empty file that is not deleted is still sent
    let empty = upload_form(&change("/proj/e.txt", 0, "h", ChangeType::Create), 1, &s("/proj"));
    assert!(empty.part.is_some());
    assert_eq!(fields(&empty)[2], (s("size"), s("0")));
}

#[test]
fn form_path_is_relative_to_the_project_dir() {
    let path_of = |path: &str, dir: &str| {
        let form = upload_form(&change(path, 1, "h", ChangeType::Create), 1, &s(dir));
        (form.fields[1].value.clone(), form.part.unwrap().file_name)
    };
    // the directory is taken off once, at the front
    assert_eq!(path_of("P/P", "P"), (s("/P"), s("/P")));
    assert_eq!(path_of("ab/x/ab/y", "ab"), (s("/x/ab/y"), s("/x/ab/y")));
    assert_eq!(path_of("aaa", "aa"), (s("a"), s("a")));
    assert_eq!(path_of("/proj/dir/a.sldprt", "/proj/"), (s("dir/a.sldprt"), s("dir/a.sldprt")));
    // a path that does not begin with the directory stays as it is
    assert_eq!(path_of("x/ab/y", "ab"), (s("x/ab/y"), s("x/ab/y")));
    assert_eq!(path_of("a", "abc"), (s("a"), s("a")));
    assert_eq!(path_of("ab/x", ""), (s("ab/x"), s("ab/x")));
    assert_eq!(path_of("ab", "ab"), (s(""), s("")));
    assert_eq!(path_of("dir\u{e9}/f", "dir\u{e9}"), (s("/f"), s("/f")));
}

#[test]
fn upload_reports_progress_after_each_file() {
    let files = vec![
        change("/p/a", 1, "ha", ChangeType::Create),
        change("/p/b", 2, "hb", ChangeType::Update),
        change("/p/c", 3, "hc", ChangeType::Delete),
    ];
    let mut session = upload_files(&files, 9, &s("https://srv"), &s("/p"));
    assert_eq!(session.endpoint(), "https://srv/ingest");
    assert_eq!(upload_endpoint(&s("https://srv")), "https://srv/ingest");
    assert_eq!((session.uploaded(), session.total()), (0, 3));
    let mut seen = Vec::new();
    let mut paths = Vec::new();
    while let Some(form) = session.next_form() {
        paths.push(form.fields[1].value.clone());
        seen.push(session.file_sent().unwrap());
    }
    assert_eq!(paths, vec!["/a", "/b", "/c"]);
    assert_eq!(
        seen,
        vec![
            UploadStatusPayload { uploaded: 1, total: 3 },
            UploadStatusPayload { uploaded: 2, total: 3 },
            UploadStatusPayload { uploaded: 3, total: 3 },
        ]
    );
    assert!(session.file_sent().is_none());
    assert_eq!(session.uploaded(), 3);
}

#[test]
fn upload_failure_ends_the_batch() {
    let files = vec![
        change("/p/a", 1, "ha", ChangeType::Create),
        change("/p/b", 2, "hb", ChangeType::Update),
    ];
    let mut session = upload_files(&files, 9, &s("https://srv"), &s("/p"));
    assert!(session.next_form().is_some());
    assert_eq!(session.file_sent(), Some(UploadStatusPayload { uploaded: 1, total: 2 }));
    session.file_failed();
    assert!(session.aborted());
    assert!(session.next_form().is_none());
    assert!(session.file_sent().is_none());
    assert_eq!(session.uploaded(), 1);
    let none = upload_files(&Vec::new(), 9, &s("u"), &s("/p"));
    assert!(none.next_form().is_none());
    assert_eq!(none.total(), 0);
}
