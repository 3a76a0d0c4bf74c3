//! The persistent store of the engine: the servers, the projects and the
//! ledger with one record for each tracked file.
//!
//! The three tables are held as rows in insertion order.  Every operation is
//! stated over the rows before and after it: a lookup returns the first row
//! that matches, an update changes every row that matches, a removal keeps the
//! rows that do not.
use crate::change::{classify, classify_spec, ChangeType, PriorState, PriorStateView};
use crate::table::{
    any_where, distinct_by, first_where, keep_where, lemma_first_where, lemma_first_where_found,
    lemma_first_where_map, lemma_first_where_missing, lemma_first_where_push,
    lemma_keep_where_all, lemma_keep_where_distinct, lemma_keep_where_rows, lemma_map_distinct,
    lemma_push_distinct,
};
use crate::text::{join_path, joined_path};
use vstd::prelude::*;
use vstd::string::*;

verus! {

/// A remote endpoint.
pub struct Server {
    pub url: String,
    pub name: String,
    pub local_dir: String,
    pub clerk_publickey: String,
    pub cache_setting: bool,
    pub active: bool,
    pub debug_url: String,
    pub debug_active: bool,
}

pub struct ServerView {
    pub url: Seq<char>,
    pub name: Seq<char>,
    pub local_dir: Seq<char>,
    pub clerk_publickey: Seq<char>,
    pub cache_setting: bool,
    pub active: bool,
    pub debug_url: Seq<char>,
    pub debug_active: bool,
}

impl View for Server {
    type V = ServerView;

    open spec fn view(&self) -> ServerView {
        ServerView {
            url: self.url@,
            name: self.name@,
            local_dir: self.local_dir@,
            clerk_publickey: self.clerk_publickey@,
            cache_setting: self.cache_setting,
            active: self.active,
            debug_url: self.debug_url@,
            debug_active: self.debug_active,
        }
    }
}

impl DeepView for Server {
    type V = ServerView;

    open spec fn deep_view(&self) -> ServerView {
        self@
    }
}

/// A project of a server, as the client knows it.
pub struct Project {
    pub pid: i32,
    pub url: String,
    pub title: String,
    pub team_name: String,
    pub base_commitid: i32,
    pub remote_title: String,
}

pub struct ProjectView {
    pub pid: i32,
    pub url: Seq<char>,
    pub title: Seq<char>,
    pub team_name: Seq<char>,
    pub base_commitid: i32,
    pub remote_title: Seq<char>,
}

impl View for Project {
    type V = ProjectView;

    open spec fn view(&self) -> ProjectView {
        ProjectView {
            pid: self.pid,
            url: self.url@,
            title: self.title@,
            team_name: self.team_name@,
            base_commitid: self.base_commitid,
            remote_title: self.remote_title@,
        }
    }
}

impl DeepView for Project {
    type V = ProjectView;

    open spec fn deep_view(&self) -> ProjectView {
        self@
    }
}

impl Clone for Project {
    fn clone(&self) -> (r: Self)
        ensures
            r == *self,
    {
        Project {
            pid: self.pid,
            url: self.url.clone(),
            title: self.title.clone(),
            team_name: self.team_name.clone(),
            base_commitid: self.base_commitid,
            remote_title: self.remote_title.clone(),
        }
    }
}

/// The ledger's record of one file of one project.
pub struct FileRecord {
    pub pid: i32,
    pub filepath: String,
    pub base_hash: String,
    pub curr_hash: String,
    pub size: i64,
    pub change_type: ChangeType,
    pub in_fs: bool,
    pub base_commitid: i32,
    pub tracked_hash: String,
    pub tracked_commitid: i32,
    pub tracked_size: i64,
}

pub struct FileRecordView {
    pub pid: i32,
    pub filepath: Seq<char>,
    pub base_hash: Seq<char>,
    pub curr_hash: Seq<char>,
    pub size: i64,
    pub change_type: ChangeType,
    pub in_fs: bool,
    pub base_commitid: i32,
    pub tracked_hash: Seq<char>,
    pub tracked_commitid: i32,
    pub tracked_size: i64,
}

impl View for FileRecord {
    type V = FileRecordView;

    open spec fn view(&self) -> FileRecordView {
        FileRecordView {
            pid: self.pid,
            filepath: self.filepath@,
            base_hash: self.base_hash@,
            curr_hash: self.curr_hash@,
            size: self.size,
            change_type: self.change_type,
            in_fs: self.in_fs,
            base_commitid: self.base_commitid,
            tracked_hash: self.tracked_hash@,
            tracked_commitid: self.tracked_commitid,
            tracked_size: self.tracked_size,
        }
    }
}

impl DeepView for FileRecord {
    type V = FileRecordView;

    open spec fn deep_view(&self) -> FileRecordView {
        self@
    }
}

impl Clone for FileRecord {
    fn clone(&self) -> (r: Self)
        ensures
            r == *self,
    {
        FileRecord {
            pid: self.pid,
            filepath: self.filepath.clone(),
            base_hash: self.base_hash.clone(),
            curr_hash: self.curr_hash.clone(),
            size: self.size,
            change_type: self.change_type,
            in_fs: self.in_fs,
            base_commitid: self.base_commitid,
            tracked_hash: self.tracked_hash.clone(),
            tracked_commitid: self.tracked_commitid,
            tracked_size: self.tracked_size,
        }
    }
}

/// What a caller learns of a file from the ledger.
pub struct UpdatedFile {
    pub path: String,
    pub hash: String,
    pub size: i64,
    pub change: ChangeType,
    pub in_fs: bool,
}

pub struct UpdatedFileView {
    pub path: Seq<char>,
    pub hash: Seq<char>,
    pub size: i64,
    pub change: ChangeType,
    pub in_fs: bool,
}

impl View for UpdatedFile {
    type V = UpdatedFileView;

    open spec fn view(&self) -> UpdatedFileView {
        UpdatedFileView {
            path: self.path@,
            hash: self.hash@,
            size: self.size,
            change: self.change,
            in_fs: self.in_fs,
        }
    }
}

pub open spec fn server_is_active() -> spec_fn(ServerView) -> bool {
    |s: ServerView| s.active
}

pub open spec fn server_has_url(url: Seq<char>) -> spec_fn(ServerView) -> bool {
    |s: ServerView| s.url == url
}

pub open spec fn server_url() -> spec_fn(ServerView) -> Seq<char> {
    |s: ServerView| s.url
}

pub open spec fn project_is(pid: i32, url: Seq<char>) -> spec_fn(ProjectView) -> bool {
    |p: ProjectView| p.pid == pid && p.url == url
}

pub open spec fn project_not_of(url: Seq<char>) -> spec_fn(ProjectView) -> bool {
    |p: ProjectView| p.url != url
}

pub open spec fn project_key() -> spec_fn(ProjectView) -> (i32, Seq<char>) {
    |p: ProjectView| (p.pid, p.url)
}

pub open spec fn file_is(pid: i32, path: Seq<char>) -> spec_fn(FileRecordView) -> bool {
    |r: FileRecordView| r.pid == pid && r.filepath == path
}

pub open spec fn file_is_not(pid: i32, path: Seq<char>) -> spec_fn(FileRecordView) -> bool {
    |r: FileRecordView| !(r.pid == pid && r.filepath == path)
}

pub open spec fn file_not_of(pid: i32) -> spec_fn(FileRecordView) -> bool {
    |r: FileRecordView| r.pid != pid
}

pub open spec fn file_key() -> spec_fn(FileRecordView) -> (i32, Seq<char>) {
    |r: FileRecordView| (r.pid, r.filepath)
}

/// The address of the active server, or the empty text where none is active.
pub open spec fn active_url(servers: Seq<ServerView>) -> Seq<char> {
    match first_where(servers, server_is_active()) {
        Some(s) => s.url,
        None => Seq::empty(),
    }
}

/// The address to use for calls to a server: its debug address while that is
/// switched on, its own address otherwise.
pub open spec fn call_url(server: ServerView) -> Seq<char> {
    if server.debug_active {
        server.debug_url
    } else {
        server.url
    }
}

/// Whether at most one server is active.
pub open spec fn at_most_one_active(servers: Seq<ServerView>) -> bool {
    forall|i: int, j: int|
        0 <= i < j < servers.len() ==> !((#[trigger] servers[i]).active && (
        #[trigger] servers[j]).active)
}

pub open spec fn with_cache_setting(url: Seq<char>, setting: bool) -> spec_fn(ServerView)
    -> ServerView {
    |s: ServerView|
        if s.url == url {
            ServerView { cache_setting: setting, ..s }
        } else {
            s
        }
}

pub open spec fn deactivated() -> spec_fn(ServerView) -> ServerView {
    |s: ServerView| ServerView { active: false, ..s }
}

/// The row of a server that was just added: active, not cached, with the
/// local debug address switched off.
pub open spec fn added_server(
    url: Seq<char>,
    clerk_pub_key: Seq<char>,
    local_dir: Seq<char>,
    name: Seq<char>,
) -> ServerView {
    ServerView {
        url,
        name,
        local_dir,
        clerk_publickey: clerk_pub_key,
        cache_setting: false,
        active: true,
        debug_url: "http://localhost:5000"@,
        debug_active: false,
    }
}

pub open spec fn with_remote_title(pid: i32, url: Seq<char>, title: Seq<char>) -> spec_fn(
    ProjectView,
) -> ProjectView {
    |p: ProjectView|
        if p.pid == pid && p.url == url {
            ProjectView { remote_title: title, ..p }
        } else {
            p
        }
}

/// The project table after a project was listed or joined.  Without an active
/// server nothing changes.  A project that the active server already has
/// keeps its local title and learns the remote one; another is added.
pub open spec fn projects_with(
    servers: Seq<ServerView>,
    projects: Seq<ProjectView>,
    pid: i32,
    title: Seq<char>,
    team_name: Seq<char>,
    init_commit: i32,
) -> Seq<ProjectView> {
    match first_where(servers, server_is_active()) {
        None => projects,
        Some(s) => if any_where(projects, project_is(pid, s.url)) {
            projects.map_values(with_remote_title(pid, s.url, title))
        } else {
            projects.push(
                ProjectView {
                    pid,
                    url: s.url,
                    title,
                    team_name,
                    base_commitid: init_commit,
                    remote_title: title,
                },
            )
        },
    }
}

/// The directory of a project on disk: the local directory of the active
/// server, then the team's name, then the project's title.  It is the empty
/// text where no server is active or the active server has no such project.
pub open spec fn project_dir_of(servers: Seq<ServerView>, projects: Seq<ProjectView>, pid: i32)
    -> Seq<char> {
    match first_where(servers, server_is_active()) {
        None => Seq::empty(),
        Some(s) => match first_where(projects, project_is(pid, s.url)) {
            None => Seq::empty(),
            Some(p) => joined_path(joined_path(s.local_dir, p.team_name), p.title),
        },
    }
}

/// A record whose staged values have become its confirmed state.
pub open spec fn promoted(r: FileRecordView) -> FileRecordView {
    FileRecordView {
        base_hash: r.tracked_hash,
        curr_hash: r.tracked_hash,
        base_commitid: r.tracked_commitid,
        size: r.tracked_size,
        in_fs: true,
        change_type: ChangeType::NoChange,
        ..r
    }
}

pub open spec fn promote_at(pid: i32, path: Seq<char>) -> spec_fn(FileRecordView)
    -> FileRecordView {
    |r: FileRecordView|
        if r.pid == pid && r.filepath == path {
            promoted(r)
        } else {
            r
        }
}

/// The record of a path that nothing is known of yet.
pub open spec fn blank_record(pid: i32, path: Seq<char>) -> FileRecordView {
    FileRecordView {
        pid,
        filepath: path,
        base_hash: Seq::empty(),
        curr_hash: Seq::empty(),
        size: 0,
        change_type: ChangeType::NoChange,
        in_fs: false,
        base_commitid: 0,
        tracked_hash: Seq::empty(),
        tracked_commitid: 0,
        tracked_size: 0,
    }
}

/// A record after a scan observed the file: the observed hash and size, the
/// change, and whether the file is on disk, which it is unless it was deleted.
pub open spec fn scanned(r: FileRecordView, curr_hash: Seq<char>, size: i64, change: ChangeType)
    -> FileRecordView {
    FileRecordView {
        curr_hash,
        size,
        change_type: change,
        in_fs: change != ChangeType::Delete,
        ..r
    }
}

pub open spec fn scan_at(
    pid: i32,
    path: Seq<char>,
    curr_hash: Seq<char>,
    size: i64,
    change: ChangeType,
) -> spec_fn(FileRecordView) -> FileRecordView {
    |r: FileRecordView|
        if r.pid == pid && r.filepath == path {
            scanned(r, curr_hash, size, change)
        } else {
            r
        }
}

/// The ledger after the result of a scan was recorded for one path.
pub open spec fn files_with_scan(
    files: Seq<FileRecordView>,
    pid: i32,
    path: Seq<char>,
    curr_hash: Seq<char>,
    size: i64,
    change: ChangeType,
) -> Seq<FileRecordView> {
    if any_where(files, file_is(pid, path)) {
        files.map_values(scan_at(pid, path, curr_hash, size, change))
    } else {
        files.push(scanned(blank_record(pid, path), curr_hash, size, change))
    }
}

/// A record with a new target for a transfer.
pub open spec fn staged(r: FileRecordView, hash: Seq<char>, commitid: i32, size: i64)
    -> FileRecordView {
    FileRecordView { tracked_hash: hash, tracked_commitid: commitid, tracked_size: size, ..r }
}

pub open spec fn stage_at(pid: i32, path: Seq<char>, hash: Seq<char>, commitid: i32, size: i64)
    -> spec_fn(FileRecordView) -> FileRecordView {
    |r: FileRecordView|
        if r.pid == pid && r.filepath == path {
            staged(r, hash, commitid, size)
        } else {
            r
        }
}

/// The ledger after the target of a transfer was staged for one path.
pub open spec fn files_with_target(
    files: Seq<FileRecordView>,
    pid: i32,
    path: Seq<char>,
    hash: Seq<char>,
    commitid: i32,
    size: i64,
) -> Seq<FileRecordView> {
    if any_where(files, file_is(pid, path)) {
        files.map_values(stage_at(pid, path, hash, commitid, size))
    } else {
        files.push(staged(blank_record(pid, path), hash, commitid, size))
    }
}

/// What a scan has to classify a file against.
pub open spec fn prior_state(record: Option<FileRecordView>) -> Option<PriorStateView> {
    match record {
        Some(r) => Some(
            PriorStateView { base_hash: r.base_hash, in_fs: r.in_fs, change: r.change_type },
        ),
        None => None,
    }
}

/// The hash of an observation.
pub open spec fn observed_hash(observed: Option<(Seq<char>, i64)>) -> Option<Seq<char>> {
    match observed {
        Some(o) => Some(o.0),
        None => None,
    }
}

/// The change that a scan finds for one path of the ledger.
pub open spec fn change_on_scan(
    files: Seq<FileRecordView>,
    pid: i32,
    path: Seq<char>,
    observed: Option<(Seq<char>, i64)>,
) -> ChangeType {
    classify_spec(prior_state(first_where(files, file_is(pid, path))), observed_hash(observed))
}

/// The ledger after a scan looked at one path.  A file on disk is recorded
/// with its hash, its size and its change.  A file that is gone, and that the
/// ledger had on disk, is recorded as deleted and keeps the hash and size it
/// had.  Otherwise the ledger stays as it is.
pub open spec fn files_after_scan(
    files: Seq<FileRecordView>,
    pid: i32,
    path: Seq<char>,
    observed: Option<(Seq<char>, i64)>,
) -> Seq<FileRecordView> {
    let change = change_on_scan(files, pid, path, observed);
    match observed {
        Some(o) => files_with_scan(files, pid, path, o.0, o.1, change),
        None => match first_where(files, file_is(pid, path)) {
            Some(r) => if r.in_fs {
                files_with_scan(files, pid, path, r.curr_hash, r.size, change)
            } else {
                files
            },
            None => files,
        },
    }
}

pub open spec fn observation_view(observed: Option<(&String, i64)>) -> Option<(Seq<char>, i64)> {
    match observed {
        Some(o) => Some((o.0@, o.1)),
        None => None,
    }
}

fn servers_are_distinct(servers: &Vec<Server>) -> (r: bool)
    ensures
        r == (distinct_by(servers.deep_view(), server_url()) && at_most_one_active(
            servers.deep_view(),
        )),
{
    let ghost rows = servers.deep_view();
    let mut i: usize = 0;
    while i < servers.len()
        invariant
            i <= servers.len(),
            rows == servers.deep_view(),
            forall|a: int, b: int|
                0 <= a < i && a < b < rows.len() ==> (#[trigger] rows[a]).url != (
                #[trigger] rows[b]).url && !(rows[a].active && rows[b].active),
        decreases servers.len() - i,
    {
        let mut j: usize = i + 1;
        while j < servers.len()
            invariant
                i < j <= servers.len(),
                rows == servers.deep_view(),
                forall|b: int|
                    i < b < j ==> rows[i as int].url != (#[trigger] rows[b]).url && !(rows[i as int].active
                        && rows[b].active),
            decreases servers.len() - j,
        {
            if servers[i].url == servers[j].url || (servers[i].active && servers[j].active) {
                assert(rows[i as int].url == rows[j as int].url || (rows[i as int].active
                    && rows[j as int].active));
                return false;
            }
            j += 1;
        }
        i += 1;
    }
    true
}

fn projects_are_distinct(projects: &Vec<Project>) -> (r: bool)
    ensures
        r == distinct_by(projects.deep_view(), project_key()),
{
    let ghost rows = projects.deep_view();
    let mut i: usize = 0;
    while i < projects.len()
        invariant
            i <= projects.len(),
            rows == projects.deep_view(),
            forall|a: int, b: int|
                0 <= a < i && a < b < rows.len() ==> project_key()(#[trigger] rows[a])
                    != project_key()(#[trigger] rows[b]),
        decreases projects.len() - i,
    {
        let mut j: usize = i + 1;
        while j < projects.len()
            invariant
                i < j <= projects.len(),
                rows == projects.deep_view(),
                forall|b: int|
                    i < b < j ==> project_key()(rows[i as int]) != project_key()(#[trigger] rows[b]),
            decreases projects.len() - j,
        {
            if projects[i].pid == projects[j].pid && projects[i].url == projects[j].url {
                assert(project_key()(rows[i as int]) == project_key()(rows[j as int]));
                return false;
            }
            j += 1;
        }
        i += 1;
    }
    true
}

fn files_are_distinct(files: &Vec<FileRecord>) -> (r: bool)
    ensures
        r == distinct_by(files.deep_view(), file_key()),
{
    let ghost rows = files.deep_view();
    let mut i: usize = 0;
    while i < files.len()
        invariant
            i <= files.len(),
            rows == files.deep_view(),
            forall|a: int, b: int|
                0 <= a < i && a < b < rows.len() ==> file_key()(#[trigger] rows[a]) != file_key()(
                    #[trigger] rows[b],
                ),
        decreases files.len() - i,
    {
        let mut j: usize = i + 1;
        while j < files.len()
            invariant
                i < j <= files.len(),
                rows == files.deep_view(),
                forall|b: int|
                    i < b < j ==> file_key()(rows[i as int]) != file_key()(#[trigger] rows[b]),
            decreases files.len() - j,
        {
            if files[i].pid == files[j].pid && files[i].filepath == files[j].filepath {
                assert(file_key()(rows[i as int]) == file_key()(rows[j as int]));
                return false;
            }
            j += 1;
        }
        i += 1;
    }
    true
}

/// The store: servers, projects and file records.
pub struct DataAccessLayer {
    servers: Vec<Server>,
    projects: Vec<Project>,
    files: Vec<FileRecord>,
}

impl DataAccessLayer {
    /// The server table, in insertion order.
    pub closed spec fn servers(&self) -> Seq<ServerView> {
        self.servers.deep_view()
    }

    /// The project table, in insertion order.
    pub closed spec fn projects(&self) -> Seq<ProjectView> {
        self.projects.deep_view()
    }

    /// The ledger, in insertion order.
    pub closed spec fn files(&self) -> Seq<FileRecordView> {
        self.files.deep_view()
    }

    /// The store is well formed: a server address, a project of a server and a
    /// path of a project each have one row, and at most one server is active.
    pub open spec fn wf(&self) -> bool {
        &&& distinct_by(self.servers(), server_url())
        &&& at_most_one_active(self.servers())
        &&& distinct_by(self.projects(), project_key())
        &&& distinct_by(self.files(), file_key())
    }

    /// An empty store.
    pub fn new() -> (r: Self)
        ensures
            r.wf(),
            r.servers() == Seq::<ServerView>::empty(),
            r.projects() == Seq::<ProjectView>::empty(),
            r.files() == Seq::<FileRecordView>::empty(),
    {
        let r = DataAccessLayer { servers: Vec::new(), projects: Vec::new(), files: Vec::new() };
        assert(r.servers() =~= Seq::<ServerView>::empty());
        assert(r.projects() =~= Seq::<ProjectView>::empty());
        assert(r.files() =~= Seq::<FileRecordView>::empty());
        r
    }

    /// The store that holds the given rows, or `None` where they are not
    /// well formed: where two servers share an address, more than one server
    /// is active, two projects share a number and server, or two records
    /// share a project and path.
    pub fn restore(servers: Vec<Server>, projects: Vec<Project>, files: Vec<FileRecord>) -> (r:
        Option<Self>)
        ensures
            match r {
                Some(store) => {
                    &&& store.wf()
                    &&& store.servers() == servers.deep_view()
                    &&& store.projects() == projects.deep_view()
                    &&& store.files() == files.deep_view()
                },
                None => !(distinct_by(servers.deep_view(), server_url()) && at_most_one_active(
                    servers.deep_view(),
                ) && distinct_by(projects.deep_view(), project_key()) && distinct_by(
                    files.deep_view(),
                    file_key(),
                )),
            },
    {
        if servers_are_distinct(&servers) && projects_are_distinct(&projects)
            && files_are_distinct(&files) {
            Some(DataAccessLayer { servers, projects, files })
        } else {
            None
        }
    }

    /// The rows of the server table.
    pub fn server_rows(&self) -> (r: &Vec<Server>)
        ensures
            r.deep_view() == self.servers(),
    {
        &self.servers
    }

    /// The rows of the project table.
    pub fn project_rows(&self) -> (r: &Vec<Project>)
        ensures
            r.deep_view() == self.projects(),
    {
        &self.projects
    }

    /// The rows of the ledger.
    pub fn file_rows(&self) -> (r: &Vec<FileRecord>)
        ensures
            r.deep_view() == self.files(),
    {
        &self.files
    }

    fn find_active(&self) -> (r: Option<usize>)
        ensures
            match r {
                Some(i) => i < self.servers.len() && first_where(
                    self.servers(),
                    server_is_active(),
                ) == Some(self.servers()[i as int]),
                None => first_where(self.servers(), server_is_active()) is None,
            },
    {
        let mut i: usize = 0;
        while i < self.servers.len()
            invariant
                i <= self.servers.len(),
                forall|j: int| 0 <= j < i ==> !server_is_active()(#[trigger] self.servers()[j]),
            decreases self.servers.len() - i,
        {
            if self.servers[i].active {
                proof {
                    lemma_first_where_found(self.servers(), server_is_active(), i as int);
                }
                return Some(i);
            }
            i += 1;
        }
        proof {
            lemma_first_where_missing(self.servers(), server_is_active());
        }
        None
    }

    fn find_server(&self, url: &String) -> (r: Option<usize>)
        ensures
            match r {
                Some(i) => i < self.servers.len() && first_where(
                    self.servers(),
                    server_has_url(url@),
                ) == Some(self.servers()[i as int]),
                None => first_where(self.servers(), server_has_url(url@)) is None,
            },
    {
        let mut i: usize = 0;
        while i < self.servers.len()
            invariant
                i <= self.servers.len(),
                forall|j: int|
                    0 <= j < i ==> !server_has_url(url@)(#[trigger] self.servers()[j]),
            decreases self.servers.len() - i,
        {
            if self.servers[i].url == *url {
                proof {
                    lemma_first_where_found(self.servers(), server_has_url(url@), i as int);
                }
                return Some(i);
            }
            i += 1;
        }
        proof {
            lemma_first_where_missing(self.servers(), server_has_url(url@));
        }
        None
    }

    fn find_project(&self, pid: i32, url: &String) -> (r: Option<usize>)
        ensures
            match r {
                Some(i) => i < self.projects.len() && first_where(
                    self.projects(),
                    project_is(pid, url@),
                ) == Some(self.projects()[i as int]),
                None => first_where(self.projects(), project_is(pid, url@)) is None && !any_where(
                    self.projects(),
                    project_is(pid, url@),
                ),
            },
            r is Some ==> any_where(self.projects(), project_is(pid, url@)),
    {
        let mut i: usize = 0;
        while i < self.projects.len()
            invariant
                i <= self.projects.len(),
                forall|j: int|
                    0 <= j < i ==> !project_is(pid, url@)(#[trigger] self.projects()[j]),
            decreases self.projects.len() - i,
        {
            if self.projects[i].pid == pid && self.projects[i].url == *url {
                proof {
                    lemma_first_where_found(self.projects(), project_is(pid, url@), i as int);
                }
                return Some(i);
            }
            i += 1;
        }
        proof {
            lemma_first_where_missing(self.projects(), project_is(pid, url@));
        }
        None
    }

    fn find_file(&self, pid: i32, path: &String) -> (r: Option<usize>)
        ensures
            match r {
                Some(i) => i < self.files.len() && first_where(self.files(), file_is(pid, path@))
                    == Some(self.files()[i as int]),
                None => first_where(self.files(), file_is(pid, path@)) is None && !any_where(
                    self.files(),
                    file_is(pid, path@),
                ),
            },
            r is Some ==> any_where(self.files(), file_is(pid, path@)),
    {
        let mut i: usize = 0;
        while i < self.files.len()
            invariant
                i <= self.files.len(),
                forall|j: int| 0 <= j < i ==> !file_is(pid, path@)(#[trigger] self.files()[j]),
            decreases self.files.len() - i,
        {
            if self.files[i].pid == pid && self.files[i].filepath == *path {
                proof {
                    lemma_first_where_found(self.files(), file_is(pid, path@), i as int);
                }
                return Some(i);
            }
            i += 1;
        }
        proof {
            lemma_first_where_missing(self.files(), file_is(pid, path@));
        }
        None
    }

    /// The address to use for network calls: that of the active server, or its
    /// debug address while that is switched on; empty where no server is
    /// active.
    pub fn get_current_server(&self) -> (r: Result<String, ()>)
        ensures
            r matches Ok(url) && url@ == match first_where(self.servers(), server_is_active()) {
                Some(s) => call_url(s),
                None => Seq::empty(),
            },
    {
        match self.find_active() {
            Some(i) => if self.servers[i].debug_active {
                Ok(self.servers[i].debug_url.clone())
            } else {
                Ok(self.servers[i].url.clone())
            },
            None => Ok(String::new()),
        }
    }

    /// The address that identifies the active server; empty where no server
    /// is active.
    pub fn get_active_server(&self) -> (r: Result<String, ()>)
        ensures
            r matches Ok(url) && url@ == active_url(self.servers()),
    {
        match self.find_active() {
            Some(i) => Ok(self.servers[i].url.clone()),
            None => Ok(String::new()),
        }
    }

    /// The name of the active server, or the product's name where no server
    /// is active.
    pub fn get_server_name(&self) -> (r: Result<String, ()>)
        ensures
            r matches Ok(name) && name@ == match first_where(
                self.servers(),
                server_is_active(),
            ) {
                Some(s) => s.name,
                None => "glassyPDM"@,
            },
    {
        match self.find_active() {
            Some(i) => Ok(self.servers[i].name.clone()),
            None => Ok(String::from_str("glassyPDM")),
        }
    }

    /// Adds a server and makes it the active one.
    pub fn add_server(
        &mut self,
        url: String,
        clerk_pub_key: String,
        local_dir: String,
        name: String,
    ) -> (r: Result<(), ()>)
        requires
            old(self).wf(),
            !any_where(old(self).servers(), server_has_url(url@)),
        ensures
            final(self).wf(),
            r is Ok,
            final(self).servers() == old(self).servers().map_values(deactivated()).push(
                added_server(url@, clerk_pub_key@, local_dir@, name@),
            ),
            final(self).projects() == old(self).projects(),
            final(self).files() == old(self).files(),
    {
        let ghost before = self.servers();
        let mut i: usize = 0;
        while i < self.servers.len()
            invariant
                i <= self.servers.len(),
                self.servers@.len() == before.len(),
                self.projects() == old(self).projects(),
                self.files() == old(self).files(),
                forall|k: int|
                    0 <= k < i ==> (#[trigger] self.servers@[k])@ == deactivated()(before[k]),
                forall|k: int| i <= k < before.len() ==> (#[trigger] self.servers@[k])@ == before[k],
            decreases self.servers.len() - i,
        {
            self.servers[i].active = false;
            i += 1;
        }
        let ghost quiet = before.map_values(deactivated());
        assert(self.servers() =~= quiet);
        let ghost row = added_server(url@, clerk_pub_key@, local_dir@, name@);
        let server = Server {
            url,
            name,
            local_dir,
            clerk_publickey: clerk_pub_key,
            cache_setting: false,
            active: true,
            debug_url: String::from_str("http://localhost:5000"),
            debug_active: false,
        };
        assert(server@ == row);
        self.servers.push(server);
        assert(self.servers() =~= quiet.push(row));
        proof {
            lemma_map_distinct(before, deactivated(), server_url());
            assert forall|k: int| 0 <= k < quiet.len() implies server_url()(#[trigger] quiet[k])
                != server_url()(row) by {
                assert(!server_has_url(row.url)(before[k]));
            }
            lemma_push_distinct(quiet, row, server_url());
            let after = quiet.push(row);
            assert forall|a: int, b: int| 0 <= a < b < after.len() implies !((
            #[trigger] after[a]).active && (#[trigger] after[b]).active) by {
                assert(after[a] == quiet[a]);
            }
        }
        Ok(())
    }

    /// Whether downloaded content is kept in the cache, as the row with the
    /// active server's address says; `false` where there is no such row.
    pub fn get_cache_setting(&self) -> (r: Result<bool, ()>)
        ensures
            r matches Ok(setting) && setting == match first_where(
                self.servers(),
                server_has_url(active_url(self.servers())),
            ) {
                Some(s) => s.cache_setting,
                None => false,
            },
    {
        let url = match self.find_active() {
            Some(i) => self.servers[i].url.clone(),
            None => String::new(),
        };
        match self.find_server(&url) {
            Some(i) => Ok(self.servers[i].cache_setting),
            None => Ok(false),
        }
    }

    /// Sets whether downloaded content is kept in the cache, on every row with
    /// the active server's address.
    pub fn update_cache_setting(&mut self, new_cache: bool) -> (r: Result<bool, ()>)
        requires
            old(self).wf(),
        ensures
            final(self).wf(),
            r == Ok::<bool, ()>(true),
            final(self).servers() == old(self).servers().map_values(
                with_cache_setting(active_url(old(self).servers()), new_cache),
            ),
            final(self).projects() == old(self).projects(),
            final(self).files() == old(self).files(),
    {
        let url = match self.find_active() {
            Some(i) => self.servers[i].url.clone(),
            None => String::new(),
        };
        let ghost before = self.servers();
        let ghost f = with_cache_setting(url@, new_cache);
        let mut i: usize = 0;
        while i < self.servers.len()
            invariant
                i <= self.servers.len(),
                self.servers@.len() == before.len(),
                self.projects() == old(self).projects(),
                self.files() == old(self).files(),
                f == with_cache_setting(url@, new_cache),
                forall|k: int| 0 <= k < i ==> (#[trigger] self.servers@[k])@ == f(before[k]),
                forall|k: int| i <= k < before.len() ==> (#[trigger] self.servers@[k])@ == before[k],
            decreases self.servers.len() - i,
        {
            if self.servers[i].url == url {
                self.servers[i].cache_setting = new_cache;
            }
            i += 1;
        }
        assert(self.servers() =~= before.map_values(f));
        proof {
            lemma_map_distinct(before, f, server_url());
        }
        Ok(true)
    }

    /// Records a project of the active server.
    pub fn add_project(&mut self, pid: i32, title: String, team_name: String, init_commit: i32) -> (r:
        Result<(), ()>)
        requires
            old(self).wf(),
        ensures
            final(self).wf(),
            r is Ok,
            final(self).projects() == projects_with(
                old(self).servers(),
                old(self).projects(),
                pid,
                title@,
                team_name@,
                init_commit,
            ),
            final(self).servers() == old(self).servers(),
            final(self).files() == old(self).files(),
    {
        let url = match self.find_active() {
            Some(i) => self.servers[i].url.clone(),
            None => {
                return Ok(());
            },
        };
        let ghost before = self.projects();
        match self.find_project(pid, &url) {
            Some(_) => {
                let ghost f = with_remote_title(pid, url@, title@);
                let mut i: usize = 0;
                while i < self.projects.len()
                    invariant
                        i <= self.projects.len(),
                        self.projects@.len() == before.len(),
                        self.servers() == old(self).servers(),
                        self.files() == old(self).files(),
                        f == with_remote_title(pid, url@, title@),
                        forall|k: int|
                            0 <= k < i ==> (#[trigger] self.projects@[k])@ == f(before[k]),
                        forall|k: int|
                            i <= k < before.len() ==> (#[trigger] self.projects@[k])@ == before[k],
                    decreases self.projects.len() - i,
                {
                    if self.projects[i].pid == pid && self.projects[i].url == url {
                        self.projects[i].remote_title = title.clone();
                    }
                    i += 1;
                }
                assert(self.projects() =~= before.map_values(f));
                proof {
                    lemma_map_distinct(before, f, project_key());
                }
            },
            None => {
                let ghost row = ProjectView {
                    pid,
                    url: url@,
                    title: title@,
                    team_name: team_name@,
                    base_commitid: init_commit,
                    remote_title: title@,
                };
                let project = Project {
                    pid,
                    url,
                    remote_title: title.clone(),
                    title,
                    team_name,
                    base_commitid: init_commit,
                };
                assert(project@ == row);
                self.projects.push(project);
                assert(self.projects() =~= before.push(row));
                proof {
                    assert forall|k: int| 0 <= k < before.len() implies project_key()(
                        #[trigger] before[k],
                    ) != project_key()(row) by {
                        assert(!project_is(pid, row.url)(before[k]));
                    }
                    lemma_push_distinct(before, row, project_key());
                }
            },
        }
        Ok(())
    }

    /// Forgets the projects of the server with the address `url`.
    pub fn clear_project_table(&mut self, url: String) -> (r: Result<(), ()>)
        requires
            old(self).wf(),
        ensures
            final(self).wf(),
            r is Ok,
            final(self).projects() == keep_where(old(self).projects(), project_not_of(url@)),
            final(self).servers() == old(self).servers(),
            final(self).files() == old(self).files(),
    {
        let ghost before = self.projects();
        let mut kept: Vec<Project> = Vec::new();
        assert(kept.deep_view() =~= Seq::<ProjectView>::empty());
        assert(before.take(0) =~= Seq::<ProjectView>::empty());
        let mut i: usize = 0;
        while i < self.projects.len()
            invariant
                i <= self.projects.len(),
                self.projects() == before,
                kept.deep_view() == keep_where(before.take(i as int), project_not_of(url@)),
            decreases self.projects.len() - i,
        {
            let ghost so_far = kept.deep_view();
            assert(before.take(i as int + 1).drop_last() =~= before.take(i as int));
            assert(before.take(i as int + 1).last() == self.projects[i as int]@);
            if self.projects[i].url != url {
                kept.push(self.projects[i].clone());
                assert(kept.deep_view() =~= so_far.push(before[i as int]));
            }
            i += 1;
        }
        assert(before.take(before.len() as int) =~= before);
        self.projects = kept;
        proof {
            lemma_keep_where_distinct(before, project_not_of(url@), project_key());
        }
        Ok(())
    }

    /// The directory of the project `pid` of the active server on disk; empty
    /// where it cannot be told.
    pub fn get_project_dir(&self, pid: i32) -> (r: Result<String, ()>)
        ensures
            r matches Ok(dir) && dir@ == project_dir_of(self.servers(), self.projects(), pid),
    {
        match self.find_active() {
            None => Ok(String::new()),
            Some(s) => match self.find_project(pid, &self.servers[s].url) {
                None => Ok(String::new()),
                Some(p) => {
                    let team_dir = join_path(
                        &self.servers[s].local_dir,
                        &self.projects[p].team_name,
                    );
                    Ok(join_path(&team_dir, &self.projects[p].title))
                },
            },
        }
    }

    /// What the ledger holds for a path: the hash and size that the last scan
    /// observed, the pending change and whether the file is on disk.  A path
    /// without a record is an error, not an unchanged file.
    pub fn get_file_info(&self, pid: i32, path: String) -> (r: Result<UpdatedFile, ()>)
        ensures
            match first_where(self.files(), file_is(pid, path@)) {
                Some(rec) => r matches Ok(info) && info@ == (UpdatedFileView {
                    path: path@,
                    hash: rec.curr_hash,
                    size: rec.size,
                    change: rec.change_type,
                    in_fs: rec.in_fs,
                }),
                None => r is Err,
            },
    {
        match self.find_file(pid, &path) {
            Some(i) => Ok(
                UpdatedFile {
                    path,
                    hash: self.files[i].curr_hash.clone(),
                    size: self.files[i].size,
                    change: self.files[i].change_type,
                    in_fs: self.files[i].in_fs,
                },
            ),
            None => Err(()),
        }
    }

    /// The hash of a path as of the last confirmed synchronization; an error
    /// for a path without a record.
    pub fn get_basehash(&self, pid: i32, path: String) -> (r: Result<String, ()>)
        ensures
            match first_where(self.files(), file_is(pid, path@)) {
                Some(rec) => r matches Ok(hash) && hash@ == rec.base_hash,
                None => r is Err,
            },
    {
        match self.find_file(pid, &path) {
            Some(i) => Ok(self.files[i].base_hash.clone()),
            None => Err(()),
        }
    }

    /// The record of a path, if the ledger has one.
    pub fn get_file_record(&self, pid: i32, path: &String) -> (r: Option<FileRecord>)
        ensures
            match first_where(self.files(), file_is(pid, path@)) {
                Some(rec) => r matches Some(found) && found@ == rec,
                None => r is None,
            },
    {
        match self.find_file(pid, path) {
            Some(i) => Some(self.files[i].clone()),
            None => None,
        }
    }

    /// Confirms a transfer: the staged hash, commit and size of the path become
    /// its base and current state, the file counts as on disk and no change is
    /// pending.  A path without a record is left alone.
    pub fn update_downloaded_file_entry(&mut self, pid: i32, path: String) -> (r: Result<bool, ()>)
        requires
            old(self).wf(),
        ensures
            final(self).wf(),
            r == Ok::<bool, ()>(true),
            final(self).files() == old(self).files().map_values(promote_at(pid, path@)),
            final(self).servers() == old(self).servers(),
            final(self).projects() == old(self).projects(),
    {
        let ghost before = self.files();
        let ghost f = promote_at(pid, path@);
        let mut i: usize = 0;
        while i < self.files.len()
            invariant
                i <= self.files.len(),
                self.files@.len() == before.len(),
                self.servers() == old(self).servers(),
                self.projects() == old(self).projects(),
                f == promote_at(pid, path@),
                forall|k: int| 0 <= k < i ==> (#[trigger] self.files@[k])@ == f(before[k]),
                forall|k: int| i <= k < before.len() ==> (#[trigger] self.files@[k])@ == before[k],
            decreases self.files.len() - i,
        {
            if self.files[i].pid == pid && self.files[i].filepath == path {
                let hash = self.files[i].tracked_hash.clone();
                self.files[i].base_hash = hash.clone();
                self.files[i].curr_hash = hash;
                self.files[i].base_commitid = self.files[i].tracked_commitid;
                self.files[i].size = self.files[i].tracked_size;
                self.files[i].in_fs = true;
                self.files[i].change_type = ChangeType::NoChange;
            }
            i += 1;
        }
        assert(self.files() =~= before.map_values(f));
        proof {
            lemma_map_distinct(before, f, file_key());
        }
        Ok(true)
    }

    /// Records what a scan observed for a path, under the change it was
    /// classified as.  A path without a record gets one.
    pub fn upsert_on_scan(
        &mut self,
        pid: i32,
        path: String,
        curr_hash: String,
        size: i64,
        change_type: ChangeType,
    )
        requires
            old(self).wf(),
        ensures
            final(self).wf(),
            final(self).files() == files_with_scan(
                old(self).files(),
                pid,
                path@,
                curr_hash@,
                size,
                change_type,
            ),
            final(self).servers() == old(self).servers(),
            final(self).projects() == old(self).projects(),
    {
        let ghost before = self.files();
        let on_disk = match change_type {
            ChangeType::Delete => false,
            _ => true,
        };
        match self.find_file(pid, &path) {
            Some(_) => {
                let ghost f = scan_at(pid, path@, curr_hash@, size, change_type);
                let mut i: usize = 0;
                while i < self.files.len()
                    invariant
                        i <= self.files.len(),
                        self.files@.len() == before.len(),
                        self.servers() == old(self).servers(),
                        self.projects() == old(self).projects(),
                        on_disk == (change_type != ChangeType::Delete),
                        f == scan_at(pid, path@, curr_hash@, size, change_type),
                        forall|k: int| 0 <= k < i ==> (#[trigger] self.files@[k])@ == f(before[k]),
                        forall|k: int|
                            i <= k < before.len() ==> (#[trigger] self.files@[k])@ == before[k],
                    decreases self.files.len() - i,
                {
                    if self.files[i].pid == pid && self.files[i].filepath == path {
                        self.files[i].curr_hash = curr_hash.clone();
                        self.files[i].size = size;
                        self.files[i].change_type = change_type;
                        self.files[i].in_fs = on_disk;
                    }
                    i += 1;
                }
                assert(self.files() =~= before.map_values(f));
                proof {
                    lemma_map_distinct(before, f, file_key());
                }
            },
            None => {
                let ghost row = scanned(blank_record(pid, path@), curr_hash@, size, change_type);
                let record = FileRecord {
                    pid,
                    filepath: path,
                    base_hash: String::new(),
                    curr_hash,
                    size,
                    change_type,
                    in_fs: on_disk,
                    base_commitid: 0,
                    tracked_hash: String::new(),
                    tracked_commitid: 0,
                    tracked_size: 0,
                };
                assert(record@ == row);
                self.files.push(record);
                assert(self.files() =~= before.push(row));
                proof {
                    assert forall|k: int| 0 <= k < before.len() implies file_key()(
                        #[trigger] before[k],
                    ) != file_key()(row) by {
                        assert(!file_is(pid, row.filepath)(before[k]));
                    }
                    lemma_push_distinct(before, row, file_key());
                }
            },
        }
    }

    /// Stages the state that a transfer is to bring a path to.  The confirmed
    /// state of the path is not touched.  A path without a record gets one.
    pub fn stage_transfer_target(
        &mut self,
        pid: i32,
        path: String,
        tracked_hash: String,
        tracked_commitid: i32,
        tracked_size: i64,
    )
        requires
            old(self).wf(),
        ensures
            final(self).wf(),
            final(self).files() == files_with_target(
                old(self).files(),
                pid,
                path@,
                tracked_hash@,
                tracked_commitid,
                tracked_size,
            ),
            final(self).servers() == old(self).servers(),
            final(self).projects() == old(self).projects(),
    {
        let ghost before = self.files();
        match self.find_file(pid, &path) {
            Some(_) => {
                let ghost f = stage_at(pid, path@, tracked_hash@, tracked_commitid, tracked_size);
                let mut i: usize = 0;
                while i < self.files.len()
                    invariant
                        i <= self.files.len(),
                        self.files@.len() == before.len(),
                        self.servers() == old(self).servers(),
                        self.projects() == old(self).projects(),
                        f == stage_at(pid, path@, tracked_hash@, tracked_commitid, tracked_size),
                        forall|k: int| 0 <= k < i ==> (#[trigger] self.files@[k])@ == f(before[k]),
                        forall|k: int|
                            i <= k < before.len() ==> (#[trigger] self.files@[k])@ == before[k],
                    decreases self.files.len() - i,
                {
                    if self.files[i].pid == pid && self.files[i].filepath == path {
                        self.files[i].tracked_hash = tracked_hash.clone();
                        self.files[i].tracked_commitid = tracked_commitid;
                        self.files[i].tracked_size = tracked_size;
                    }
                    i += 1;
                }
                assert(self.files() =~= before.map_values(f));
                proof {
                    lemma_map_distinct(before, f, file_key());
                }
            },
            None => {
                let ghost row = staged(
                    blank_record(pid, path@),
                    tracked_hash@,
                    tracked_commitid,
                    tracked_size,
                );
                let record = FileRecord {
                    pid,
                    filepath: path,
                    base_hash: String::new(),
                    curr_hash: String::new(),
                    size: 0,
                    change_type: ChangeType::NoChange,
                    in_fs: false,
                    base_commitid: 0,
                    tracked_hash,
                    tracked_commitid,
                    tracked_size,
                };
                assert(record@ == row);
                self.files.push(record);
                assert(self.files() =~= before.push(row));
                proof {
                    assert forall|k: int| 0 <= k < before.len() implies file_key()(
                        #[trigger] before[k],
                    ) != file_key()(row) by {
                        assert(!file_is(pid, row.filepath)(before[k]));
                    }
                    lemma_push_distinct(before, row, file_key());
                }
            },
        }
    }

    /// Classifies what a scan observed for a path against the ledger and
    /// records the result.  `observed` is the hash and size of the file, or
    /// `None` where the file is not on disk.
    pub fn record_scan(&mut self, pid: i32, path: String, observed: Option<(&String, i64)>) -> (r:
        ChangeType)
        requires
            old(self).wf(),
        ensures
            final(self).wf(),
            r == change_on_scan(old(self).files(), pid, path@, observation_view(observed)),
            final(self).files() == files_after_scan(
                old(self).files(),
                pid,
                path@,
                observation_view(observed),
            ),
            final(self).servers() == old(self).servers(),
            final(self).projects() == old(self).projects(),
    {
        let found = self.find_file(pid, &path);
        match observed {
            Some(o) => {
                let change = match found {
                    Some(i) => {
                        let prior = PriorState {
                            base_hash: self.files[i].base_hash.clone(),
                            in_fs: self.files[i].in_fs,
                            change: self.files[i].change_type,
                        };
                        classify(Some(&prior), Some(o.0))
                    },
                    None => classify(None, Some(o.0)),
                };
                self.upsert_on_scan(pid, path, o.0.clone(), o.1, change);
                change
            },
            None => match found {
                Some(i) => {
                    let prior = PriorState {
                        base_hash: self.files[i].base_hash.clone(),
                        in_fs: self.files[i].in_fs,
                        change: self.files[i].change_type,
                    };
                    let change = classify(Some(&prior), None);
                    if self.files[i].in_fs {
                        let hash = self.files[i].curr_hash.clone();
                        let size = self.files[i].size;
                        self.upsert_on_scan(pid, path, hash, size, change);
                    }
                    change
                },
                None => classify(None, None),
            },
        }
    }

    /// Removes the record of a path.
    pub fn delete_file_entry(&mut self, pid: i32, path: String) -> (r: Result<bool, ()>)
        requires
            old(self).wf(),
        ensures
            final(self).wf(),
            r == Ok::<bool, ()>(true),
            final(self).files() == keep_where(old(self).files(), file_is_not(pid, path@)),
            final(self).servers() == old(self).servers(),
            final(self).projects() == old(self).projects(),
    {
        let ghost before = self.files();
        let mut kept: Vec<FileRecord> = Vec::new();
        assert(kept.deep_view() =~= Seq::<FileRecordView>::empty());
        assert(before.take(0) =~= Seq::<FileRecordView>::empty());
        let mut i: usize = 0;
        while i < self.files.len()
            invariant
                i <= self.files.len(),
                self.files() == before,
                kept.deep_view() == keep_where(before.take(i as int), file_is_not(pid, path@)),
            decreases self.files.len() - i,
        {
            let ghost so_far = kept.deep_view();
            assert(before.take(i as int + 1).drop_last() =~= before.take(i as int));
            assert(before.take(i as int + 1).last() == self.files[i as int]@);
            if !(self.files[i].pid == pid && self.files[i].filepath == path) {
                kept.push(self.files[i].clone());
                assert(kept.deep_view() =~= so_far.push(before[i as int]));
            }
            i += 1;
        }
        assert(before.take(before.len() as int) =~= before);
        self.files = kept;
        proof {
            lemma_keep_where_distinct(before, file_is_not(pid, path@), file_key());
        }
        Ok(true)
    }

    /// Removes the records of one project.
    pub fn clear_project_files(&mut self, pid: i32)
        requires
            old(self).wf(),
        ensures
            final(self).wf(),
            final(self).files() == keep_where(old(self).files(), file_not_of(pid)),
            final(self).servers() == old(self).servers(),
            final(self).projects() == old(self).projects(),
    {
        let ghost before = self.files();
        let mut kept: Vec<FileRecord> = Vec::new();
        assert(kept.deep_view() =~= Seq::<FileRecordView>::empty());
        assert(before.take(0) =~= Seq::<FileRecordView>::empty());
        let mut i: usize = 0;
        while i < self.files.len()
            invariant
                i <= self.files.len(),
                self.files() == before,
                kept.deep_view() == keep_where(before.take(i as int), file_not_of(pid)),
            decreases self.files.len() - i,
        {
            let ghost so_far = kept.deep_view();
            assert(before.take(i as int + 1).drop_last() =~= before.take(i as int));
            assert(before.take(i as int + 1).last() == self.files[i as int]@);
            if self.files[i].pid != pid {
                kept.push(self.files[i].clone());
                assert(kept.deep_view() =~= so_far.push(before[i as int]));
            }
            i += 1;
        }
        assert(before.take(before.len() as int) =~= before);
        self.files = kept;
        proof {
            lemma_keep_where_distinct(before, file_not_of(pid), file_key());
        }
    }

    /// Removes every record of the ledger.
    pub fn clear_file_table(&mut self) -> (r: Result<(), ()>)
        requires
            old(self).wf(),
        ensures
            final(self).wf(),
            r is Ok,
            final(self).files() == Seq::<FileRecordView>::empty(),
            final(self).servers() == old(self).servers(),
            final(self).projects() == old(self).projects(),
    {
        self.files = Vec::new();
        assert(self.files() =~= Seq::<FileRecordView>::empty());
        Ok(())
    }
}

/// Confirming a transfer twice is confirming it once.
pub proof fn lemma_confirming_twice(files: Seq<FileRecordView>, pid: i32, path: Seq<char>)
    ensures
        files.map_values(promote_at(pid, path)).map_values(promote_at(pid, path))
            == files.map_values(promote_at(pid, path)),
{
    assert(files.map_values(promote_at(pid, path)).map_values(promote_at(pid, path))
        =~= files.map_values(promote_at(pid, path)));
}

/// Removing a record twice is removing it once.
pub proof fn lemma_removing_twice(files: Seq<FileRecordView>, pid: i32, path: Seq<char>)
    ensures
        keep_where(keep_where(files, file_is_not(pid, path)), file_is_not(pid, path))
            == keep_where(files, file_is_not(pid, path)),
{
    lemma_keep_where_rows(files, file_is_not(pid, path));
    lemma_keep_where_all(keep_where(files, file_is_not(pid, path)), file_is_not(pid, path));
}

/// Recording the same observation twice is recording it once.
pub proof fn lemma_scanning_twice(
    files: Seq<FileRecordView>,
    pid: i32,
    path: Seq<char>,
    curr_hash: Seq<char>,
    size: i64,
    change: ChangeType,
)
    ensures
        files_with_scan(
            files_with_scan(files, pid, path, curr_hash, size, change),
            pid,
            path,
            curr_hash,
            size,
            change,
        ) == files_with_scan(files, pid, path, curr_hash, size, change),
{
    let f = scan_at(pid, path, curr_hash, size, change);
    let once = files_with_scan(files, pid, path, curr_hash, size, change);
    if any_where(files, file_is(pid, path)) {
        let i = choose|i: int| 0 <= i < files.len() && file_is(pid, path)(#[trigger] files[i]);
        assert(file_is(pid, path)(once[i]));
        assert(once.map_values(f) =~= once);
    } else {
        let row = scanned(blank_record(pid, path), curr_hash, size, change);
        assert(once[files.len() as int] == row);
        assert(file_is(pid, path)(once[files.len() as int]));
        assert forall|k: int| 0 <= k < once.len() implies #[trigger] once.map_values(f)[k]
            == once[k] by {
            if k < files.len() {
                assert(once[k] == files[k]);
                assert(!file_is(pid, path)(files[k]));
            }
        }
        assert(once.map_values(f) =~= once);
    }
}

/// Staging the same target twice is staging it once.
pub proof fn lemma_staging_twice(
    files: Seq<FileRecordView>,
    pid: i32,
    path: Seq<char>,
    hash: Seq<char>,
    commitid: i32,
    size: i64,
)
    ensures
        files_with_target(
            files_with_target(files, pid, path, hash, commitid, size),
            pid,
            path,
            hash,
            commitid,
            size,
        ) == files_with_target(files, pid, path, hash, commitid, size),
{
    let f = stage_at(pid, path, hash, commitid, size);
    let once = files_with_target(files, pid, path, hash, commitid, size);
    if any_where(files, file_is(pid, path)) {
        let i = choose|i: int| 0 <= i < files.len() && file_is(pid, path)(#[trigger] files[i]);
        assert(file_is(pid, path)(once[i]));
        assert(once.map_values(f) =~= once);
    } else {
        let row = staged(blank_record(pid, path), hash, commitid, size);
        assert(once[files.len() as int] == row);
        assert(file_is(pid, path)(once[files.len() as int]));
        assert forall|k: int| 0 <= k < once.len() implies #[trigger] once.map_values(f)[k]
            == once[k] by {
            if k < files.len() {
                assert(once[k] == files[k]);
                assert(!file_is(pid, path)(files[k]));
            }
        }
        assert(once.map_values(f) =~= once);
    }
}

/// Staging the target of a transfer leaves the confirmed state of every
/// record as it was: its base hash, its current hash, its size, its change
/// and whether it is on disk.
pub proof fn lemma_staging_keeps_confirmed_state(
    files: Seq<FileRecordView>,
    pid: i32,
    path: Seq<char>,
    hash: Seq<char>,
    commitid: i32,
    size: i64,
    i: int,
)
    requires
        0 <= i < files.len(),
    ensures
        ({
            let after = files_with_target(files, pid, path, hash, commitid, size)[i];
            &&& after.base_hash == files[i].base_hash
            &&& after.curr_hash == files[i].curr_hash
            &&& after.size == files[i].size
            &&& after.change_type == files[i].change_type
            &&& after.in_fs == files[i].in_fs
            &&& after.base_commitid == files[i].base_commitid
        }),
{
}

/// The record of a path after an observation was recorded for it: the record
/// it had, or a blank one, with the observed hash and size and the change.
/// Its base hash is the one it had.
pub proof fn lemma_record_after_scan(
    files: Seq<FileRecordView>,
    pid: i32,
    path: Seq<char>,
    curr_hash: Seq<char>,
    size: i64,
    change: ChangeType,
)
    ensures
        first_where(files_with_scan(files, pid, path, curr_hash, size, change), file_is(pid, path))
            == Some(
            scanned(
                match first_where(files, file_is(pid, path)) {
                    Some(r) => r,
                    None => blank_record(pid, path),
                },
                curr_hash,
                size,
                change,
            ),
        ),
{
    let pred = file_is(pid, path);
    lemma_first_where(files, pred);
    if any_where(files, pred) {
        lemma_first_where_map(files, scan_at(pid, path, curr_hash, size, change), pred);
    } else {
        lemma_first_where_push(
            files,
            scanned(blank_record(pid, path), curr_hash, size, change),
            pred,
        );
    }
}

/// The record of a path after its transfer was confirmed: the staged values
/// have become the base and the current state.  A path without a record has
/// none afterwards.
pub proof fn lemma_record_after_confirming(files: Seq<FileRecordView>, pid: i32, path: Seq<char>)
    ensures
        first_where(files.map_values(promote_at(pid, path)), file_is(pid, path)) == match first_where(
            files,
            file_is(pid, path),
        ) {
            Some(r) => Some(promoted(r)),
            None => None,
        },
{
    lemma_first_where(files, file_is(pid, path));
    lemma_first_where_map(files, promote_at(pid, path), file_is(pid, path));
}

} // verus!
