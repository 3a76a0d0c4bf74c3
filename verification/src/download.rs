//! The download side of the transfer engine: which requests need the network,
//! in which order manifests and chunks are fetched under two independent
//! bounds, what is written to disk once the cache is filled, and how the
//! ledger is brought up to date afterwards.
use crate::cache::{
    assemble_spec, block_hashes, AssemblyError, ContentCache, FileChunk, FileChunkView,
};
use crate::dal::{
    call_url, file_is_not, project_dir_of, promote_at, promoted, server_is_active,
    DataAccessLayer, FileRecordView,
};
use crate::table::{
    any_where, comes_from, distinct_by, filter_map, first_where, keep_where,
    lemma_filter_map_rows, lemma_filter_map_twice, lemma_keep_is_filter_map,
    lemma_map_is_filter_map, lemma_push_distinct,
};
use crate::text::{concat3, text_is};
use vstd::prelude::*;
use vstd::string::*;

verus! {

/// How many manifest requests may be under way at once.
pub const CONCURRENT_SERVER_REQUESTS: usize = 2;

/// How many chunk fetches may be under way at once.
pub const CONCURRENT_AWS_REQUESTS: usize = 4;

/// One entry of a bulk download: a path of the project, the hash and commit
/// of the content it is to have, and whether it is to be downloaded or, if
/// not, deleted.
pub struct DownloadRequestMessage {
    pub rel_path: String,
    pub hash: String,
    pub commit_id: i32,
    pub download: bool,
}

pub struct DownloadRequestMessageView {
    pub rel_path: Seq<char>,
    pub hash: Seq<char>,
    pub commit_id: i32,
    pub download: bool,
}

impl View for DownloadRequestMessage {
    type V = DownloadRequestMessageView;

    open spec fn view(&self) -> DownloadRequestMessageView {
        DownloadRequestMessageView {
            rel_path: self.rel_path@,
            hash: self.hash@,
            commit_id: self.commit_id,
            download: self.download,
        }
    }
}

impl DeepView for DownloadRequestMessage {
    type V = DownloadRequestMessageView;

    open spec fn deep_view(&self) -> DownloadRequestMessageView {
        self@
    }
}

impl Clone for DownloadRequestMessage {
    fn clone(&self) -> (r: Self)
        ensures
            r == *self,
    {
        DownloadRequestMessage {
            rel_path: self.rel_path.clone(),
            hash: self.hash.clone(),
            commit_id: self.commit_id,
            download: self.download,
        }
    }
}

/// The body of a manifest request.
pub struct DownloadRequest {
    pub project_id: i64,
    pub path: String,
    pub commit_id: i32,
}

pub struct DownloadRequestView {
    pub project_id: i64,
    pub path: Seq<char>,
    pub commit_id: i32,
}

impl View for DownloadRequest {
    type V = DownloadRequestView;

    open spec fn view(&self) -> DownloadRequestView {
        DownloadRequestView {
            project_id: self.project_id,
            path: self.path@,
            commit_id: self.commit_id,
        }
    }
}

/// The manifest of one file: its hash and its chunks in order.
pub struct DownloadInformation {
    pub file_hash: String,
    pub file_chunks: Vec<FileChunk>,
}

pub struct DownloadInformationView {
    pub file_hash: Seq<char>,
    pub file_chunks: Seq<FileChunkView>,
}

impl View for DownloadInformation {
    type V = DownloadInformationView;

    open spec fn view(&self) -> DownloadInformationView {
        DownloadInformationView {
            file_hash: self.file_hash@,
            file_chunks: self.file_chunks.deep_view(),
        }
    }
}

/// The answer to a manifest request.
pub struct DownloadServerOutput {
    pub response: String,
    pub body: Option<DownloadInformation>,
}

pub struct DownloadServerOutputView {
    pub response: Seq<char>,
    pub body: Option<DownloadInformationView>,
}

impl View for DownloadServerOutput {
    type V = DownloadServerOutputView;

    open spec fn view(&self) -> DownloadServerOutputView {
        DownloadServerOutputView {
            response: self.response@,
            body: match self.body {
                Some(info) => Some(info@),
                None => None,
            },
        }
    }
}

/// Why a manifest could not be had.
#[derive(Clone, Copy, Debug, PartialEq, Eq, Structural)]
pub enum ManifestFailure {
    /// The service answered, but not with a manifest.
    Server,
    /// The request did not get through.
    Transport,
}

/// The manifest that an answer carries: it says `success` and has a body.
pub open spec fn manifest_of(output: DownloadServerOutputView) -> Option<DownloadInformationView> {
    if output.response == "success"@ {
        output.body
    } else {
        None
    }
}

/// The kind of failure that an answer without a manifest stands for.
pub open spec fn failure_of(output: DownloadServerOutputView) -> ManifestFailure {
    if output.response == "reqwest error"@ {
        ManifestFailure::Transport
    } else {
        ManifestFailure::Server
    }
}

/// The answer that stands for a failed manifest request.
pub fn failed_output(failure: ManifestFailure) -> (r: DownloadServerOutput)
    ensures
        r@.body is None,
        r@.response == match failure {
            ManifestFailure::Server => "server error"@,
            ManifestFailure::Transport => "reqwest error"@,
        },
        manifest_of(r@) is None,
        failure_of(r@) == failure,
{
    proof {
        reveal_strlit("server error");
        reveal_strlit("reqwest error");
        reveal_strlit("success");
    }
    let response = match failure {
        ManifestFailure::Server => String::from_str("server error"),
        ManifestFailure::Transport => String::from_str("reqwest error"),
    };
    assert(response@.len() != "success"@.len());
    assert("server error"@[0] != "reqwest error"@[0]);
    DownloadServerOutput { response, body: None }
}

/// Reads an answer: the manifest it carries, or the kind of failure.
pub fn read_output(output: &DownloadServerOutput) -> (r: Result<
    &DownloadInformation,
    ManifestFailure,
>)
    ensures
        match r {
            Ok(info) => manifest_of(output@) == Some(info@),
            Err(failure) => manifest_of(output@) is None && failure == failure_of(output@),
        },
{
    let failure = if text_is(&output.response, "reqwest error") {
        ManifestFailure::Transport
    } else {
        ManifestFailure::Server
    };
    if text_is(&output.response, "success") {
        match &output.body {
            Some(info) => Ok(info),
            None => Err(failure),
        }
    } else {
        Err(failure)
    }
}

/// The address that manifests are requested from.
pub fn manifest_endpoint(server_url: &String) -> (r: String)
    ensures
        r@ == server_url@ + "/store/download"@,
{
    let mut out = server_url.clone();
    out.append("/store/download");
    out
}

/// The directory of the cache that holds what belongs to the file `hash`.
pub fn cache_entry_dir(cache_dir: &String, hash: &String) -> (r: String)
    ensures
        r@ == cache_dir@ + "/"@ + hash@,
{
    concat3(cache_dir, "/", hash)
}

/// The file of the cache that holds the chunk list of the file `hash`.
pub fn mapping_path(cache_dir: &String, hash: &String) -> (r: String)
    ensures
        r@ == cache_dir@ + "/"@ + hash@ + "/mapping.json"@,
{
    let mut out = concat3(cache_dir, "/", hash);
    out.append("/mapping.json");
    out
}

/// The file of the cache that holds a chunk.
pub fn chunk_path(cache_dir: &String, chunk: &FileChunk) -> (r: String)
    ensures
        r@ == cache_dir@ + "/"@ + chunk.file_hash@ + "/"@ + chunk.block_hash@,
{
    let dir = concat3(cache_dir, "/", &chunk.file_hash);
    concat3(&dir, "/", &chunk.block_hash)
}

/// The place on disk of a path of a project.
pub fn project_file_path(project_dir: &String, rel_path: &String) -> (r: String)
    ensures
        r@ == project_dir@ + "/"@ + rel_path@,
{
    concat3(project_dir, "/", rel_path)
}

/// The file to remove from disk for a path of the project `pid`, or `None`
/// where the directory of the project cannot be told.
pub fn delete_file(pid: i32, rel_path: &String, dal: &DataAccessLayer) -> (r: Option<String>)
    ensures
        match r {
            Some(path) => project_dir_of(dal.servers(), dal.projects(), pid).len() > 0 && path@
                == project_dir_of(dal.servers(), dal.projects(), pid) + "/"@ + rel_path@,
            None => project_dir_of(dal.servers(), dal.projects(), pid).len() == 0,
        },
{
    let project_dir = match dal.get_project_dir(pid) {
        Ok(dir) => dir,
        Err(_) => String::new(),
    };
    if project_dir.as_str().is_empty() {
        None
    } else {
        Some(project_file_path(&project_dir, rel_path))
    }
}

/// Deletes a path of the project `pid`: gives the file to remove from disk
/// and forgets the path in the ledger.  Where the directory of the project
/// cannot be told there is nothing to remove and the ledger stays as it is.
pub fn delete_file_cmd(pid: i32, rel_path: String, dal: &mut DataAccessLayer) -> (r: Option<String>)
    requires
        old(dal).wf(),
    ensures
        final(dal).wf(),
        final(dal).servers() == old(dal).servers(),
        final(dal).projects() == old(dal).projects(),
        match r {
            Some(path) => {
                &&& project_dir_of(old(dal).servers(), old(dal).projects(), pid).len() > 0
                &&& path@ == project_dir_of(old(dal).servers(), old(dal).projects(), pid) + "/"@
                    + rel_path@
                &&& final(dal).files() == keep_where(old(dal).files(), file_is_not(pid, rel_path@))
            },
            None => {
                &&& project_dir_of(old(dal).servers(), old(dal).projects(), pid).len() == 0
                &&& final(dal).files() == old(dal).files()
            },
        },
{
    let target = delete_file(pid, &rel_path, dal);
    if target.is_some() {
        let _ = dal.delete_file_entry(pid, rel_path);
    }
    target
}

pub open spec fn needs_manifest(mappings: Map<Seq<char>, Seq<Seq<char>>>) -> spec_fn(
    DownloadRequestMessageView,
) -> bool {
    |f: DownloadRequestMessageView| f.download && !mappings.contains_key(f.hash)
}

pub open spec fn is_cached(mappings: Map<Seq<char>, Seq<Seq<char>>>) -> spec_fn(
    DownloadRequestMessageView,
) -> bool {
    |f: DownloadRequestMessageView| f.download && mappings.contains_key(f.hash)
}

pub open spec fn is_deletion() -> spec_fn(DownloadRequestMessageView) -> bool {
    |f: DownloadRequestMessageView| !f.download
}

pub open spec fn has_hash(hash: Seq<char>) -> spec_fn(DownloadRequestMessageView) -> bool {
    |f: DownloadRequestMessageView| f.hash == hash
}

pub open spec fn request_hash() -> spec_fn(DownloadRequestMessageView) -> Seq<char> {
    |f: DownloadRequestMessageView| f.hash
}

/// The requests that a manifest is asked for: of the downloads whose content
/// the cache lacks, the first for each content hash, in the order given.  A
/// later download of the same content waits for that one.
pub open spec fn manifest_queue_of(
    files: Seq<DownloadRequestMessageView>,
    mappings: Map<Seq<char>, Seq<Seq<char>>>,
) -> Seq<DownloadRequestMessageView>
    decreases files.len(),
{
    if files.len() == 0 {
        Seq::empty()
    } else {
        let front = manifest_queue_of(files.drop_last(), mappings);
        if needs_manifest(mappings)(files.last()) && !any_where(
            front,
            has_hash(files.last().hash),
        ) {
            front.push(files.last())
        } else {
            front
        }
    }
}

pub open spec fn chunk_is(file_hash: Seq<char>, block_hash: Seq<char>) -> spec_fn(FileChunkView)
    -> bool {
    |c: FileChunkView| c.file_hash == file_hash && c.block_hash == block_hash
}

pub open spec fn chunk_key() -> spec_fn(FileChunkView) -> (Seq<char>, Seq<char>) {
    |c: FileChunkView| (c.file_hash, c.block_hash)
}

/// The chunk queue after the chunks of a manifest came in: each incoming
/// chunk is added at the end, in order, unless the cache holds it or the
/// queue has it already.
pub open spec fn queue_after(
    queue: Seq<FileChunkView>,
    incoming: Seq<FileChunkView>,
    held: Map<(Seq<char>, Seq<char>), Seq<u8>>,
) -> Seq<FileChunkView>
    decreases incoming.len(),
{
    if incoming.len() == 0 {
        queue
    } else {
        let so_far = queue_after(queue, incoming.drop_last(), held);
        let c = incoming.last();
        if held.contains_key((c.file_hash, c.block_hash)) || any_where(
            so_far,
            chunk_is(c.file_hash, c.block_hash),
        ) {
            so_far
        } else {
            so_far.push(c)
        }
    }
}

proof fn lemma_manifest_queue_distinct(
    files: Seq<DownloadRequestMessageView>,
    mappings: Map<Seq<char>, Seq<Seq<char>>>,
)
    ensures
        distinct_by(manifest_queue_of(files, mappings), request_hash()),
    decreases files.len(),
{
    if files.len() > 0 {
        let front = manifest_queue_of(files.drop_last(), mappings);
        lemma_manifest_queue_distinct(files.drop_last(), mappings);
        let f = files.last();
        if needs_manifest(mappings)(f) && !any_where(front, has_hash(f.hash)) {
            assert forall|i: int| 0 <= i < front.len() implies request_hash()(#[trigger] front[i])
                != request_hash()(f) by {
                assert(!has_hash(f.hash)(front[i]));
            }
            lemma_push_distinct(front, f, request_hash());
        }
    }
}

proof fn lemma_queue_after(
    queue: Seq<FileChunkView>,
    incoming: Seq<FileChunkView>,
    held: Map<(Seq<char>, Seq<char>), Seq<u8>>,
)
    requires
        distinct_by(queue, chunk_key()),
    ensures
        distinct_by(queue_after(queue, incoming, held), chunk_key()),
        queue_after(queue, incoming, held).len() >= queue.len(),
        queue_after(queue, incoming, held).take(queue.len() as int) == queue,
        forall|k: int|
            queue.len() <= k < queue_after(queue, incoming, held).len() ==> !held.contains_key(
                chunk_key()(#[trigger] queue_after(queue, incoming, held)[k]),
            ),
    decreases incoming.len(),
{
    if incoming.len() == 0 {
        assert(queue.take(queue.len() as int) =~= queue);
    } else {
        let so_far = queue_after(queue, incoming.drop_last(), held);
        lemma_queue_after(queue, incoming.drop_last(), held);
        let c = incoming.last();
        let after = queue_after(queue, incoming, held);
        if !(held.contains_key((c.file_hash, c.block_hash)) || any_where(
            so_far,
            chunk_is(c.file_hash, c.block_hash),
        )) {
            assert forall|i: int| 0 <= i < so_far.len() implies chunk_key()(#[trigger] so_far[i])
                != chunk_key()(c) by {
                assert(!chunk_is(c.file_hash, c.block_hash)(so_far[i]));
            }
            lemma_push_distinct(so_far, c, chunk_key());
            assert(after.take(queue.len() as int) =~= so_far.take(queue.len() as int));
            assert forall|k: int| queue.len() <= k < after.len() implies !held.contains_key(
                chunk_key()(#[trigger] after[k]),
            ) by {
                if k < so_far.len() {
                    assert(after[k] == so_far[k]);
                }
            }
        }
    }
}

/// The requests of a bulk download, sorted by what they need.
pub struct DownloadPlan {
    /// The downloads that a manifest is asked for: the first for each content
    /// hash that the cache lacks.
    pub to_download: Vec<DownloadRequestMessage>,
    /// The paths to delete.
    pub to_delete: Vec<DownloadRequestMessage>,
    /// How many downloads the cache can serve without the network.
    pub cached: usize,
}

fn hash_is_queued(queue: &Vec<DownloadRequestMessage>, hash: &String) -> (r: bool)
    ensures
        r == any_where(queue.deep_view(), has_hash(hash@)),
{
    let mut i: usize = 0;
    while i < queue.len()
        invariant
            i <= queue.len(),
            forall|j: int| 0 <= j < i ==> !has_hash(hash@)(#[trigger] queue.deep_view()[j]),
        decreases queue.len() - i,
    {
        if queue[i].hash == *hash {
            assert(has_hash(hash@)(queue.deep_view()[i as int]));
            return true;
        }
        i += 1;
    }
    false
}

fn chunk_is_queued(queue: &Vec<FileChunk>, chunk: &FileChunk) -> (r: bool)
    ensures
        r == any_where(queue.deep_view(), chunk_is(chunk.file_hash@, chunk.block_hash@)),
{
    let mut i: usize = 0;
    while i < queue.len()
        invariant
            i <= queue.len(),
            forall|j: int|
                0 <= j < i ==> !chunk_is(chunk.file_hash@, chunk.block_hash@)(
                    #[trigger] queue.deep_view()[j],
                ),
        decreases queue.len() - i,
    {
        if queue[i].file_hash == chunk.file_hash && queue[i].block_hash == chunk.block_hash {
            assert(chunk_is(chunk.file_hash@, chunk.block_hash@)(queue.deep_view()[i as int]));
            return true;
        }
        i += 1;
    }
    false
}

/// Sorts the requests of a bulk download into those that the cache can
/// serve, those that a manifest is asked for and those that delete a path.
pub fn plan_downloads(files: &Vec<DownloadRequestMessage>, cache: &ContentCache) -> (r:
    DownloadPlan)
    ensures
        r.to_download.deep_view() == manifest_queue_of(files.deep_view(), cache.mappings()),
        r.to_delete.deep_view() == keep_where(files.deep_view(), is_deletion()),
        r.cached == keep_where(files.deep_view(), is_cached(cache.mappings())).len(),
{
    let ghost all = files.deep_view();
    let ghost m = cache.mappings();
    let mut to_download: Vec<DownloadRequestMessage> = Vec::new();
    let mut to_delete: Vec<DownloadRequestMessage> = Vec::new();
    let mut cached: usize = 0;
    assert(to_download.deep_view() =~= Seq::<DownloadRequestMessageView>::empty());
    assert(to_delete.deep_view() =~= Seq::<DownloadRequestMessageView>::empty());
    assert(all.take(0) =~= Seq::<DownloadRequestMessageView>::empty());
    let mut i: usize = 0;
    while i < files.len()
        invariant
            i <= files.len(),
            all == files.deep_view(),
            m == cache.mappings(),
            to_download.deep_view() == manifest_queue_of(all.take(i as int), m),
            to_delete.deep_view() == keep_where(all.take(i as int), is_deletion()),
            cached == keep_where(all.take(i as int), is_cached(m)).len(),
            cached <= i,
        decreases files.len() - i,
    {
        let ghost downloads = to_download.deep_view();
        let ghost deletions = to_delete.deep_view();
        assert(all.take(i as int + 1).drop_last() =~= all.take(i as int));
        assert(all.take(i as int + 1).last() == files[i as int]@);
        if files[i].download {
            if cache.has(&files[i].hash) {
                cached += 1;
            } else if !hash_is_queued(&to_download, &files[i].hash) {
                to_download.push(files[i].clone());
                assert(to_download.deep_view() =~= downloads.push(files[i as int]@));
            }
        } else {
            to_delete.push(files[i].clone());
            assert(to_delete.deep_view() =~= deletions.push(files[i as int]@));
        }
        i += 1;
    }
    assert(all.take(files.len() as int) =~= all);
    DownloadPlan { to_download, to_delete, cached }
}

/// The body of the manifest request for one entry of a bulk download.
pub open spec fn request_for(pid: i32, file: DownloadRequestMessageView) -> DownloadRequestView {
    DownloadRequestView { project_id: pid as i64, path: file.rel_path, commit_id: file.commit_id }
}

/// Builds the body of the manifest request for one entry of a bulk download.
pub fn manifest_request(pid: i32, file: &DownloadRequestMessage) -> (r: DownloadRequest)
    ensures
        r@ == request_for(pid, file@),
{
    DownloadRequest { project_id: pid as i64, path: file.rel_path.clone(), commit_id: file.commit_id }
}

/// A bulk download under way.
///
/// Manifests are requested for the entries of `manifest_queue` in order, and
/// chunks are fetched for the entries of `chunk_queue` in order.  Each queue
/// has its own count of requests under way and its own bound on that count.
pub struct DownloadSession {
    pid: i32,
    endpoint: String,
    project_dir: String,
    requests: Vec<DownloadRequestMessage>,
    cached: usize,
    manifest_queue: Vec<DownloadRequestMessage>,
    manifests_started: usize,
    manifests_in_flight: usize,
    manifest_failures: usize,
    chunk_queue: Vec<FileChunk>,
    chunks_started: usize,
    chunks_in_flight: usize,
    chunk_failures: usize,
}

/// What a session holds: the project, the address that manifests are
/// requested from, the directory of the project on disk, all entries of the
/// bulk download as they were given, how many downloads the cache could
/// serve from the start, and for manifests and for chunks the queue, how
/// many of its entries were started, how many requests are under way and
/// how many failed.
pub struct DownloadSessionView {
    pub pid: i32,
    pub endpoint: Seq<char>,
    pub project_dir: Seq<char>,
    pub requests: Seq<DownloadRequestMessageView>,
    pub cached: usize,
    pub manifest_queue: Seq<DownloadRequestMessageView>,
    pub manifests_started: usize,
    pub manifests_in_flight: usize,
    pub manifest_failures: usize,
    pub chunk_queue: Seq<FileChunkView>,
    pub chunks_started: usize,
    pub chunks_in_flight: usize,
    pub chunk_failures: usize,
}

impl View for DownloadSession {
    type V = DownloadSessionView;

    closed spec fn view(&self) -> DownloadSessionView {
        DownloadSessionView {
            pid: self.pid,
            endpoint: self.endpoint@,
            project_dir: self.project_dir@,
            requests: self.requests.deep_view(),
            cached: self.cached,
            manifest_queue: self.manifest_queue.deep_view(),
            manifests_started: self.manifests_started,
            manifests_in_flight: self.manifests_in_flight,
            manifest_failures: self.manifest_failures,
            chunk_queue: self.chunk_queue.deep_view(),
            chunks_started: self.chunks_started,
            chunks_in_flight: self.chunks_in_flight,
            chunk_failures: self.chunk_failures,
        }
    }
}

/// What the caller is to do next for a bulk download.
pub enum DownloadAction {
    /// Request this manifest.
    FetchManifest(DownloadRequest),
    /// Fetch this chunk.
    FetchChunk(FileChunk),
    /// Nothing can be started before a request under way has ended.
    Wait,
    /// Nothing is left to fetch and nothing is under way.
    Finished,
}

/// A session is well formed: neither count of requests under way exceeds
/// its bound, each queue has started no more entries than it holds and has
/// ended no more than it started, no content hash is queued for a manifest
/// twice and no chunk is queued for fetching twice.
pub open spec fn session_wf(s: DownloadSessionView) -> bool {
    &&& distinct_by(s.manifest_queue, request_hash())
    &&& distinct_by(s.chunk_queue, chunk_key())
    &&& s.manifests_in_flight <= CONCURRENT_SERVER_REQUESTS
    &&& s.manifests_started <= s.manifest_queue.len()
    &&& s.manifest_failures + s.manifests_in_flight <= s.manifests_started
    &&& s.chunks_in_flight <= CONCURRENT_AWS_REQUESTS
    &&& s.chunks_started <= s.chunk_queue.len()
    &&& s.chunk_failures + s.chunks_in_flight <= s.chunks_started
}

/// Whether a manifest request can be started: one is waiting and the bound on
/// manifest requests leaves room.  Chunk fetches have no say in it.
pub open spec fn can_start_manifest(s: DownloadSessionView) -> bool {
    s.manifests_started < s.manifest_queue.len() && s.manifests_in_flight
        < CONCURRENT_SERVER_REQUESTS
}

/// Whether a chunk fetch can be started: one is waiting and the bound on
/// chunk fetches leaves room.  Manifest requests have no say in it.
pub open spec fn can_start_chunk(s: DownloadSessionView) -> bool {
    s.chunks_started < s.chunk_queue.len() && s.chunks_in_flight < CONCURRENT_AWS_REQUESTS
}

/// The session after a manifest arrived for a request that was under way.
/// `held` is what the cache holds of chunks: of the chunks of the manifest,
/// those are queued that the cache lacks and the queue does not have.
pub open spec fn after_manifest(
    s: DownloadSessionView,
    output: DownloadServerOutputView,
    held: Map<(Seq<char>, Seq<char>), Seq<u8>>,
) -> DownloadSessionView {
    match manifest_of(output) {
        Some(info) => DownloadSessionView {
            manifests_in_flight: (s.manifests_in_flight - 1) as usize,
            chunk_queue: queue_after(s.chunk_queue, info.file_chunks, held),
            ..s
        },
        None => DownloadSessionView {
            manifests_in_flight: (s.manifests_in_flight - 1) as usize,
            manifest_failures: (s.manifest_failures + 1) as usize,
            ..s
        },
    }
}

/// The chunk lists of the cache after a manifest arrived.
pub open spec fn mappings_after_manifest(
    mappings: Map<Seq<char>, Seq<Seq<char>>>,
    output: DownloadServerOutputView,
) -> Map<Seq<char>, Seq<Seq<char>>> {
    match manifest_of(output) {
        Some(info) => if mappings.contains_key(info.file_hash) {
            mappings
        } else {
            mappings.insert(info.file_hash, block_hashes(info.file_chunks))
        },
        None => mappings,
    }
}

/// The session after a chunk fetch that was under way ended.
pub open spec fn after_chunk(s: DownloadSessionView, fetched: bool) -> DownloadSessionView {
    if fetched {
        DownloadSessionView { chunks_in_flight: (s.chunks_in_flight - 1) as usize, ..s }
    } else {
        DownloadSessionView {
            chunks_in_flight: (s.chunks_in_flight - 1) as usize,
            chunk_failures: (s.chunk_failures + 1) as usize,
            ..s
        }
    }
}

/// The chunks of the cache after a chunk fetch ended.
pub open spec fn chunks_after_fetch(
    chunks: Map<(Seq<char>, Seq<char>), Seq<u8>>,
    chunk: FileChunkView,
    body: Option<Seq<u8>>,
) -> Map<(Seq<char>, Seq<char>), Seq<u8>> {
    match body {
        Some(bytes) => if chunks.contains_key((chunk.file_hash, chunk.block_hash)) {
            chunks
        } else {
            chunks.insert((chunk.file_hash, chunk.block_hash), bytes)
        },
        None => chunks,
    }
}

pub open spec fn bytes_view(body: Option<Vec<u8>>) -> Option<Seq<u8>> {
    match body {
        Some(bytes) => Some(bytes@),
        None => None,
    }
}

/// Starts a bulk download for the project `pid`.
///
/// There is nothing to start, and `None` is returned, where no server is
/// active or the directory of the project cannot be told.  Otherwise the
/// session knows where to ask for manifests and where the project lies, and
/// queues one manifest request for each content hash that the cache cannot
/// serve.
pub fn download_files(
    pid: i32,
    files: Vec<DownloadRequestMessage>,
    dal: &DataAccessLayer,
    cache: &ContentCache,
) -> (r: Option<DownloadSession>)
    ensures
        ({
            let server = first_where(dal.servers(), server_is_active());
            let project_dir = project_dir_of(dal.servers(), dal.projects(), pid);
            match r {
                None => server is None || call_url(server->0).len() == 0 || project_dir.len() == 0,
                Some(s) => {
                    &&& server is Some
                    &&& call_url(server->0).len() > 0
                    &&& project_dir.len() > 0
                    &&& session_wf(s@)
                    &&& s@ == DownloadSessionView {
                        pid,
                        endpoint: call_url(server->0) + "/store/download"@,
                        project_dir,
                        requests: files.deep_view(),
                        cached: keep_where(files.deep_view(), is_cached(cache.mappings())).len() as usize,
                        manifest_queue: manifest_queue_of(
                            files.deep_view(),
                            cache.mappings(),
                        ),
                        manifests_started: 0,
                        manifests_in_flight: 0,
                        manifest_failures: 0,
                        chunk_queue: Seq::empty(),
                        chunks_started: 0,
                        chunks_in_flight: 0,
                        chunk_failures: 0,
                    }
                },
            }
        }),
{
    let server_url = match dal.get_current_server() {
        Ok(url) => url,
        Err(_) => String::new(),
    };
    let project_dir = match dal.get_project_dir(pid) {
        Ok(dir) => dir,
        Err(_) => String::new(),
    };
    if project_dir.as_str().is_empty() || server_url.as_str().is_empty() {
        return None;
    }
    let plan = plan_downloads(&files, cache);
    let chunk_queue: Vec<FileChunk> = Vec::new();
    assert(chunk_queue.deep_view() =~= Seq::<FileChunkView>::empty());
    proof {
        lemma_manifest_queue_distinct(files.deep_view(), cache.mappings());
    }
    Some(
        DownloadSession {
            pid,
            endpoint: manifest_endpoint(&server_url),
            project_dir,
            requests: files,
            cached: plan.cached,
            manifest_queue: plan.to_download,
            manifests_started: 0,
            manifests_in_flight: 0,
            manifest_failures: 0,
            chunk_queue,
            chunks_started: 0,
            chunks_in_flight: 0,
            chunk_failures: 0,
        },
    )
}

impl DownloadSession {
    /// The address that manifests are requested from.
    pub fn endpoint(&self) -> (r: &String)
        ensures
            r@ == self@.endpoint,
    {
        &self.endpoint
    }

    /// The directory of the project on disk.
    pub fn project_dir(&self) -> (r: &String)
        ensures
            r@ == self@.project_dir,
    {
        &self.project_dir
    }

    /// How many downloads the cache could serve from the start.
    pub fn cached(&self) -> (r: usize)
        ensures
            r == self@.cached,
    {
        self.cached
    }

    /// How many manifest requests are under way.
    pub fn manifests_in_flight(&self) -> (r: usize)
        ensures
            r == self@.manifests_in_flight,
    {
        self.manifests_in_flight
    }

    /// How many chunk fetches are under way.
    pub fn chunks_in_flight(&self) -> (r: usize)
        ensures
            r == self@.chunks_in_flight,
    {
        self.chunks_in_flight
    }

    /// How many manifest requests ended without a manifest.
    pub fn manifest_failures(&self) -> (r: usize)
        ensures
            r == self@.manifest_failures,
    {
        self.manifest_failures
    }

    /// How many chunk fetches failed.
    pub fn chunk_failures(&self) -> (r: usize)
        ensures
            r == self@.chunk_failures,
    {
        self.chunk_failures
    }

    /// Decides what to do next.  A manifest request is started where one can
    /// be; else a chunk fetch where one can be; else the caller waits for a
    /// request under way, or is done where there is none.
    pub fn next_action(&mut self) -> (r: DownloadAction)
        requires
            session_wf(old(self)@),
        ensures
            session_wf(final(self)@),
            if can_start_manifest(old(self)@) {
                &&& r matches DownloadAction::FetchManifest(request)
                &&& request@ == request_for(
                    old(self)@.pid,
                    old(self)@.manifest_queue[old(self)@.manifests_started as int],
                )
                &&& final(self)@ == (DownloadSessionView {
                    manifests_started: (old(self)@.manifests_started + 1) as usize,
                    manifests_in_flight: (old(self)@.manifests_in_flight + 1) as usize,
                    ..old(self)@
                })
            } else if can_start_chunk(old(self)@) {
                &&& r matches DownloadAction::FetchChunk(chunk)
                &&& chunk@ == old(self)@.chunk_queue[old(self)@.chunks_started as int]
                &&& final(self)@ == (DownloadSessionView {
                    chunks_started: (old(self)@.chunks_started + 1) as usize,
                    chunks_in_flight: (old(self)@.chunks_in_flight + 1) as usize,
                    ..old(self)@
                })
            } else {
                &&& final(self)@ == old(self)@
                &&& if old(self)@.manifests_in_flight > 0 || old(self)@.chunks_in_flight > 0 {
                    r is Wait
                } else {
                    r is Finished
                }
            },
    {
        if self.manifests_started < self.manifest_queue.len() && self.manifests_in_flight
            < CONCURRENT_SERVER_REQUESTS {
            let request = manifest_request(self.pid, &self.manifest_queue[self.manifests_started]);
            self.manifests_started = self.manifests_started + 1;
            self.manifests_in_flight = self.manifests_in_flight + 1;
            DownloadAction::FetchManifest(request)
        } else if self.chunks_started < self.chunk_queue.len() && self.chunks_in_flight
            < CONCURRENT_AWS_REQUESTS {
            let chunk = self.chunk_queue[self.chunks_started].clone();
            self.chunks_started = self.chunks_started + 1;
            self.chunks_in_flight = self.chunks_in_flight + 1;
            DownloadAction::FetchChunk(chunk)
        } else if self.manifests_in_flight > 0 || self.chunks_in_flight > 0 {
            DownloadAction::Wait
        } else {
            DownloadAction::Finished
        }
    }

    /// Takes the answer to a manifest request.  An answer that comes while no
    /// manifest request is under way is turned away and changes nothing.
    /// Otherwise a manifest is kept in the cache at once, and those of its
    /// chunks are queued that the cache lacks and the queue does not have; an
    /// answer without a manifest is counted as a failure and the download
    /// goes on with the other files.
    pub fn manifest_arrived(&mut self, output: DownloadServerOutput, cache: &mut ContentCache) -> (r:
        bool)
        requires
            session_wf(old(self)@),
        ensures
            session_wf(final(self)@),
            r == (old(self)@.manifests_in_flight > 0),
            final(cache).chunks() == old(cache).chunks(),
            if r {
                &&& final(self)@ == after_manifest(old(self)@, output@, old(cache).chunks())
                &&& final(cache).mappings() == mappings_after_manifest(
                    old(cache).mappings(),
                    output@,
                )
            } else {
                &&& final(self)@ == old(self)@
                &&& final(cache).mappings() == old(cache).mappings()
            },
    {
        if self.manifests_in_flight == 0 {
            return false;
        }
        self.manifests_in_flight = self.manifests_in_flight - 1;
        match read_output(&output) {
            Ok(info) => {
                cache.put_mapping(&info.file_hash, &info.file_chunks);
                let ghost queue = self.chunk_queue.deep_view();
                let ghost incoming = info.file_chunks.deep_view();
                let ghost held = cache.chunks();
                let mut i: usize = 0;
                assert(incoming.take(0) =~= Seq::<FileChunkView>::empty());
                while i < info.file_chunks.len()
                    invariant
                        i <= info.file_chunks.len(),
                        incoming == info.file_chunks.deep_view(),
                        held == cache.chunks(),
                        self.chunk_queue.deep_view() == queue_after(
                            queue,
                            incoming.take(i as int),
                            held,
                        ),
                        self@ == (DownloadSessionView {
                            chunk_queue: self.chunk_queue.deep_view(),
                            manifests_in_flight: (old(self).manifests_in_flight - 1) as usize,
                            ..old(self)@
                        }),
                    decreases info.file_chunks.len() - i,
                {
                    let ghost so_far = self.chunk_queue.deep_view();
                    let chunk = &info.file_chunks[i];
                    assert(incoming.take(i as int + 1).drop_last() =~= incoming.take(i as int));
                    assert(incoming.take(i as int + 1).last() == chunk@);
                    if !cache.has_chunk(&chunk.file_hash, &chunk.block_hash) && !chunk_is_queued(
                        &self.chunk_queue,
                        chunk,
                    ) {
                        self.chunk_queue.push(chunk.clone());
                        assert(self.chunk_queue.deep_view() =~= so_far.push(chunk@));
                    }
                    i += 1;
                }
                assert(incoming.take(info.file_chunks.len() as int) =~= incoming);
                proof {
                    lemma_queue_after(queue, incoming, held);
                }
            },
            Err(_) => {
                self.manifest_failures = self.manifest_failures + 1;
            },
        }
        true
    }

    /// Takes the end of a chunk fetch: the bytes of the chunk, or `None` where
    /// the fetch failed.  It is turned away, and changes nothing, while no
    /// chunk fetch is under way.  Otherwise the bytes are kept in the cache
    /// under the hashes of the chunk; a failed fetch is counted.
    pub fn chunk_arrived(&mut self, chunk: &FileChunk, body: Option<Vec<u8>>, cache: &mut ContentCache) -> (r:
        bool)
        requires
            session_wf(old(self)@),
        ensures
            session_wf(final(self)@),
            r == (old(self)@.chunks_in_flight > 0),
            final(cache).mappings() == old(cache).mappings(),
            if r {
                &&& final(self)@ == after_chunk(old(self)@, body is Some)
                &&& final(cache).chunks() == chunks_after_fetch(
                    old(cache).chunks(),
                    chunk@,
                    bytes_view(body),
                )
            } else {
                &&& final(self)@ == old(self)@
                &&& final(cache).chunks() == old(cache).chunks()
            },
    {
        if self.chunks_in_flight == 0 {
            return false;
        }
        self.chunks_in_flight = self.chunks_in_flight - 1;
        match body {
            Some(bytes) => {
                cache.put_chunk(&chunk.file_hash, &chunk.block_hash, bytes);
            },
            None => {
                self.chunk_failures = self.chunk_failures + 1;
            },
        }
        true
    }
}

/// What a bulk download does to one path on disk.
pub enum FileEffect {
    /// The file is written with these bytes.
    Write { rel_path: String, bytes: Vec<u8> },
    /// The file is removed; that it is gone already is no fault.
    Remove { rel_path: String },
    /// The content could not be put together; the file is left as it is for
    /// a later pass.
    Unavailable { rel_path: String, reason: AssemblyError },
}

pub enum FileEffectView {
    Write { rel_path: Seq<char>, bytes: Seq<u8> },
    Remove { rel_path: Seq<char> },
    Unavailable { rel_path: Seq<char>, reason: AssemblyError },
}

impl View for FileEffect {
    type V = FileEffectView;

    open spec fn view(&self) -> FileEffectView {
        match self {
            FileEffect::Write { rel_path, bytes } => FileEffectView::Write {
                rel_path: rel_path@,
                bytes: bytes@,
            },
            FileEffect::Remove { rel_path } => FileEffectView::Remove { rel_path: rel_path@ },
            FileEffect::Unavailable { rel_path, reason } => FileEffectView::Unavailable {
                rel_path: rel_path@,
                reason: *reason,
            },
        }
    }
}

impl DeepView for FileEffect {
    type V = FileEffectView;

    open spec fn deep_view(&self) -> FileEffectView {
        self@
    }
}

/// What a request does to its path, given what the cache holds: a deletion
/// removes the file; a download writes the content that the cache puts
/// together, or is unavailable where the cache cannot.
pub open spec fn effect_of(
    mappings: Map<Seq<char>, Seq<Seq<char>>>,
    chunks: Map<(Seq<char>, Seq<char>), Seq<u8>>,
) -> spec_fn(DownloadRequestMessageView) -> FileEffectView {
    |f: DownloadRequestMessageView|
        if !f.download {
            FileEffectView::Remove { rel_path: f.rel_path }
        } else {
            match assemble_spec(mappings, chunks, f.hash) {
                Ok(bytes) => FileEffectView::Write { rel_path: f.rel_path, bytes },
                Err(reason) => FileEffectView::Unavailable { rel_path: f.rel_path, reason },
            }
        }
}

pub open spec fn is_unavailable() -> spec_fn(FileEffectView) -> bool {
    |e: FileEffectView| e is Unavailable
}

/// The ledger after one effect was carried out on disk: a written path is
/// confirmed, a removed path is forgotten, an unavailable one stays as it is.
pub open spec fn ledger_step(files: Seq<FileRecordView>, pid: i32, effect: FileEffectView) -> Seq<
    FileRecordView,
> {
    match effect {
        FileEffectView::Write { rel_path, .. } => files.map_values(promote_at(pid, rel_path)),
        FileEffectView::Remove { rel_path } => keep_where(files, file_is_not(pid, rel_path)),
        FileEffectView::Unavailable { .. } => files,
    }
}

/// The ledger after the effects were recorded in order.
pub open spec fn ledger_after(files: Seq<FileRecordView>, pid: i32, effects: Seq<FileEffectView>)
    -> Seq<FileRecordView>
    decreases effects.len(),
{
    if effects.len() == 0 {
        files
    } else {
        ledger_step(ledger_after(files, pid, effects.drop_last()), pid, effects.last())
    }
}

impl DownloadSession {
    /// What is to happen on disk, for each entry of the bulk download in the
    /// order given, with the cache as it is.
    pub fn effects(&self, cache: &ContentCache) -> (r: Vec<FileEffect>)
        ensures
            r.deep_view() == self@.requests.map_values(
                effect_of(cache.mappings(), cache.chunks()),
            ),
    {
        let ghost f = effect_of(cache.mappings(), cache.chunks());
        let mut out: Vec<FileEffect> = Vec::new();
        let mut i: usize = 0;
        assert(out.deep_view() =~= self@.requests.map_values(f).take(0));
        while i < self.requests.len()
            invariant
                i <= self.requests.len(),
                f == effect_of(cache.mappings(), cache.chunks()),
                out.deep_view() == self@.requests.map_values(f).take(i as int),
            decreases self.requests.len() - i,
        {
            let ghost so_far = out.deep_view();
            let request = &self.requests[i];
            let effect = if !request.download {
                FileEffect::Remove { rel_path: request.rel_path.clone() }
            } else {
                match cache.assemble(&request.hash) {
                    Ok(bytes) => FileEffect::Write { rel_path: request.rel_path.clone(), bytes },
                    Err(reason) => FileEffect::Unavailable {
                        rel_path: request.rel_path.clone(),
                        reason,
                    },
                }
            };
            assert(effect@ == f(request@));
            out.push(effect);
            assert(out.deep_view() =~= so_far.push(f(request@)));
            assert(self@.requests.map_values(f).take(i as int + 1) =~= so_far.push(f(request@)));
            i += 1;
        }
        assert(self@.requests.map_values(f).take(self.requests.len() as int)
            =~= self@.requests.map_values(f));
        out
    }
}

/// How many downloads could not be completed.
pub fn count_unavailable(effects: &Vec<FileEffect>) -> (r: usize)
    ensures
        r == keep_where(effects.deep_view(), is_unavailable()).len(),
{
    let ghost all = effects.deep_view();
    let mut count: usize = 0;
    let mut i: usize = 0;
    assert(all.take(0) =~= Seq::<FileEffectView>::empty());
    while i < effects.len()
        invariant
            i <= effects.len(),
            all == effects.deep_view(),
            count <= i,
            count == keep_where(all.take(i as int), is_unavailable()).len(),
        decreases effects.len() - i,
    {
        assert(all.take(i as int + 1).drop_last() =~= all.take(i as int));
        assert(all.take(i as int + 1).last() == effects[i as int]@);
        match &effects[i] {
            FileEffect::Unavailable { .. } => {
                count += 1;
            },
            _ => {},
        }
        i += 1;
    }
    assert(all.take(effects.len() as int) =~= all);
    count
}

/// Brings the ledger up to date with the effects that were carried out on
/// disk, in order.  Only here does a bulk download touch the ledger.
pub fn commit_effects(dal: &mut DataAccessLayer, pid: i32, effects: &Vec<FileEffect>)
    requires
        old(dal).wf(),
    ensures
        final(dal).wf(),
        final(dal).files() == ledger_after(old(dal).files(), pid, effects.deep_view()),
        final(dal).servers() == old(dal).servers(),
        final(dal).projects() == old(dal).projects(),
{
    let ghost all = effects.deep_view();
    let ghost start = dal.files();
    let mut i: usize = 0;
    assert(all.take(0) =~= Seq::<FileEffectView>::empty());
    while i < effects.len()
        invariant
            i <= effects.len(),
            all == effects.deep_view(),
            dal.wf(),
            dal.files() == ledger_after(start, pid, all.take(i as int)),
            dal.servers() == old(dal).servers(),
            dal.projects() == old(dal).projects(),
        decreases effects.len() - i,
    {
        assert(all.take(i as int + 1).drop_last() =~= all.take(i as int));
        assert(all.take(i as int + 1).last() == effects[i as int]@);
        match &effects[i] {
            FileEffect::Write { rel_path, .. } => {
                let _ = dal.update_downloaded_file_entry(pid, rel_path.clone());
            },
            FileEffect::Remove { rel_path } => {
                let _ = dal.delete_file_entry(pid, rel_path.clone());
            },
            FileEffect::Unavailable { .. } => {},
        }
        i += 1;
    }
    assert(all.take(effects.len() as int) =~= all);
}

/// What becomes of a record when one effect is recorded: a written path is
/// confirmed, a removed path loses its record, any other record stays.
pub open spec fn fate_step(pid: i32, effect: FileEffectView) -> spec_fn(FileRecordView) -> Option<
    FileRecordView,
> {
    |r: FileRecordView|
        match effect {
            FileEffectView::Write { rel_path, .. } => Some(promote_at(pid, rel_path)(r)),
            FileEffectView::Remove { rel_path } => if file_is_not(pid, rel_path)(r) {
                Some(r)
            } else {
                None
            },
            FileEffectView::Unavailable { .. } => Some(r),
        }
}

/// What becomes of a record when the effects are recorded in order.
pub open spec fn fate(pid: i32, effects: Seq<FileEffectView>, r: FileRecordView) -> Option<
    FileRecordView,
>
    decreases effects.len(),
{
    if effects.len() == 0 {
        Some(r)
    } else {
        match fate(pid, effects.drop_last(), r) {
            Some(x) => fate_step(pid, effects.last())(x),
            None => None,
        }
    }
}

pub open spec fn fate_of(pid: i32, effects: Seq<FileEffectView>) -> spec_fn(FileRecordView)
    -> Option<FileRecordView> {
    |r: FileRecordView| fate(pid, effects, r)
}

/// Whether the effects remove the path of the record.
pub open spec fn removes(pid: i32, effects: Seq<FileEffectView>, r: FileRecordView) -> bool {
    exists|i: int|
        0 <= i < effects.len() && r.pid == pid && (#[trigger] effects[i]) == (
        FileEffectView::Remove { rel_path: r.filepath })
}

/// Whether the effects write the path of the record.
pub open spec fn writes(pid: i32, effects: Seq<FileEffectView>, r: FileRecordView) -> bool {
    exists|i: int|
        0 <= i < effects.len() && r.pid == pid && (#[trigger] effects[i]) is Write
            && effects[i]->Write_rel_path == r.filepath
}

proof fn lemma_ledger_step_is_filter_map(files: Seq<FileRecordView>, pid: i32, effect: FileEffectView)
    ensures
        ledger_step(files, pid, effect) == filter_map(files, fate_step(pid, effect)),
{
    let g = fate_step(pid, effect);
    match effect {
        FileEffectView::Write { rel_path, .. } => {
            lemma_map_is_filter_map(files, promote_at(pid, rel_path), g);
        },
        FileEffectView::Remove { rel_path } => {
            lemma_keep_is_filter_map(files, file_is_not(pid, rel_path), g);
        },
        FileEffectView::Unavailable { .. } => {
            let same = |r: FileRecordView| r;
            lemma_map_is_filter_map(files, same, g);
            assert(files.map_values(same) =~= files);
        },
    }
}

proof fn lemma_ledger_after_is_filter_map(
    files: Seq<FileRecordView>,
    pid: i32,
    effects: Seq<FileEffectView>,
)
    ensures
        ledger_after(files, pid, effects) == filter_map(files, fate_of(pid, effects)),
    decreases effects.len(),
{
    if effects.len() == 0 {
        let same = |r: FileRecordView| r;
        lemma_map_is_filter_map(files, same, fate_of(pid, effects));
        assert(files.map_values(same) =~= files);
    } else {
        let front = effects.drop_last();
        lemma_ledger_after_is_filter_map(files, pid, front);
        lemma_ledger_step_is_filter_map(ledger_after(files, pid, front), pid, effects.last());
        lemma_filter_map_twice(
            files,
            fate_of(pid, front),
            fate_step(pid, effects.last()),
            fate_of(pid, effects),
        );
    }
}

proof fn lemma_fate(pid: i32, effects: Seq<FileEffectView>, r: FileRecordView)
    ensures
        fate(pid, effects, r) == if removes(pid, effects, r) {
            None
        } else if writes(pid, effects, r) {
            Some(promoted(r))
        } else {
            Some(r)
        },
    decreases effects.len(),
{
    if effects.len() > 0 {
        let front = effects.drop_last();
        let last = effects.last();
        lemma_fate(pid, front, r);
        assert(effects[effects.len() - 1] == last);
        if removes(pid, front, r) {
            let i = choose|i: int|
                0 <= i < front.len() && r.pid == pid && (#[trigger] front[i]) == (
                FileEffectView::Remove { rel_path: r.filepath });
            assert(effects[i] == front[i]);
        }
        if writes(pid, front, r) {
            let i = choose|i: int|
                0 <= i < front.len() && r.pid == pid && (#[trigger] front[i]) is Write
                    && front[i]->Write_rel_path == r.filepath;
            assert(effects[i] == front[i]);
        }
        if removes(pid, effects, r) && !removes(pid, front, r) {
            let i = choose|i: int|
                0 <= i < effects.len() && r.pid == pid && (#[trigger] effects[i]) == (
                FileEffectView::Remove { rel_path: r.filepath });
            if i < front.len() {
                assert(front[i] == effects[i]);
            }
        }
        if writes(pid, effects, r) && !writes(pid, front, r) {
            let i = choose|i: int|
                0 <= i < effects.len() && r.pid == pid && (#[trigger] effects[i]) is Write
                    && effects[i]->Write_rel_path == r.filepath;
            if i < front.len() {
                assert(front[i] == effects[i]);
            }
        }
    }
}

/// Recording the effects of a bulk download again, after a first attempt
/// recorded only the first `done` of them, leaves the ledger as one
/// uninterrupted attempt would have left it.
pub proof fn lemma_commit_converges(
    files: Seq<FileRecordView>,
    pid: i32,
    effects: Seq<FileEffectView>,
    done: int,
)
    requires
        0 <= done <= effects.len(),
    ensures
        ledger_after(ledger_after(files, pid, effects.take(done)), pid, effects) == ledger_after(
            files,
            pid,
            effects,
        ),
{
    let first = effects.take(done);
    lemma_ledger_after_is_filter_map(files, pid, first);
    lemma_ledger_after_is_filter_map(ledger_after(files, pid, first), pid, effects);
    lemma_ledger_after_is_filter_map(files, pid, effects);
    assert forall|r: FileRecordView| #[trigger]
        fate_of(pid, effects)(r) == match fate_of(pid, first)(r) {
            Some(x) => fate_of(pid, effects)(x),
            None => None,
        } by {
        lemma_fate(pid, first, r);
        lemma_fate(pid, effects, r);
        lemma_fate(pid, effects, promoted(r));
        if removes(pid, first, r) {
            let i = choose|i: int|
                0 <= i < first.len() && r.pid == pid && (#[trigger] first[i]) == (
                FileEffectView::Remove { rel_path: r.filepath });
            assert(effects[i] == first[i]);
        }
        if writes(pid, first, r) {
            let i = choose|i: int|
                0 <= i < first.len() && r.pid == pid && (#[trigger] first[i]) is Write
                    && first[i]->Write_rel_path == r.filepath;
            assert(effects[i] == first[i]);
        }
        assert(removes(pid, effects, promoted(r)) == removes(pid, effects, r));
        assert(writes(pid, effects, promoted(r)) == writes(pid, effects, r));
    }
    lemma_filter_map_twice(files, fate_of(pid, first), fate_of(pid, effects), fate_of(pid, effects));
}

/// A record that the ledger holds after the effects were recorded is either
/// a record it held before, untouched, or the confirmed form of one whose
/// path was written.  No other record comes to hold a new base hash.
pub proof fn lemma_only_written_paths_are_confirmed(
    files: Seq<FileRecordView>,
    pid: i32,
    effects: Seq<FileEffectView>,
    r: FileRecordView,
)
    requires
        ledger_after(files, pid, effects).contains(r),
    ensures
        files.contains(r) || exists|before: FileRecordView|
            files.contains(before) && writes(pid, effects, before) && r == promoted(before),
{
    lemma_ledger_after_is_filter_map(files, pid, effects);
    lemma_filter_map_rows(files, fate_of(pid, effects));
    let after = filter_map(files, fate_of(pid, effects));
    let i = choose|i: int| 0 <= i < after.len() && after[i] == r;
    assert(comes_from(files, fate_of(pid, effects), after[i]));
    let k = choose|k: int|
        0 <= k < files.len() && fate_of(pid, effects)(#[trigger] files[k]) == Some(after[i]);
    lemma_fate(pid, effects, files[k]);
    assert(files.contains(files[k]));
}

/// Once the manifest of a file has arrived, a download of the same content
/// needs no manifest request, whatever path asks for it.
pub proof fn lemma_same_content_needs_no_request(
    mappings: Map<Seq<char>, Seq<Seq<char>>>,
    output: DownloadServerOutputView,
    second: DownloadRequestMessageView,
)
    requires
        manifest_of(output) matches Some(info) && second.hash == info.file_hash,
    ensures
        !needs_manifest(mappings_after_manifest(mappings, output))(second),
{
}

/// A bulk download whose content the cache holds queues no manifest request.
pub proof fn lemma_cached_content_queues_nothing(
    files: Seq<DownloadRequestMessageView>,
    mappings: Map<Seq<char>, Seq<Seq<char>>>,
)
    requires
        forall|i: int|
            0 <= i < files.len() && (#[trigger] files[i]).download ==> mappings.contains_key(
                files[i].hash,
            ),
    ensures
        manifest_queue_of(files, mappings) == Seq::<DownloadRequestMessageView>::empty(),
    decreases files.len(),
{
    if files.len() > 0 {
        assert(files.last() == files[files.len() - 1]);
        assert forall|i: int|
            0 <= i < files.drop_last().len() && (
            #[trigger] files.drop_last()[i]).download implies mappings.contains_key(
            files.drop_last()[i].hash,
        ) by {
            assert(files.drop_last()[i] == files[i]);
        }
        lemma_cached_content_queues_nothing(files.drop_last(), mappings);
    }
}

/// Whatever paths ask for it, a content hash that the cache lacks is queued
/// for a manifest exactly once: no two queued requests have the same hash,
/// every queued request is a download of the batch that needs a manifest,
/// and every such download finds its hash in the queue.
pub proof fn lemma_one_manifest_for_each_hash(
    files: Seq<DownloadRequestMessageView>,
    mappings: Map<Seq<char>, Seq<Seq<char>>>,
)
    ensures
        distinct_by(manifest_queue_of(files, mappings), request_hash()),
        forall|k: int|
            0 <= k < manifest_queue_of(files, mappings).len() ==> files.contains(
                #[trigger] manifest_queue_of(files, mappings)[k],
            ) && needs_manifest(mappings)(manifest_queue_of(files, mappings)[k]),
        forall|i: int|
            0 <= i < files.len() && needs_manifest(mappings)(#[trigger] files[i]) ==> any_where(
                manifest_queue_of(files, mappings),
                has_hash(files[i].hash),
            ),
    decreases files.len(),
{
    lemma_manifest_queue_distinct(files, mappings);
    if files.len() > 0 {
        let rest = files.drop_last();
        let front = manifest_queue_of(rest, mappings);
        let queue = manifest_queue_of(files, mappings);
        let f = files.last();
        lemma_one_manifest_for_each_hash(rest, mappings);
        assert(files[files.len() - 1] == f);
        assert forall|k: int| 0 <= k < queue.len() implies files.contains(#[trigger] queue[k])
            && needs_manifest(mappings)(queue[k]) by {
            if k < front.len() {
                assert(queue[k] == front[k]);
                let i = choose|i: int| 0 <= i < rest.len() && rest[i] == front[k];
                assert(files[i] == rest[i]);
            }
        }
        assert forall|i: int|
            0 <= i < files.len() && needs_manifest(mappings)(#[trigger] files[i]) implies any_where(
            queue,
            has_hash(files[i].hash),
        ) by {
            if i < rest.len() {
                assert(rest[i] == files[i]);
                let k = choose|k: int|
                    0 <= k < front.len() && has_hash(files[i].hash)(#[trigger] front[k]);
                assert(queue[k] == front[k]);
            } else if any_where(front, has_hash(f.hash)) {
                let k = choose|k: int| 0 <= k < front.len() && has_hash(f.hash)(#[trigger] front[k]);
                assert(queue[k] == front[k]);
            } else {
                assert(has_hash(f.hash)(queue[queue.len() - 1]));
            }
        }
    }
}

/// However many manifests name it, a chunk is queued for fetching at most
/// once: what was queued stays in place, no two queued chunks are the same,
/// and a chunk that the cache holds is not queued.
pub proof fn lemma_each_chunk_is_queued_once(
    queue: Seq<FileChunkView>,
    incoming: Seq<FileChunkView>,
    held: Map<(Seq<char>, Seq<char>), Seq<u8>>,
)
    requires
        distinct_by(queue, chunk_key()),
    ensures
        distinct_by(queue_after(queue, incoming, held), chunk_key()),
        queue_after(queue, incoming, held).take(queue.len() as int) == queue,
        forall|k: int|
            queue.len() <= k < queue_after(queue, incoming, held).len() ==> !held.contains_key(
                chunk_key()(#[trigger] queue_after(queue, incoming, held)[k]),
            ),
        queue_after(queue_after(queue, incoming, held), incoming, held) == queue_after(
            queue,
            incoming,
            held,
        ),
{
    lemma_queue_after(queue, incoming, held);
    lemma_queue_after_again(queue_after(queue, incoming, held), queue, incoming, incoming, held);
}

proof fn lemma_queue_after_covers(
    queue: Seq<FileChunkView>,
    incoming: Seq<FileChunkView>,
    held: Map<(Seq<char>, Seq<char>), Seq<u8>>,
    i: int,
)
    requires
        0 <= i < incoming.len(),
    ensures
        held.contains_key(chunk_key()(incoming[i])) || any_where(
            queue_after(queue, incoming, held),
            chunk_is(incoming[i].file_hash, incoming[i].block_hash),
        ),
    decreases incoming.len(),
{
    let front = incoming.drop_last();
    let so_far = queue_after(queue, front, held);
    let after = queue_after(queue, incoming, held);
    let c = incoming[i];
    if i < front.len() {
        assert(front[i] == c);
        lemma_queue_after_covers(queue, front, held, i);
        if any_where(so_far, chunk_is(c.file_hash, c.block_hash)) {
            let k = choose|k: int|
                0 <= k < so_far.len() && chunk_is(c.file_hash, c.block_hash)(#[trigger] so_far[k]);
            assert(after[k] == so_far[k]);
        }
    } else {
        assert(incoming.last() == c);
        if any_where(so_far, chunk_is(c.file_hash, c.block_hash)) {
            let k = choose|k: int|
                0 <= k < so_far.len() && chunk_is(c.file_hash, c.block_hash)(#[trigger] so_far[k]);
            assert(after[k] == so_far[k]);
        } else if !held.contains_key((c.file_hash, c.block_hash)) {
            assert(chunk_is(c.file_hash, c.block_hash)(after[after.len() - 1]));
        }
    }
}

proof fn lemma_queue_after_again(
    full: Seq<FileChunkView>,
    queue: Seq<FileChunkView>,
    all: Seq<FileChunkView>,
    incoming: Seq<FileChunkView>,
    held: Map<(Seq<char>, Seq<char>), Seq<u8>>,
)
    requires
        full == queue_after(queue, all, held),
        forall|i: int| 0 <= i < incoming.len() ==> all.contains(#[trigger] incoming[i]),
    ensures
        queue_after(full, incoming, held) == full,
    decreases incoming.len(),
{
    if incoming.len() > 0 {
        let front = incoming.drop_last();
        assert forall|i: int| 0 <= i < front.len() implies all.contains(#[trigger] front[i]) by {
            assert(front[i] == incoming[i]);
        }
        lemma_queue_after_again(full, queue, all, front, held);
        let c = incoming.last();
        assert(incoming[incoming.len() - 1] == c);
        let i = choose|i: int| 0 <= i < all.len() && all[i] == c;
        lemma_queue_after_covers(queue, all, held, i);
    }
}

/// Whether a manifest request can be started does not depend on how many
/// chunk fetches are under way, nor the other way round.
pub proof fn lemma_bounds_are_independent(
    s: DownloadSessionView,
    manifests_in_flight: usize,
    chunks_in_flight: usize,
)
    ensures
        can_start_manifest(DownloadSessionView { chunks_in_flight, ..s }) == can_start_manifest(s),
        can_start_chunk(DownloadSessionView { manifests_in_flight, ..s }) == can_start_chunk(s),
{
}

} // verus!
