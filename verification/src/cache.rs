//! The content cache: chunks of file content kept under the hash of the file
//! they belong to, and the list of chunks that makes up each file.
use crate::table::{
    first_where, lemma_first_where_found, lemma_first_where_missing, lemma_first_where_push,
};
use vstd::prelude::*;
use vstd::string::*;

verus! {

/// One chunk of a file: where to fetch it, the hash of the file it belongs to
/// and its own content hash.
pub struct FileChunk {
    pub s3_url: String,
    pub file_hash: String,
    pub block_hash: String,
}

pub struct FileChunkView {
    pub s3_url: Seq<char>,
    pub file_hash: Seq<char>,
    pub block_hash: Seq<char>,
}

impl View for FileChunk {
    type V = FileChunkView;

    open spec fn view(&self) -> FileChunkView {
        FileChunkView {
            s3_url: self.s3_url@,
            file_hash: self.file_hash@,
            block_hash: self.block_hash@,
        }
    }
}

impl DeepView for FileChunk {
    type V = FileChunkView;

    open spec fn deep_view(&self) -> FileChunkView {
        self@
    }
}

impl Clone for FileChunk {
    fn clone(&self) -> (r: Self)
        ensures
            r == *self,
    {
        FileChunk {
            s3_url: self.s3_url.clone(),
            file_hash: self.file_hash.clone(),
            block_hash: self.block_hash.clone(),
        }
    }
}

/// Why a file could not be put together from the cache.
#[derive(Clone, Copy, Debug, PartialEq, Eq, Structural)]
pub enum AssemblyError {
    /// The cache has no chunk list for the file.
    NoMapping,
    /// The chunk list of the file is empty.
    EmptyMapping,
    /// A chunk of the list is not in the cache.
    MissingChunk,
}

/// The chunk list of one file, by content hash.
struct MappingRow {
    hash: String,
    blocks: Vec<String>,
}

struct MappingRowView {
    hash: Seq<char>,
    blocks: Seq<Seq<char>>,
}

impl View for MappingRow {
    type V = MappingRowView;

    closed spec fn view(&self) -> MappingRowView {
        MappingRowView { hash: self.hash@, blocks: self.blocks.deep_view() }
    }
}

impl DeepView for MappingRow {
    type V = MappingRowView;

    closed spec fn deep_view(&self) -> MappingRowView {
        self@
    }
}

/// The bytes of one chunk.
struct ChunkRow {
    hash: String,
    block_hash: String,
    bytes: Vec<u8>,
}

struct ChunkRowView {
    hash: Seq<char>,
    block_hash: Seq<char>,
    bytes: Seq<u8>,
}

impl View for ChunkRow {
    type V = ChunkRowView;

    closed spec fn view(&self) -> ChunkRowView {
        ChunkRowView { hash: self.hash@, block_hash: self.block_hash@, bytes: self.bytes@ }
    }
}

impl DeepView for ChunkRow {
    type V = ChunkRowView;

    closed spec fn deep_view(&self) -> ChunkRowView {
        self@
    }
}

spec fn mapping_for(hash: Seq<char>) -> spec_fn(MappingRowView) -> bool {
    |m: MappingRowView| m.hash == hash
}

spec fn chunk_for(hash: Seq<char>, block_hash: Seq<char>) -> spec_fn(ChunkRowView) -> bool {
    |c: ChunkRowView| c.hash == hash && c.block_hash == block_hash
}

/// The content hashes of a list of chunks, in order.
pub open spec fn block_hashes(chunks: Seq<FileChunkView>) -> Seq<Seq<char>> {
    chunks.map_values(|c: FileChunkView| c.block_hash)
}

/// The bytes of the chunks `blocks` of the file `hash`, one after the other;
/// `None` where the cache lacks one of them.
pub open spec fn assembled(
    blocks: Seq<Seq<char>>,
    chunks: Map<(Seq<char>, Seq<char>), Seq<u8>>,
    hash: Seq<char>,
) -> Option<Seq<u8>>
    decreases blocks.len(),
{
    if blocks.len() == 0 {
        Some(Seq::empty())
    } else {
        match assembled(blocks.drop_last(), chunks, hash) {
            Some(front) => if chunks.contains_key((hash, blocks.last())) {
                Some(front + chunks[(hash, blocks.last())])
            } else {
                None
            },
            None => None,
        }
    }
}

/// The content of the file `hash` as the cache can put it together.  A file
/// without a chunk list, with an empty one, or with a chunk that the cache
/// lacks cannot be put together.
pub open spec fn assemble_spec(
    mappings: Map<Seq<char>, Seq<Seq<char>>>,
    chunks: Map<(Seq<char>, Seq<char>), Seq<u8>>,
    hash: Seq<char>,
) -> Result<Seq<u8>, AssemblyError> {
    if !mappings.contains_key(hash) {
        Err(AssemblyError::NoMapping)
    } else if mappings[hash].len() == 0 {
        Err(AssemblyError::EmptyMapping)
    } else {
        match assembled(mappings[hash], chunks, hash) {
            Some(bytes) => Ok(bytes),
            None => Err(AssemblyError::MissingChunk),
        }
    }
}

proof fn lemma_assembled_prefix(
    blocks: Seq<Seq<char>>,
    chunks: Map<(Seq<char>, Seq<char>), Seq<u8>>,
    hash: Seq<char>,
    k: int,
)
    requires
        0 <= k <= blocks.len(),
        assembled(blocks.take(k), chunks, hash) is None,
    ensures
        assembled(blocks, chunks, hash) is None,
    decreases blocks.len() - k,
{
    if k == blocks.len() {
        assert(blocks.take(k) =~= blocks);
    } else {
        assert(blocks.take(k + 1).drop_last() =~= blocks.take(k));
        lemma_assembled_prefix(blocks, chunks, hash, k + 1);
    }
}

/// A file of one chunk is put together as that chunk, byte for byte.
pub proof fn lemma_single_chunk_is_copied(
    mappings: Map<Seq<char>, Seq<Seq<char>>>,
    chunks: Map<(Seq<char>, Seq<char>), Seq<u8>>,
    hash: Seq<char>,
    block_hash: Seq<char>,
)
    requires
        mappings.contains_key(hash),
        mappings[hash] == seq![block_hash],
        chunks.contains_key((hash, block_hash)),
    ensures
        assemble_spec(mappings, chunks, hash) == Ok::<Seq<u8>, AssemblyError>(
            chunks[(hash, block_hash)],
        ),
{
    let blocks = mappings[hash];
    assert(blocks.drop_last() =~= Seq::<Seq<char>>::empty());
    assert(blocks.last() == block_hash);
    assert(assembled(blocks.drop_last(), chunks, hash) == Some(Seq::<u8>::empty()));
    assert(Seq::<u8>::empty() + chunks[(hash, block_hash)] =~= chunks[(hash, block_hash)]);
}

/// Adds the bytes of `bytes` at the end of `out`.
pub fn append_bytes(out: &mut Vec<u8>, bytes: &Vec<u8>)
    ensures
        final(out)@ == old(out)@ + bytes@,
{
    let ghost before = out@;
    let mut i: usize = 0;
    while i < bytes.len()
        invariant
            i <= bytes.len(),
            out@ == before + bytes@.take(i as int),
        decreases bytes.len() - i,
    {
        out.push(bytes[i]);
        assert(out@ =~= before + bytes@.take(i as int + 1));
        i += 1;
    }
    assert(bytes@.take(bytes.len() as int) =~= bytes@);
}

/// The store of chunks and chunk lists.
pub struct ContentCache {
    mappings: Vec<MappingRow>,
    chunks: Vec<ChunkRow>,
}

impl ContentCache {
    spec fn mapping_rows(&self) -> Seq<MappingRowView> {
        self.mappings.deep_view()
    }

    spec fn chunk_rows(&self) -> Seq<ChunkRowView> {
        self.chunks.deep_view()
    }

    /// The chunk list of each file that the cache has one for.
    pub closed spec fn mappings(&self) -> Map<Seq<char>, Seq<Seq<char>>> {
        Map::new(
            |h: Seq<char>| first_where(self.mapping_rows(), mapping_for(h)) is Some,
            |h: Seq<char>| first_where(self.mapping_rows(), mapping_for(h))->0.blocks,
        )
    }

    /// The bytes of each chunk that the cache holds, by the hash of the file
    /// and the hash of the chunk.
    pub closed spec fn chunks(&self) -> Map<(Seq<char>, Seq<char>), Seq<u8>> {
        Map::new(
            |k: (Seq<char>, Seq<char>)|
                first_where(self.chunk_rows(), chunk_for(k.0, k.1)) is Some,
            |k: (Seq<char>, Seq<char>)| first_where(self.chunk_rows(), chunk_for(k.0, k.1))->0.bytes,
        )
    }

    /// An empty cache.
    pub fn new() -> (r: Self)
        ensures
            r.mappings() == Map::<Seq<char>, Seq<Seq<char>>>::empty(),
            r.chunks() == Map::<(Seq<char>, Seq<char>), Seq<u8>>::empty(),
    {
        let r = ContentCache { mappings: Vec::new(), chunks: Vec::new() };
        assert(r.mapping_rows() =~= Seq::<MappingRowView>::empty());
        assert(r.chunk_rows() =~= Seq::<ChunkRowView>::empty());
        assert(r.mappings() =~= Map::<Seq<char>, Seq<Seq<char>>>::empty());
        assert(r.chunks() =~= Map::<(Seq<char>, Seq<char>), Seq<u8>>::empty());
        r
    }

    fn find_mapping(&self, hash: &String) -> (r: Option<usize>)
        ensures
            match r {
                Some(i) => i < self.mappings.len() && first_where(
                    self.mapping_rows(),
                    mapping_for(hash@),
                ) == Some(self.mapping_rows()[i as int]),
                None => first_where(self.mapping_rows(), mapping_for(hash@)) is None,
            },
    {
        let mut i: usize = 0;
        while i < self.mappings.len()
            invariant
                i <= self.mappings.len(),
                forall|j: int|
                    0 <= j < i ==> !mapping_for(hash@)(#[trigger] self.mapping_rows()[j]),
            decreases self.mappings.len() - i,
        {
            if self.mappings[i].hash == *hash {
                proof {
                    lemma_first_where_found(self.mapping_rows(), mapping_for(hash@), i as int);
                }
                return Some(i);
            }
            i += 1;
        }
        proof {
            lemma_first_where_missing(self.mapping_rows(), mapping_for(hash@));
        }
        None
    }

    fn find_chunk(&self, hash: &String, block_hash: &String) -> (r: Option<usize>)
        ensures
            match r {
                Some(i) => i < self.chunks.len() && first_where(
                    self.chunk_rows(),
                    chunk_for(hash@, block_hash@),
                ) == Some(self.chunk_rows()[i as int]),
                None => first_where(self.chunk_rows(), chunk_for(hash@, block_hash@)) is None,
            },
    {
        let mut i: usize = 0;
        while i < self.chunks.len()
            invariant
                i <= self.chunks.len(),
                forall|j: int|
                    0 <= j < i ==> !chunk_for(hash@, block_hash@)(#[trigger] self.chunk_rows()[j]),
            decreases self.chunks.len() - i,
        {
            if self.chunks[i].hash == *hash && self.chunks[i].block_hash == *block_hash {
                proof {
                    lemma_first_where_found(
                        self.chunk_rows(),
                        chunk_for(hash@, block_hash@),
                        i as int,
                    );
                }
                return Some(i);
            }
            i += 1;
        }
        proof {
            lemma_first_where_missing(self.chunk_rows(), chunk_for(hash@, block_hash@));
        }
        None
    }

    /// Whether the content of the file `hash` counts as fetched: the cache has
    /// its chunk list.
    pub fn has(&self, hash: &String) -> (r: bool)
        ensures
            r == self.mappings().contains_key(hash@),
    {
        self.find_mapping(hash).is_some()
    }

    /// Whether the cache holds the chunk `block_hash` of the file `hash`.
    pub fn has_chunk(&self, hash: &String, block_hash: &String) -> (r: bool)
        ensures
            r == self.chunks().contains_key((hash@, block_hash@)),
    {
        self.find_chunk(hash, block_hash).is_some()
    }

    /// Keeps the chunk list of the file `hash`.  What the cache holds under a
    /// hash never changes: a file that has a chunk list keeps it.
    pub fn put_mapping(&mut self, hash: &String, chunk_list: &Vec<FileChunk>)
        ensures
            final(self).mappings() == if old(self).mappings().contains_key(hash@) {
                old(self).mappings()
            } else {
                old(self).mappings().insert(hash@, block_hashes(chunk_list.deep_view()))
            },
            final(self).chunks() == old(self).chunks(),
    {
        if self.find_mapping(hash).is_some() {
            return ;
        }
        let ghost before = self.mapping_rows();
        let mut blocks: Vec<String> = Vec::new();
        let mut i: usize = 0;
        assert(blocks.deep_view() =~= block_hashes(chunk_list.deep_view()).take(0));
        while i < chunk_list.len()
            invariant
                i <= chunk_list.len(),
                blocks.deep_view() == block_hashes(chunk_list.deep_view()).take(i as int),
            decreases chunk_list.len() - i,
        {
            let ghost so_far = blocks.deep_view();
            blocks.push(chunk_list[i].block_hash.clone());
            assert(blocks.deep_view() =~= so_far.push(chunk_list[i as int].block_hash@));
            assert(block_hashes(chunk_list.deep_view()).take(i as int + 1) =~= so_far.push(
                chunk_list[i as int].block_hash@,
            ));
            i += 1;
        }
        assert(blocks.deep_view() =~= block_hashes(chunk_list.deep_view()));
        let row = MappingRow { hash: hash.clone(), blocks };
        let ghost row_view = row@;
        self.mappings.push(row);
        assert(self.mapping_rows() =~= before.push(row_view));
        proof {
            assert forall|h: Seq<char>|
                first_where(self.mapping_rows(), mapping_for(h)) == (if h == hash@ {
                    Some(row_view)
                } else {
                    first_where(before, mapping_for(h))
                }) by {
                lemma_first_where_push(before, row_view, mapping_for(h));
            }
            assert(self.mappings() =~= old(self).mappings().insert(hash@, row_view.blocks));
        }
    }

    /// Keeps the bytes of the chunk `block_hash` of the file `hash`.  A chunk
    /// that the cache holds keeps its bytes.
    pub fn put_chunk(&mut self, hash: &String, block_hash: &String, bytes: Vec<u8>)
        ensures
            final(self).chunks() == if old(self).chunks().contains_key((hash@, block_hash@)) {
                old(self).chunks()
            } else {
                old(self).chunks().insert((hash@, block_hash@), bytes@)
            },
            final(self).mappings() == old(self).mappings(),
    {
        if self.find_chunk(hash, block_hash).is_some() {
            return ;
        }
        let ghost before = self.chunk_rows();
        let row = ChunkRow { hash: hash.clone(), block_hash: block_hash.clone(), bytes };
        let ghost row_view = row@;
        self.chunks.push(row);
        assert(self.chunk_rows() =~= before.push(row_view));
        proof {
            assert forall|k: (Seq<char>, Seq<char>)|
                first_where(self.chunk_rows(), chunk_for(k.0, k.1)) == (if k == (
                    hash@,
                    block_hash@,
                ) {
                    Some(row_view)
                } else {
                    first_where(before, chunk_for(k.0, k.1))
                }) by {
                lemma_first_where_push(before, row_view, chunk_for(k.0, k.1));
            }
            assert(self.chunks() =~= old(self).chunks().insert((hash@, block_hash@), bytes@));
        }
    }

    /// Puts the content of the file `hash` together from its chunks, in the
    /// order of its chunk list.
    pub fn assemble(&self, hash: &String) -> (r: Result<Vec<u8>, AssemblyError>)
        ensures
            match r {
                Ok(bytes) => assemble_spec(self.mappings(), self.chunks(), hash@) == Ok::<
                    Seq<u8>,
                    AssemblyError,
                >(bytes@),
                Err(e) => assemble_spec(self.mappings(), self.chunks(), hash@) == Err::<
                    Seq<u8>,
                    AssemblyError,
                >(e),
            },
    {
        let m = match self.find_mapping(hash) {
            Some(m) => m,
            None => {
                return Err(AssemblyError::NoMapping);
            },
        };
        let blocks = &self.mappings[m].blocks;
        assert(self.mappings()[hash@] == blocks.deep_view());
        if blocks.len() == 0 {
            return Err(AssemblyError::EmptyMapping);
        }
        let mut out: Vec<u8> = Vec::new();
        let mut k: usize = 0;
        assert(blocks.deep_view().take(0) =~= Seq::<Seq<char>>::empty());
        while k < blocks.len()
            invariant
                k <= blocks.len(),
                blocks.len() > 0,
                self.mappings().contains_key(hash@),
                self.mappings()[hash@] == blocks.deep_view(),
                assembled(blocks.deep_view().take(k as int), self.chunks(), hash@) == Some(out@),
            decreases blocks.len() - k,
        {
            assert(blocks.deep_view().take(k as int + 1).drop_last() =~= blocks.deep_view().take(
                k as int,
            ));
            assert(blocks.deep_view().take(k as int + 1).last() == blocks[k as int]@);
            match self.find_chunk(hash, &blocks[k]) {
                Some(c) => {
                    assert(self.chunks().contains_key((hash@, blocks[k as int]@)));
                    assert(self.chunks()[(hash@, blocks[k as int]@)] == self.chunks[c as int].bytes@);
                    append_bytes(&mut out, &self.chunks[c].bytes);
                },
                None => {
                    proof {
                        assert(!self.chunks().contains_key((hash@, blocks[k as int]@)));
                        assert(assembled(
                            blocks.deep_view().take(k as int + 1),
                            self.chunks(),
                            hash@,
                        ) is None);
                        lemma_assembled_prefix(
                            blocks.deep_view(),
                            self.chunks(),
                            hash@,
                            k as int + 1,
                        );
                    }
                    return Err(AssemblyError::MissingChunk);
                },
            }
            k += 1;
        }
        assert(blocks.deep_view().take(blocks.len() as int) =~= blocks.deep_view());
        Ok(out)
    }
}

} // verus!
