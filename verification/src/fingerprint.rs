//! The directory fingerprinter: how the items of a directory walk become a
//! snapshot, and how a snapshot is compared with the one before it.
use crate::change::{classify, classify_spec, ChangeType, PriorState, PriorStateView};
use crate::text::{bytes_to_hex, contains_text, has_substring, hex_string};
use vstd::prelude::*;

verus! {

/// One file of a snapshot.
pub struct LocalCADFile {
    pub path: String,
    pub size: u64,
    pub hash: String,
}

/// What a snapshot says of one file: its path relative to the root of the
/// project, its size and its content hash.
pub struct FileEntry {
    pub path: Seq<char>,
    pub size: u64,
    pub hash: Seq<char>,
}

impl View for LocalCADFile {
    type V = FileEntry;

    open spec fn view(&self) -> FileEntry {
        FileEntry { path: self.path@, size: self.size, hash: self.hash@ }
    }
}

impl DeepView for LocalCADFile {
    type V = FileEntry;

    open spec fn deep_view(&self) -> FileEntry {
        self@
    }
}

impl Clone for LocalCADFile {
    fn clone(&self) -> (r: Self)
        ensures
            r == *self,
    {
        LocalCADFile { path: self.path.clone(), size: self.size, hash: self.hash.clone() }
    }
}

/// What the file system says of a walked path.
#[derive(Clone, Copy, Debug, PartialEq, Eq, Structural)]
pub struct FileMeta {
    pub is_file: bool,
    pub len: u64,
}

/// One item of a directory walk: its path relative to the root of the
/// walk, which is empty for the root itself, the hash the walk computed for
/// it and its metadata, or `None` where the metadata could not be read.
pub struct WalkedItem {
    pub relative_path: String,
    pub hash: Vec<u8>,
    pub meta: Option<FileMeta>,
}

pub struct WalkedItemView {
    pub relative_path: Seq<char>,
    pub hash: Seq<u8>,
    pub meta: Option<FileMeta>,
}

impl View for WalkedItem {
    type V = WalkedItemView;

    open spec fn view(&self) -> WalkedItemView {
        WalkedItemView { relative_path: self.relative_path@, hash: self.hash@, meta: self.meta }
    }
}

impl DeepView for WalkedItem {
    type V = WalkedItemView;

    open spec fn deep_view(&self) -> WalkedItemView {
        self@
    }
}

/// Why a pass over a directory was given up.
#[derive(Clone, Copy, Debug, PartialEq, Eq, Structural)]
pub enum ScanError {
    /// The metadata of a walked path could not be read.
    Unreadable,
}

/// A file of a snapshot together with how it differs from the snapshot before.
pub struct Change {
    pub file: LocalCADFile,
    pub change: ChangeType,
}

pub struct ChangeView {
    pub file: FileEntry,
    pub change: ChangeType,
}

impl View for Change {
    type V = ChangeView;

    open spec fn view(&self) -> ChangeView {
        ChangeView { file: self.file@, change: self.change }
    }
}

impl DeepView for Change {
    type V = ChangeView;

    open spec fn deep_view(&self) -> ChangeView {
        self@
    }
}

/// The marker in the name of the lock files that the CAD application leaves
/// beside an open document.
pub open spec fn lock_marker() -> Seq<char> {
    seq!['~', '$']
}

/// The entries of `base` whose path is `path`, in the order of `base`.
pub open spec fn entries_at(base: Seq<FileEntry>, path: Seq<char>) -> Seq<FileEntry>
    decreases base.len(),
{
    if base.len() == 0 {
        Seq::empty()
    } else if base.last().path == path {
        entries_at(base.drop_last(), path).push(base.last())
    } else {
        entries_at(base.drop_last(), path)
    }
}

/// What is carried over from the snapshot `base` for the paths of `ignore`:
/// for each ignored path in turn, the entries that `base` has for it.
pub open spec fn carried(base: Seq<FileEntry>, ignore: Seq<Seq<char>>) -> Seq<FileEntry>
    decreases ignore.len(),
{
    if ignore.len() == 0 {
        Seq::empty()
    } else {
        carried(base, ignore.drop_last()) + entries_at(base, ignore.last())
    }
}

/// Whether a walked item is recorded in the snapshot: it is not the root, it
/// is a regular file, its path relative to the root is not ignored and its
/// name is not that of a lock file.
pub open spec fn is_recorded(item: WalkedItemView, ignore: Seq<Seq<char>>) -> bool {
    &&& item.relative_path.len() != 0
    &&& item.meta matches Some(meta) && meta.is_file
    &&& !ignore.contains(item.relative_path)
    &&& !has_substring(item.relative_path, lock_marker())
}

/// The snapshot entry of a walked file: its path relative to the root of the
/// walk, its length in bytes and its hash in hexadecimal notation.
pub open spec fn entry_of(item: WalkedItemView) -> FileEntry {
    FileEntry { path: item.relative_path, size: item.meta->0.len, hash: hex_string(item.hash) }
}

/// The entries of the walked items that are recorded, in the order of the walk.
pub open spec fn walked(items: Seq<WalkedItemView>, ignore: Seq<Seq<char>>) -> Seq<FileEntry>
    decreases items.len(),
{
    if items.len() == 0 {
        Seq::empty()
    } else if is_recorded(items.last(), ignore) {
        walked(items.drop_last(), ignore).push(entry_of(items.last()))
    } else {
        walked(items.drop_last(), ignore)
    }
}

/// Whether item `i` of a walk has a path whose metadata could not be read.
pub open spec fn unreadable_at(items: Seq<WalkedItemView>, i: int) -> bool {
    &&& 0 <= i < items.len()
    &&& items[i].relative_path.len() != 0
    &&& items[i].meta is None
}

/// Whether a walk holds a path whose metadata could not be read.
pub open spec fn unreadable(items: Seq<WalkedItemView>) -> bool {
    exists|i: int| unreadable_at(items, i)
}

/// The snapshot that a pass produces: what is carried over from the previous
/// snapshot, where there is one, and then what the walk recorded.
pub open spec fn snapshot_of(
    base: Option<Seq<FileEntry>>,
    ignore: Seq<Seq<char>>,
    items: Seq<WalkedItemView>,
) -> Seq<FileEntry> {
    let kept = match base {
        Some(b) => carried(b, ignore),
        None => Seq::empty(),
    };
    kept + walked(items, ignore)
}

/// The first entry of `files` with the path `path`.
pub open spec fn first_with_path(files: Seq<FileEntry>, path: Seq<char>) -> Option<FileEntry>
    decreases files.len(),
{
    if files.len() == 0 {
        None
    } else if files[0].path == path {
        Some(files[0])
    } else {
        first_with_path(files.drop_first(), path)
    }
}

/// What a snapshot entry means for the next pass: the file was on disk with
/// that hash and nothing was pending.
pub open spec fn state_of(entry: FileEntry) -> PriorStateView {
    PriorStateView { base_hash: entry.hash, in_fs: true, change: ChangeType::NoChange }
}

/// How the file `file` of the current snapshot differs from `previous`.
pub open spec fn change_of(previous: Seq<FileEntry>, file: FileEntry) -> ChangeType {
    let prior = match first_with_path(previous, file.path) {
        Some(p) => Some(state_of(p)),
        None => None,
    };
    classify_spec(prior, Some(file.hash))
}

/// Each file of `current` with its change against `previous`.
pub open spec fn present_changes(previous: Seq<FileEntry>, current: Seq<FileEntry>) -> Seq<
    ChangeView,
>
    decreases current.len(),
{
    if current.len() == 0 {
        Seq::empty()
    } else {
        present_changes(previous, current.drop_last()).push(
            ChangeView { file: current.last(), change: change_of(previous, current.last()) },
        )
    }
}

/// The files of `previous` that `current` has no entry for, each as a
/// deletion.
pub open spec fn vanished(previous: Seq<FileEntry>, current: Seq<FileEntry>) -> Seq<ChangeView>
    decreases previous.len(),
{
    if previous.len() == 0 {
        Seq::empty()
    } else if first_with_path(current, previous.last().path) is None {
        vanished(previous.drop_last(), current).push(
            ChangeView {
                file: previous.last(),
                change: classify_spec(Some(state_of(previous.last())), None),
            },
        )
    } else {
        vanished(previous.drop_last(), current)
    }
}

/// The changes between two snapshots: the files of `current` in order, each
/// classified against `previous`, then the files that only `previous` has.
pub open spec fn diff_spec(previous: Seq<FileEntry>, current: Seq<FileEntry>) -> Seq<ChangeView> {
    present_changes(previous, current) + vanished(previous, current)
}

/// Whether no two entries of a snapshot have the same path.
pub open spec fn paths_distinct(files: Seq<FileEntry>) -> bool {
    forall|i: int, j: int|
        0 <= i < j < files.len() ==> (#[trigger] files[i]).path != (#[trigger] files[j]).path
}

proof fn lemma_first_with_path_found(files: Seq<FileEntry>, path: Seq<char>, i: int)
    requires
        0 <= i < files.len(),
        files[i].path == path,
        forall|j: int| 0 <= j < i ==> (#[trigger] files[j]).path != path,
    ensures
        first_with_path(files, path) == Some(files[i]),
    decreases i,
{
    if i > 0 {
        let rest = files.drop_first();
        assert(files[0].path != path);
        assert forall|j: int| 0 <= j < i - 1 implies (#[trigger] rest[j]).path != path by {
            assert(rest[j] == files[j + 1]);
        }
        lemma_first_with_path_found(rest, path, i - 1);
    }
}

proof fn lemma_first_with_path_missing(files: Seq<FileEntry>, path: Seq<char>)
    requires
        forall|j: int| 0 <= j < files.len() ==> (#[trigger] files[j]).path != path,
    ensures
        first_with_path(files, path) is None,
    decreases files.len(),
{
    if files.len() > 0 {
        let rest = files.drop_first();
        assert(files[0].path != path);
        assert forall|j: int| 0 <= j < rest.len() implies (#[trigger] rest[j]).path != path by {
            assert(rest[j] == files[j + 1]);
        }
        lemma_first_with_path_missing(rest, path);
    }
}

proof fn lemma_entries_at_concat(a: Seq<FileEntry>, b: Seq<FileEntry>, path: Seq<char>)
    ensures
        entries_at(a + b, path) == entries_at(a, path) + entries_at(b, path),
    decreases b.len(),
{
    if b.len() == 0 {
        assert(a + b =~= a);
        assert(entries_at(a, path) + entries_at(b, path) =~= entries_at(a, path));
    } else {
        assert((a + b).drop_last() =~= a + b.drop_last());
        assert((a + b).last() == b.last());
        lemma_entries_at_concat(a, b.drop_last(), path);
        if b.last().path == path {
            assert(entries_at(a + b, path) =~= entries_at(a, path) + entries_at(b, path));
        }
    }
}

proof fn lemma_entries_at_paths(base: Seq<FileEntry>, path: Seq<char>)
    ensures
        forall|i: int|
            0 <= i < entries_at(base, path).len() ==> (#[trigger] entries_at(base, path)[i]).path
                == path,
    decreases base.len(),
{
    if base.len() > 0 {
        lemma_entries_at_paths(base.drop_last(), path);
        let rest = entries_at(base.drop_last(), path);
        assert forall|i: int| 0 <= i < entries_at(base, path).len() implies (
        #[trigger] entries_at(base, path)[i]).path == path by {
            if i < rest.len() {
                assert(entries_at(base, path)[i] == rest[i]);
            }
        }
    }
}

proof fn lemma_entries_at_none(base: Seq<FileEntry>, path: Seq<char>)
    requires
        forall|i: int| 0 <= i < base.len() ==> (#[trigger] base[i]).path != path,
    ensures
        entries_at(base, path) == Seq::<FileEntry>::empty(),
    decreases base.len(),
{
    if base.len() > 0 {
        assert(base.last() == base[base.len() - 1]);
        assert forall|i: int| 0 <= i < base.drop_last().len() implies (
        #[trigger] base.drop_last()[i]).path != path by {
            assert(base.drop_last()[i] == base[i]);
        }
        lemma_entries_at_none(base.drop_last(), path);
    }
}

proof fn lemma_entries_at_all(base: Seq<FileEntry>, path: Seq<char>)
    requires
        forall|i: int| 0 <= i < base.len() ==> (#[trigger] base[i]).path == path,
    ensures
        entries_at(base, path) == base,
    decreases base.len(),
{
    if base.len() > 0 {
        assert(base.last() == base[base.len() - 1]);
        assert forall|i: int| 0 <= i < base.drop_last().len() implies (
        #[trigger] base.drop_last()[i]).path == path by {
            assert(base.drop_last()[i] == base[i]);
        }
        lemma_entries_at_all(base.drop_last(), path);
        assert(base.drop_last().push(base.last()) =~= base);
    } else {
        assert(base =~= Seq::<FileEntry>::empty());
    }
}

proof fn lemma_walked_paths(items: Seq<WalkedItemView>, ignore: Seq<Seq<char>>)
    ensures
        forall|i: int|
            0 <= i < walked(items, ignore).len() ==> !ignore.contains(
                (#[trigger] walked(items, ignore)[i]).path,
            ),
    decreases items.len(),
{
    if items.len() > 0 {
        lemma_walked_paths(items.drop_last(), ignore);
        let rest = walked(items.drop_last(), ignore);
        assert forall|i: int| 0 <= i < walked(items, ignore).len() implies !ignore.contains(
            (#[trigger] walked(items, ignore)[i]).path,
        ) by {
            if i < rest.len() {
                assert(walked(items, ignore)[i] == rest[i]);
            }
        }
    }
}

proof fn lemma_entries_at_carried(
    base: Seq<FileEntry>,
    ignore: Seq<Seq<char>>,
    path: Seq<char>,
)
    requires
        ignore.no_duplicates(),
    ensures
        entries_at(carried(base, ignore), path) == if ignore.contains(path) {
            entries_at(base, path)
        } else {
            Seq::<FileEntry>::empty()
        },
    decreases ignore.len(),
{
    if ignore.len() == 0 {
    } else {
        let front = ignore.drop_last();
        let last = ignore.last();
        assert(ignore[ignore.len() - 1] == last);
        assert forall|i: int, j: int| 0 <= i < j < front.len() implies front[i] != front[j] by {
            assert(front[i] == ignore[i] && front[j] == ignore[j]);
        }
        lemma_entries_at_carried(base, front, path);
        lemma_entries_at_concat(carried(base, front), entries_at(base, last), path);
        lemma_entries_at_paths(base, last);
        if path == last {
            if front.contains(path) {
                let i = choose|i: int| 0 <= i < front.len() && front[i] == path;
                assert(ignore[i] == front[i]);
                assert(false);
            }
            lemma_entries_at_all(entries_at(base, last), path);
            assert(entries_at(carried(base, ignore), path) =~= entries_at(base, path));
        } else {
            lemma_entries_at_none(entries_at(base, last), path);
            assert(ignore.contains(path) == front.contains(path)) by {
                if ignore.contains(path) {
                    let i = choose|i: int| 0 <= i < ignore.len() && ignore[i] == path;
                    assert(front[i] == path);
                }
                if front.contains(path) {
                    let i = choose|i: int| 0 <= i < front.len() && front[i] == path;
                    assert(ignore[i] == path);
                }
            }
            assert(entries_at(carried(base, ignore), path) =~= entries_at(
                carried(base, front),
                path,
            ));
        }
    }
}

proof fn lemma_carried_again(
    kept: Seq<FileEntry>,
    walk: Seq<FileEntry>,
    base: Seq<FileEntry>,
    part: Seq<Seq<char>>,
    ignore: Seq<Seq<char>>,
)
    requires
        forall|i: int| 0 <= i < part.len() ==> ignore.contains(#[trigger] part[i]),
        forall|i: int| 0 <= i < walk.len() ==> !ignore.contains((#[trigger] walk[i]).path),
        forall|p: Seq<char>|
            ignore.contains(p) ==> #[trigger] entries_at(kept, p) == entries_at(base, p),
    ensures
        carried(kept + walk, part) == carried(base, part),
    decreases part.len(),
{
    if part.len() > 0 {
        let front = part.drop_last();
        let last = part.last();
        assert(part[part.len() - 1] == last);
        assert forall|i: int| 0 <= i < front.len() implies ignore.contains(#[trigger] front[i]) by {
            assert(front[i] == part[i]);
        }
        lemma_carried_again(kept, walk, base, front, ignore);
        lemma_entries_at_concat(kept, walk, last);
        lemma_entries_at_none(walk, last);
        assert(entries_at(kept, last) == entries_at(base, last));
        assert(entries_at(kept + walk, last) =~= entries_at(base, last));
    }
}

proof fn lemma_carried_of_nothing(base: Seq<FileEntry>, part: Seq<Seq<char>>)
    requires
        forall|p: Seq<char>| #[trigger] entries_at(base, p) == Seq::<FileEntry>::empty(),
    ensures
        carried(base, part) == Seq::<FileEntry>::empty(),
    decreases part.len(),
{
    if part.len() > 0 {
        lemma_carried_of_nothing(base, part.drop_last());
        assert(entries_at(base, part.last()) == Seq::<FileEntry>::empty());
        assert(carried(base, part) =~= Seq::<FileEntry>::empty());
    }
}

/// Beyond holding the same records: where the ignore list names no path
/// twice, a pass that starts from the snapshot of the pass before it, over
/// the same walk, produces that snapshot again, record for record.
pub proof fn lemma_pass_is_stable(
    base: Option<Seq<FileEntry>>,
    ignore: Seq<Seq<char>>,
    items: Seq<WalkedItemView>,
)
    requires
        ignore.no_duplicates(),
    ensures
        snapshot_of(Some(snapshot_of(base, ignore, items)), ignore, items) == snapshot_of(
            base,
            ignore,
            items,
        ),
{
    let walk = walked(items, ignore);
    lemma_walked_paths(items, ignore);
    match base {
        Some(b) => {
            let kept = carried(b, ignore);
            assert forall|p: Seq<char>| ignore.contains(p) implies #[trigger] entries_at(kept, p)
                == entries_at(b, p) by {
                lemma_entries_at_carried(b, ignore, p);
            }
            assert forall|i: int| 0 <= i < ignore.len() implies ignore.contains(
                #[trigger] ignore[i],
            ) by {}
            lemma_carried_again(kept, walk, b, ignore, ignore);
        },
        None => {
            let kept = Seq::<FileEntry>::empty();
            assert(kept + walk =~= walk);
            assert forall|p: Seq<char>| ignore.contains(p) implies #[trigger] entries_at(kept, p)
                == entries_at(kept, p) by {}
            assert forall|i: int| 0 <= i < ignore.len() implies ignore.contains(
                #[trigger] ignore[i],
            ) by {}
            lemma_carried_again(kept, walk, kept, ignore, ignore);
            assert forall|p: Seq<char>| #[trigger]
                entries_at(kept, p) == Seq::<FileEntry>::empty() by {}
            lemma_carried_of_nothing(kept, ignore);
        },
    }
}

proof fn lemma_present_changes(previous: Seq<FileEntry>, current: Seq<FileEntry>)
    ensures
        present_changes(previous, current).len() == current.len(),
        forall|i: int|
            0 <= i < current.len() ==> #[trigger] present_changes(previous, current)[i]
                == (ChangeView { file: current[i], change: change_of(previous, current[i]) }),
    decreases current.len(),
{
    if current.len() > 0 {
        lemma_present_changes(previous, current.drop_last());
        assert forall|i: int| 0 <= i < current.len() implies #[trigger] present_changes(
            previous,
            current,
        )[i] == (ChangeView { file: current[i], change: change_of(previous, current[i]) }) by {
            if i < current.len() - 1 {
                assert(current.drop_last()[i] == current[i]);
            }
        }
    }
}

proof fn lemma_nothing_vanished(previous: Seq<FileEntry>, current: Seq<FileEntry>)
    requires
        forall|i: int|
            0 <= i < previous.len() ==> first_with_path(current, (#[trigger] previous[i]).path)
                is Some,
    ensures
        vanished(previous, current) == Seq::<ChangeView>::empty(),
    decreases previous.len(),
{
    if previous.len() > 0 {
        assert(previous.last() == previous[previous.len() - 1]);
        assert forall|i: int| 0 <= i < previous.drop_last().len() implies first_with_path(
            current,
            (#[trigger] previous.drop_last()[i]).path,
        ) is Some by {
            assert(previous.drop_last()[i] == previous[i]);
        }
        lemma_nothing_vanished(previous.drop_last(), current);
    }
}

/// Comparing a snapshot with itself finds no change: there is one result for
/// each file, in order, and each says `NoChange`.  The snapshot must hold no
/// path twice.
pub proof fn lemma_same_snapshot_has_no_change(files: Seq<FileEntry>)
    requires
        paths_distinct(files),
    ensures
        diff_spec(files, files).len() == files.len(),
        forall|i: int|
            0 <= i < files.len() ==> #[trigger] diff_spec(files, files)[i] == (ChangeView {
                file: files[i],
                change: ChangeType::NoChange,
            }),
{
    lemma_present_changes(files, files);
    assert forall|i: int| 0 <= i < files.len() implies first_with_path(
        files,
        (#[trigger] files[i]).path,
    ) == Some(files[i]) by {
        lemma_first_with_path_found(files, files[i].path, i);
    }
    lemma_nothing_vanished(files, files);
    assert(diff_spec(files, files) =~= present_changes(files, files));
}

/// Whether no two recorded items of a walk have the same path.
pub open spec fn recorded_paths_distinct(items: Seq<WalkedItemView>, ignore: Seq<Seq<char>>) -> bool {
    forall|i: int, j: int|
        0 <= i < j < items.len() && is_recorded(#[trigger] items[i], ignore) && is_recorded(
            #[trigger] items[j],
            ignore,
        ) ==> items[i].relative_path != items[j].relative_path
}

/// Whether some recorded item of a walk has the path `path`.
pub open spec fn has_recorded_path(
    items: Seq<WalkedItemView>,
    ignore: Seq<Seq<char>>,
    path: Seq<char>,
) -> bool {
    exists|i: int|
        0 <= i < items.len() && is_recorded(#[trigger] items[i], ignore) && items[i].relative_path == path
}

proof fn lemma_walked_sources(items: Seq<WalkedItemView>, ignore: Seq<Seq<char>>)
    ensures
        forall|k: int|
            0 <= k < walked(items, ignore).len() ==> has_recorded_path(
                items,
                ignore,
                (#[trigger] walked(items, ignore)[k]).path,
            ),
    decreases items.len(),
{
    if items.len() > 0 {
        let front = items.drop_last();
        lemma_walked_sources(front, ignore);
        let rest = walked(front, ignore);
        let all = walked(items, ignore);
        assert forall|k: int| 0 <= k < all.len() implies has_recorded_path(
            items,
            ignore,
            (#[trigger] all[k]).path,
        ) by {
            if k < rest.len() {
                assert(all[k] == rest[k]);
                assert(has_recorded_path(front, ignore, rest[k].path));
                let i = choose|i: int|
                    0 <= i < front.len() && is_recorded(#[trigger] front[i], ignore)
                        && front[i].relative_path == rest[k].path;
                assert(items[i] == front[i]);
            } else {
                let i = items.len() - 1;
                assert(is_recorded(items[i], ignore) && items[i].relative_path == all[k].path);
            }
        }
    }
}

proof fn lemma_walked_distinct(items: Seq<WalkedItemView>, ignore: Seq<Seq<char>>)
    requires
        recorded_paths_distinct(items, ignore),
    ensures
        paths_distinct(walked(items, ignore)),
    decreases items.len(),
{
    if items.len() > 0 {
        let front = items.drop_last();
        assert forall|i: int, j: int|
            0 <= i < j < front.len() && is_recorded(#[trigger] front[i], ignore) && is_recorded(
                #[trigger] front[j],
                ignore,
            ) implies front[i].relative_path != front[j].relative_path by {
            assert(front[i] == items[i] && front[j] == items[j]);
        }
        lemma_walked_distinct(front, ignore);
        lemma_walked_sources(front, ignore);
        let rest = walked(front, ignore);
        let all = walked(items, ignore);
        assert forall|a: int, b: int| 0 <= a < b < all.len() implies (#[trigger] all[a]).path != (
        #[trigger] all[b]).path by {
            if b < rest.len() {
                assert(all[a] == rest[a] && all[b] == rest[b]);
            } else {
                assert(all[a] == rest[a]);
                assert(has_recorded_path(front, ignore, rest[a].path));
                let i = choose|i: int|
                    0 <= i < front.len() && is_recorded(#[trigger] front[i], ignore)
                        && front[i].relative_path == rest[a].path;
                assert(items[i] == front[i]);
                assert(is_recorded(items[items.len() - 1], ignore));
            }
        }
    }
}

proof fn lemma_entries_at_is_short(base: Seq<FileEntry>, path: Seq<char>)
    requires
        paths_distinct(base),
    ensures
        entries_at(base, path).len() <= 1,
        entries_at(base, path).len() == 1 ==> exists|i: int|
            0 <= i < base.len() && (#[trigger] base[i]).path == path,
    decreases base.len(),
{
    if base.len() > 0 {
        let front = base.drop_last();
        assert forall|i: int, j: int| 0 <= i < j < front.len() implies (#[trigger] front[i]).path
            != (#[trigger] front[j]).path by {
            assert(front[i] == base[i] && front[j] == base[j]);
        }
        lemma_entries_at_is_short(front, path);
        if entries_at(front, path).len() == 1 {
            let i = choose|i: int| 0 <= i < front.len() && (#[trigger] front[i]).path == path;
            assert(base[i] == front[i]);
            assert(base[base.len() - 1].path != base[i].path);
        }
        if base.last().path == path {
            assert(base[base.len() - 1].path == path);
        }
    }
}

proof fn lemma_carried_paths(base: Seq<FileEntry>, ignore: Seq<Seq<char>>)
    ensures
        forall|k: int|
            0 <= k < carried(base, ignore).len() ==> ignore.contains(
                (#[trigger] carried(base, ignore)[k]).path,
            ),
    decreases ignore.len(),
{
    if ignore.len() > 0 {
        let front = ignore.drop_last();
        lemma_carried_paths(base, front);
        lemma_entries_at_paths(base, ignore.last());
        let head = carried(base, front);
        let tail = entries_at(base, ignore.last());
        assert forall|k: int| 0 <= k < carried(base, ignore).len() implies ignore.contains(
            (#[trigger] carried(base, ignore)[k]).path,
        ) by {
            if k < head.len() {
                assert(carried(base, ignore)[k] == head[k]);
                let i = choose|i: int| 0 <= i < front.len() && front[i] == head[k].path;
                assert(ignore[i] == front[i]);
            } else {
                assert(carried(base, ignore)[k] == tail[k - head.len()]);
                assert(ignore[ignore.len() - 1] == ignore.last());
            }
        }
    }
}

proof fn lemma_carried_distinct(base: Seq<FileEntry>, ignore: Seq<Seq<char>>)
    requires
        paths_distinct(base),
        ignore.no_duplicates(),
    ensures
        paths_distinct(carried(base, ignore)),
    decreases ignore.len(),
{
    if ignore.len() > 0 {
        let front = ignore.drop_last();
        let last = ignore.last();
        assert forall|i: int, j: int| 0 <= i < j < front.len() implies front[i] != front[j] by {
            assert(front[i] == ignore[i] && front[j] == ignore[j]);
        }
        lemma_carried_distinct(base, front);
        lemma_carried_paths(base, front);
        lemma_entries_at_paths(base, last);
        lemma_entries_at_is_short(base, last);
        let head = carried(base, front);
        let tail = entries_at(base, last);
        let all = carried(base, ignore);
        assert forall|a: int, b: int| 0 <= a < b < all.len() implies (#[trigger] all[a]).path != (
        #[trigger] all[b]).path by {
            if b < head.len() {
                assert(all[a] == head[a] && all[b] == head[b]);
            } else {
                assert(all[b] == tail[b - head.len()]);
                assert(a < head.len());
                assert(all[a] == head[a]);
                let i = choose|i: int| 0 <= i < front.len() && front[i] == head[a].path;
                assert(ignore[i] == front[i]);
                assert(ignore[ignore.len() - 1] == last);
            }
        }
    }
}

/// A pass over a walk that names no recorded path twice, from a snapshot
/// that holds no path twice and with an ignore list that names none twice,
/// produces a snapshot that holds no path twice.
pub proof fn lemma_snapshot_paths_distinct(
    base: Option<Seq<FileEntry>>,
    ignore: Seq<Seq<char>>,
    items: Seq<WalkedItemView>,
)
    requires
        ignore.no_duplicates(),
        base matches Some(b) ==> paths_distinct(b),
        recorded_paths_distinct(items, ignore),
    ensures
        paths_distinct(snapshot_of(base, ignore, items)),
{
    let kept = match base {
        Some(b) => carried(b, ignore),
        None => Seq::<FileEntry>::empty(),
    };
    let walk = walked(items, ignore);
    lemma_walked_distinct(items, ignore);
    lemma_walked_paths(items, ignore);
    match base {
        Some(b) => {
            lemma_carried_distinct(b, ignore);
            lemma_carried_paths(b, ignore);
        },
        None => {},
    }
    let all = kept + walk;
    assert forall|a: int, b: int| 0 <= a < b < all.len() implies (#[trigger] all[a]).path != (
    #[trigger] all[b]).path by {
        if b < kept.len() {
            assert(all[a] == kept[a] && all[b] == kept[b]);
        } else if a < kept.len() {
            assert(all[a] == kept[a] && all[b] == walk[b - kept.len()]);
            assert(ignore.contains(kept[a].path));
        } else {
            assert(all[a] == walk[a - kept.len()] && all[b] == walk[b - kept.len()]);
        }
    }
}

/// Whether the entries that a snapshot has for one path are one and the
/// same record.
pub open spec fn paths_agree(files: Seq<FileEntry>) -> bool {
    forall|i: int, j: int|
        0 <= i < files.len() && 0 <= j < files.len() && (#[trigger] files[i]).path == (
        #[trigger] files[j]).path ==> files[i] == files[j]
}

proof fn lemma_concat_contains(a: Seq<FileEntry>, b: Seq<FileEntry>, x: FileEntry)
    ensures
        (a + b).contains(x) <==> a.contains(x) || b.contains(x),
{
    let all = a + b;
    if all.contains(x) {
        let k = choose|k: int| 0 <= k < all.len() && all[k] == x;
        if k < a.len() {
            assert(a[k] == x);
        } else {
            assert(b[k - a.len()] == x);
        }
    }
    if a.contains(x) {
        let k = choose|k: int| 0 <= k < a.len() && a[k] == x;
        assert(all[k] == x);
    }
    if b.contains(x) {
        let k = choose|k: int| 0 <= k < b.len() && b[k] == x;
        assert(all[a.len() + k] == x);
    }
}

proof fn lemma_entries_at_contains(base: Seq<FileEntry>, path: Seq<char>, x: FileEntry)
    ensures
        entries_at(base, path).contains(x) <==> base.contains(x) && x.path == path,
    decreases base.len(),
{
    if base.len() > 0 {
        let front = base.drop_last();
        let last = base.last();
        lemma_entries_at_contains(front, path, x);
        assert(base =~= front + seq![last]);
        lemma_concat_contains(front, seq![last], x);
        assert(seq![last].contains(x) <==> x == last) by {
            if seq![last].contains(x) {
                let k = choose|k: int| 0 <= k < seq![last].len() && seq![last][k] == x;
            }
            if x == last {
                assert(seq![last][0] == x);
            }
        }
        if last.path == path {
            assert(entries_at(base, path) =~= entries_at(front, path) + seq![last]);
            lemma_concat_contains(entries_at(front, path), seq![last], x);
        }
    }
}

proof fn lemma_carried_contains(base: Seq<FileEntry>, ignore: Seq<Seq<char>>, x: FileEntry)
    ensures
        carried(base, ignore).contains(x) <==> base.contains(x) && ignore.contains(x.path),
    decreases ignore.len(),
{
    if ignore.len() > 0 {
        let front = ignore.drop_last();
        let last = ignore.last();
        lemma_carried_contains(base, front, x);
        lemma_entries_at_contains(base, last, x);
        lemma_concat_contains(carried(base, front), entries_at(base, last), x);
        assert(ignore.contains(x.path) <==> front.contains(x.path) || x.path == last) by {
            if ignore.contains(x.path) {
                let k = choose|k: int| 0 <= k < ignore.len() && ignore[k] == x.path;
                if k < front.len() {
                    assert(front[k] == x.path);
                }
            }
            if front.contains(x.path) {
                let k = choose|k: int| 0 <= k < front.len() && front[k] == x.path;
                assert(ignore[k] == x.path);
            }
            if x.path == last {
                assert(ignore[ignore.len() - 1] == x.path);
            }
        }
    }
}

proof fn lemma_first_with_path(files: Seq<FileEntry>, path: Seq<char>)
    ensures
        first_with_path(files, path) is Some <==> exists|i: int|
            0 <= i < files.len() && (#[trigger] files[i]).path == path,
        first_with_path(files, path) is Some ==> files.contains(first_with_path(files, path)->0)
            && first_with_path(files, path)->0.path == path,
    decreases files.len(),
{
    if files.len() > 0 {
        let rest = files.drop_first();
        lemma_first_with_path(rest, path);
        if files[0].path == path {
            assert(files.contains(files[0]));
        } else {
            if exists|i: int| 0 <= i < rest.len() && (#[trigger] rest[i]).path == path {
                let i = choose|i: int| 0 <= i < rest.len() && (#[trigger] rest[i]).path == path;
                assert(files[i + 1] == rest[i]);
            }
            if exists|i: int| 0 <= i < files.len() && (#[trigger] files[i]).path == path {
                let i = choose|i: int| 0 <= i < files.len() && (#[trigger] files[i]).path == path;
                assert(rest[i - 1] == files[i]);
            }
            if first_with_path(rest, path) is Some {
                let x = first_with_path(rest, path)->0;
                let k = choose|k: int| 0 <= k < rest.len() && rest[k] == x;
                assert(files[k + 1] == x);
            }
        }
    }
}

/// Comparing a snapshot with one that holds the same records finds no
/// change: there is one result for each record of the second, and each says
/// `NoChange`.  The entries that the first has for one path must be one
/// record.
pub proof fn lemma_same_records_have_no_change(first: Seq<FileEntry>, second: Seq<FileEntry>)
    requires
        paths_agree(first),
        forall|x: FileEntry| first.contains(x) <==> second.contains(x),
    ensures
        diff_spec(first, second).len() == second.len(),
        forall|i: int|
            0 <= i < second.len() ==> #[trigger] diff_spec(first, second)[i] == (ChangeView {
                file: second[i],
                change: ChangeType::NoChange,
            }),
{
    lemma_present_changes(first, second);
    assert forall|i: int| 0 <= i < second.len() implies change_of(first, #[trigger] second[i])
        == ChangeType::NoChange by {
        let f = second[i];
        assert(second.contains(f));
        assert(first.contains(f));
        let k = choose|k: int| 0 <= k < first.len() && first[k] == f;
        lemma_first_with_path(first, f.path);
        assert(first[k].path == f.path);
        let found = first_with_path(first, f.path)->0;
        let m = choose|m: int| 0 <= m < first.len() && first[m] == found;
        assert(first[m].path == first[k].path);
        assert(found == f);
    }
    assert forall|i: int| 0 <= i < first.len() implies first_with_path(
        second,
        (#[trigger] first[i]).path,
    ) is Some by {
        assert(first.contains(first[i]));
        assert(second.contains(first[i]));
        let k = choose|k: int| 0 <= k < second.len() && second[k] == first[i];
        lemma_first_with_path(second, first[i].path);
        assert(second[k].path == first[i].path);
    }
    lemma_nothing_vanished(first, second);
    assert(diff_spec(first, second) =~= present_changes(first, second));
}

/// Running a pass twice over an unchanged directory, with whatever ignore
/// list: the second pass, which starts from the snapshot of the first, holds
/// the same records as the first, and comparing the two finds `NoChange`
/// for every file.  The snapshot that the first pass starts from must hold
/// no path twice, and the walk must name no recorded path twice.
pub proof fn lemma_second_pass_has_no_change(
    base: Option<Seq<FileEntry>>,
    ignore: Seq<Seq<char>>,
    items: Seq<WalkedItemView>,
)
    requires
        base matches Some(b) ==> paths_distinct(b),
        recorded_paths_distinct(items, ignore),
    ensures
        ({
            let first = snapshot_of(base, ignore, items);
            let second = snapshot_of(Some(first), ignore, items);
            &&& first.to_set() == second.to_set()
            &&& diff_spec(first, second).len() == second.len()
            &&& forall|i: int|
                0 <= i < second.len() ==> (#[trigger] diff_spec(first, second)[i]).change
                    == ChangeType::NoChange
        }),
{
    let kept = match base {
        Some(b) => carried(b, ignore),
        None => Seq::<FileEntry>::empty(),
    };
    let walk = walked(items, ignore);
    let first = kept + walk;
    let again = carried(first, ignore);
    let second = again + walk;
    lemma_walked_paths(items, ignore);
    lemma_walked_distinct(items, ignore);
    assert forall|x: FileEntry| kept.contains(x) implies ignore.contains(x.path) by {
        match base {
            Some(b) => {
                lemma_carried_contains(b, ignore, x);
            },
            None => {},
        }
    }
    assert forall|x: FileEntry| walk.contains(x) implies !ignore.contains(x.path) by {
        let k = choose|k: int| 0 <= k < walk.len() && walk[k] == x;
    }
    assert forall|x: FileEntry| first.contains(x) <==> second.contains(x) by {
        lemma_concat_contains(kept, walk, x);
        lemma_concat_contains(again, walk, x);
        lemma_carried_contains(first, ignore, x);
    }
    assert(first.to_set() =~= second.to_set());
    assert forall|i: int, j: int|
        0 <= i < first.len() && 0 <= j < first.len() && (#[trigger] first[i]).path == (
        #[trigger] first[j]).path implies first[i] == first[j] by {
        if i < kept.len() {
            assert(first[i] == kept[i]);
            assert(kept.contains(kept[i]));
        } else {
            assert(first[i] == walk[i - kept.len()]);
            assert(walk.contains(walk[i - kept.len()]));
        }
        if j < kept.len() {
            assert(first[j] == kept[j]);
            assert(kept.contains(kept[j]));
        } else {
            assert(first[j] == walk[j - kept.len()]);
            assert(walk.contains(walk[j - kept.len()]));
        }
        if i < kept.len() && j < kept.len() {
            let b = base->0;
            lemma_carried_contains(b, ignore, kept[i]);
            lemma_carried_contains(b, ignore, kept[j]);
            let a = choose|a: int| 0 <= a < b.len() && b[a] == kept[i];
            let c = choose|c: int| 0 <= c < b.len() && b[c] == kept[j];
            assert(b[a].path == b[c].path);
            assert(a == c);
        } else if i >= kept.len() && j >= kept.len() {
            assert(i == j);
        }
    }
    lemma_same_records_have_no_change(first, second);
}

/// Whether `key` is one of the texts of `list`.
pub fn is_key_in_list(key: &String, list: &Vec<String>) -> (r: bool)
    ensures
        r == list.deep_view().contains(key@),
{
    let mut i: usize = 0;
    while i < list.len()
        invariant
            i <= list.len(),
            forall|j: int| 0 <= j < i ==> list.deep_view()[j] != key@,
        decreases list.len() - i,
    {
        if list[i] == *key {
            assert(list.deep_view()[i as int] == key@);
            return true;
        }
        i += 1;
    }
    false
}

/// The place of the first file of `files` with the path `path`.
pub fn find_path(files: &Vec<LocalCADFile>, path: &String) -> (r: Option<usize>)
    ensures
        match r {
            Some(i) => i < files.len() && first_with_path(files.deep_view(), path@) == Some(
                files.deep_view()[i as int],
            ),
            None => first_with_path(files.deep_view(), path@) is None,
        },
{
    let mut i: usize = 0;
    while i < files.len()
        invariant
            i <= files.len(),
            forall|j: int| 0 <= j < i ==> (#[trigger] files.deep_view()[j]).path != path@,
        decreases files.len() - i,
    {
        if files[i].path == *path {
            proof {
                lemma_first_with_path_found(files.deep_view(), path@, i as int);
            }
            return Some(i);
        }
        i += 1;
    }
    proof {
        lemma_first_with_path_missing(files.deep_view(), path@);
    }
    None
}

/// The entries that a pass keeps from the previous snapshot for the ignored
/// paths, without looking at the files again.
pub fn carry_over(base: &Vec<LocalCADFile>, ignore_list: &Vec<String>) -> (r: Vec<LocalCADFile>)
    ensures
        r.deep_view() == carried(base.deep_view(), ignore_list.deep_view()),
{
    let mut out: Vec<LocalCADFile> = Vec::new();
    let mut i: usize = 0;
    assert(out.deep_view() =~= Seq::<FileEntry>::empty());
    while i < ignore_list.len()
        invariant
            i <= ignore_list.len(),
            out.deep_view() == carried(base.deep_view(), ignore_list.deep_view().take(i as int)),
        decreases ignore_list.len() - i,
    {
        let ghost before = out.deep_view();
        let ghost ignored = ignore_list.deep_view()[i as int];
        let mut j: usize = 0;
        assert(base.deep_view().take(0) =~= Seq::<FileEntry>::empty());
        while j < base.len()
            invariant
                i < ignore_list.len(),
                j <= base.len(),
                ignored == ignore_list.deep_view()[i as int],
                out.deep_view() == before + entries_at(base.deep_view().take(j as int), ignored),
            decreases base.len() - j,
        {
            let ghost so_far = out.deep_view();
            assert(base.deep_view().take(j as int + 1).drop_last() =~= base.deep_view().take(
                j as int,
            ));
            if base[j].path == ignore_list[i] {
                let kept = LocalCADFile {
                    path: ignore_list[i].clone(),
                    size: base[j].size,
                    hash: base[j].hash.clone(),
                };
                assert(kept@ == base.deep_view()[j as int]);
                out.push(kept);
                assert(out.deep_view() =~= so_far.push(base.deep_view()[j as int]));
            }
            j += 1;
        }
        assert(base.deep_view().take(base.len() as int) =~= base.deep_view());
        assert(ignore_list.deep_view().take(i as int + 1).drop_last()
            =~= ignore_list.deep_view().take(i as int));
        i += 1;
    }
    assert(ignore_list.deep_view().take(ignore_list.len() as int) =~= ignore_list.deep_view());
    out
}

/// Builds the snapshot of one pass over a directory.
///
/// `base` is the previous snapshot, where one could be read.  `items` is the
/// directory walk, each item under its path relative to the root; the
/// snapshot records that path, and the ignore list names files by it.  The pass is given up, and nothing is produced, when the
/// metadata of some walked path could not be read.
pub fn hash_dir(
    base: Option<&Vec<LocalCADFile>>,
    ignore_list: &Vec<String>,
    items: &Vec<WalkedItem>,
) -> (r: Result<Vec<LocalCADFile>, ScanError>)
    ensures
        match r {
            Ok(files) => !unreadable(items.deep_view()) && files.deep_view() == snapshot_of(
                match base {
                    Some(b) => Some(b.deep_view()),
                    None => None,
                },
                ignore_list.deep_view(),
                items.deep_view(),
            ),
            Err(e) => unreadable(items.deep_view()),
        },
{
    let mut files: Vec<LocalCADFile> = match base {
        Some(b) => carry_over(b, ignore_list),
        None => Vec::new(),
    };
    let ghost kept = files.deep_view();
    assert(files.deep_view() =~= kept + Seq::<FileEntry>::empty());
    assert(items.deep_view().take(0) =~= Seq::<WalkedItemView>::empty());
    let mut i: usize = 0;
    while i < items.len()
        invariant
            i <= items.len(),
            forall|j: int| 0 <= j < i ==> !unreadable_at(items.deep_view(), j),
            files.deep_view() == kept + walked(
                items.deep_view().take(i as int),
                ignore_list.deep_view(),
            ),
        decreases items.len() - i,
    {
        let item = &items[i];
        let ghost so_far = files.deep_view();
        assert(items.deep_view().take(i as int + 1).drop_last() =~= items.deep_view().take(
            i as int,
        ));
        assert(items.deep_view().take(i as int + 1).last() == item@);
        if item.relative_path.as_str().is_empty() {
        } else {
            match item.meta {
                None => {
                    assert(unreadable_at(items.deep_view(), i as int));
                    return Err(ScanError::Unreadable);
                },
                Some(meta) => {
                    proof {
                        reveal_strlit("~$");
                        assert("~$"@ =~= lock_marker());
                    }
                    if meta.is_file && !is_key_in_list(&item.relative_path, ignore_list) && !contains_text(
                        &item.relative_path,
                        "~$",
                    ) {
                        let file = LocalCADFile {
                            hash: bytes_to_hex(&item.hash),
                            path: item.relative_path.clone(),
                            size: meta.len,
                        };
                        assert(file@ == entry_of(item@));
                        files.push(file);
                        assert(files.deep_view() =~= so_far.push(entry_of(item@)));
                    }
                },
            }
        }
        i += 1;
    }
    assert(items.deep_view().take(items.len() as int) =~= items.deep_view());
    assert(!unreadable(items.deep_view()));
    Ok(files)
}

/// Compares the snapshot of a pass with the snapshot before it.
pub fn diff_snapshots(previous: &Vec<LocalCADFile>, current: &Vec<LocalCADFile>) -> (r: Vec<
    Change,
>)
    ensures
        r.deep_view() == diff_spec(previous.deep_view(), current.deep_view()),
{
    let mut out: Vec<Change> = Vec::new();
    assert(out.deep_view() =~= Seq::<ChangeView>::empty());
    assert(current.deep_view().take(0) =~= Seq::<FileEntry>::empty());
    let mut i: usize = 0;
    while i < current.len()
        invariant
            i <= current.len(),
            out.deep_view() == present_changes(
                previous.deep_view(),
                current.deep_view().take(i as int),
            ),
        decreases current.len() - i,
    {
        let file = &current[i];
        let ghost so_far = out.deep_view();
        assert(current.deep_view().take(i as int + 1).drop_last() =~= current.deep_view().take(
            i as int,
        ));
        assert(current.deep_view().take(i as int + 1).last() == file@);
        let change = match find_path(previous, &file.path) {
            Some(at) => {
                let prior = PriorState {
                    base_hash: previous[at].hash.clone(),
                    in_fs: true,
                    change: ChangeType::NoChange,
                };
                assert(prior@ == state_of(previous.deep_view()[at as int]));
                classify(Some(&prior), Some(&file.hash))
            },
            None => classify(None, Some(&file.hash)),
        };
        assert(change == change_of(previous.deep_view(), file@));
        out.push(Change { file: file.clone(), change });
        assert(out.deep_view() =~= so_far.push(ChangeView { file: file@, change }));
        i += 1;
    }
    assert(current.deep_view().take(current.len() as int) =~= current.deep_view());
    let ghost present = out.deep_view();
    assert(out.deep_view() =~= present + Seq::<ChangeView>::empty());
    assert(previous.deep_view().take(0) =~= Seq::<FileEntry>::empty());
    let mut k: usize = 0;
    while k < previous.len()
        invariant
            k <= previous.len(),
            out.deep_view() == present + vanished(
                previous.deep_view().take(k as int),
                current.deep_view(),
            ),
        decreases previous.len() - k,
    {
        let file = &previous[k];
        let ghost so_far = out.deep_view();
        assert(previous.deep_view().take(k as int + 1).drop_last() =~= previous.deep_view().take(
            k as int,
        ));
        assert(previous.deep_view().take(k as int + 1).last() == file@);
        if find_path(current, &file.path).is_none() {
            let prior = PriorState {
                base_hash: file.hash.clone(),
                in_fs: true,
                change: ChangeType::NoChange,
            };
            assert(prior@ == state_of(file@));
            let change = classify(Some(&prior), None);
            out.push(Change { file: file.clone(), change });
            assert(out.deep_view() =~= so_far.push(ChangeView { file: file@, change }));
        }
        k += 1;
    }
    assert(previous.deep_view().take(previous.len() as int) =~= previous.deep_view());
    out
}

} // verus!
