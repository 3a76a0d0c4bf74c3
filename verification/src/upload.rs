//! The upload side of the transfer engine: the form that carries one file to
//! the service, and the progress of a batch that is sent file by file.
use crate::change::ChangeType;
use crate::fingerprint::{Change, ChangeView};
use crate::text::{
    decimal, lemma_without_prefix_of_joined, strip_prefix, u64_to_decimal, without_prefix,
};
use vstd::prelude::*;
use vstd::string::*;

verus! {

/// What is reported after each file of an upload.
#[derive(Clone, Copy, Debug, PartialEq, Eq, Structural)]
pub struct UploadStatusPayload {
    pub uploaded: u32,
    pub total: u32,
}

/// One text field of an upload form.
pub struct FormField {
    pub name: String,
    pub value: String,
}

pub struct FormFieldView {
    pub name: Seq<char>,
    pub value: Seq<char>,
}

impl View for FormField {
    type V = FormFieldView;

    open spec fn view(&self) -> FormFieldView {
        FormFieldView { name: self.name@, value: self.value@ }
    }
}

impl DeepView for FormField {
    type V = FormFieldView;

    open spec fn deep_view(&self) -> FormFieldView {
        self@
    }
}

/// The part of an upload form that carries the bytes of a file: the name of
/// the part, the file name it is sent under and the path to read it from.
pub struct FilePart {
    pub name: String,
    pub file_name: String,
    pub source: String,
}

pub struct FilePartView {
    pub name: Seq<char>,
    pub file_name: Seq<char>,
    pub source: Seq<char>,
}

impl View for FilePart {
    type V = FilePartView;

    open spec fn view(&self) -> FilePartView {
        FilePartView { name: self.name@, file_name: self.file_name@, source: self.source@ }
    }
}

/// The form that carries one file, or the deletion of one, to the service.
pub struct UploadForm {
    pub fields: Vec<FormField>,
    pub part: Option<FilePart>,
}

pub struct UploadFormView {
    pub fields: Seq<FormFieldView>,
    pub part: Option<FilePartView>,
}

impl View for UploadForm {
    type V = UploadFormView;

    open spec fn view(&self) -> UploadFormView {
        UploadFormView {
            fields: self.fields.deep_view(),
            part: match self.part {
                Some(p) => Some(p@),
                None => None,
            },
        }
    }
}

impl DeepView for UploadForm {
    type V = UploadFormView;

    open spec fn deep_view(&self) -> UploadFormView {
        self@
    }
}

/// The path of a file as the service knows it: its path relative to the
/// directory of the project.  The directory is taken off the front of a path
/// that begins with it; any other path is relative already and stays.
pub open spec fn relative_path(path: Seq<char>, project_dir: Seq<char>) -> Seq<char> {
    without_prefix(path, project_dir)
}

/// The form for one change: the commit, the path within the project, the
/// size, the hash and the project as text fields in that order, and the
/// bytes of the file unless the change deletes it.
pub open spec fn form_of(change: ChangeView, commit: u64, project_dir: Seq<char>) -> UploadFormView {
    let rel = relative_path(change.file.path, project_dir);
    UploadFormView {
        fields: seq![
            FormFieldView { name: "commit"@, value: decimal(commit as nat) },
            FormFieldView { name: "path"@, value: rel },
            FormFieldView { name: "size"@, value: decimal(change.file.size as nat) },
            FormFieldView { name: "hash"@, value: change.file.hash },
            FormFieldView { name: "project"@, value: decimal(0) },
        ],
        part: if change.change != ChangeType::Delete {
            Some(FilePartView { name: "key"@, file_name: rel, source: change.file.path })
        } else {
            None
        },
    }
}

pub open spec fn form_for(commit: u64, project_dir: Seq<char>) -> spec_fn(ChangeView)
    -> UploadFormView {
    |c: ChangeView| form_of(c, commit, project_dir)
}

/// The form names a file by its path relative to the directory of the
/// project: for a file at `project_dir + rel` the `path` field is `rel`, and
/// so is the name that its bytes are sent under.
pub proof fn lemma_form_names_the_relative_path(
    change: ChangeView,
    commit: u64,
    project_dir: Seq<char>,
    rel: Seq<char>,
)
    requires
        change.file.path == project_dir + rel,
    ensures
        form_of(change, commit, project_dir).fields[1] == (FormFieldView {
            name: "path"@,
            value: rel,
        }),
        change.change != ChangeType::Delete ==> form_of(change, commit, project_dir).part == Some(
            FilePartView { name: "key"@, file_name: rel, source: change.file.path },
        ),
        change.change == ChangeType::Delete ==> form_of(change, commit, project_dir).part is None,
{
    lemma_without_prefix_of_joined(project_dir, rel);
}

/// Builds the form for one change.
pub fn upload_form(change: &Change, commit: u64, project_dir: &String) -> (r: UploadForm)
    ensures
        r@ == form_of(change@, commit, project_dir@),
{
    let rel = strip_prefix(&change.file.path, project_dir);
    let mut fields: Vec<FormField> = Vec::new();
    fields.push(FormField { name: String::from_str("commit"), value: u64_to_decimal(commit) });
    fields.push(FormField { name: String::from_str("path"), value: rel.clone() });
    fields.push(
        FormField { name: String::from_str("size"), value: u64_to_decimal(change.file.size) },
    );
    fields.push(FormField { name: String::from_str("hash"), value: change.file.hash.clone() });
    fields.push(FormField { name: String::from_str("project"), value: u64_to_decimal(0) });
    let part = match change.change {
        ChangeType::Delete => None,
        _ => Some(
            FilePart {
                name: String::from_str("key"),
                file_name: rel,
                source: change.file.path.clone(),
            },
        ),
    };
    let form = UploadForm { fields, part };
    assert(form@.fields =~= form_of(change@, commit, project_dir@).fields);
    form
}

/// The address that files are uploaded to.
pub fn upload_endpoint(server_url: &String) -> (r: String)
    ensures
        r@ == server_url@ + "/ingest"@,
{
    let mut out = server_url.clone();
    out.append("/ingest");
    out
}

/// An upload under way.  The files are sent in order, one at a time; the
/// first failure ends the batch.
pub struct UploadSession {
    endpoint: String,
    forms: Vec<UploadForm>,
    uploaded: u32,
    total: u32,
    aborted: bool,
}

/// What an upload holds: the address that the forms are sent to, one form
/// for each file in the order of the batch, how many files have been sent,
/// how many the batch holds, and whether a failure has ended it.
pub struct UploadSessionView {
    pub endpoint: Seq<char>,
    pub forms: Seq<UploadFormView>,
    pub uploaded: u32,
    pub total: u32,
    pub aborted: bool,
}

impl View for UploadSession {
    type V = UploadSessionView;

    closed spec fn view(&self) -> UploadSessionView {
        UploadSessionView {
            endpoint: self.endpoint@,
            forms: self.forms.deep_view(),
            uploaded: self.uploaded,
            total: self.total,
            aborted: self.aborted,
        }
    }
}

/// The counts of an upload are well formed: there is a form for each file of
/// the batch, and no more files were sent than it holds.
pub open spec fn upload_wf(s: UploadSessionView) -> bool {
    &&& s.total == s.forms.len()
    &&& s.uploaded <= s.total
}

impl UploadSession {
    /// The address that the forms are sent to.
    pub fn endpoint(&self) -> (r: &String)
        ensures
            r@ == self@.endpoint,
    {
        &self.endpoint
    }

    /// How many files have been sent.
    pub fn uploaded(&self) -> (r: u32)
        ensures
            r == self@.uploaded,
    {
        self.uploaded
    }

    /// How many files the batch holds.
    pub fn total(&self) -> (r: u32)
        ensures
            r == self@.total,
    {
        self.total
    }

    /// Whether a failure has ended the batch.
    pub fn aborted(&self) -> (r: bool)
        ensures
            r == self@.aborted,
    {
        self.aborted
    }

    /// The form to send next, or `None` once every file is sent or the batch
    /// was ended by a failure.
    pub fn next_form(&self) -> (r: Option<&UploadForm>)
        requires
            upload_wf(self@),
        ensures
            match r {
                Some(form) => !self@.aborted && self@.uploaded < self@.total && form@
                    == self@.forms[self@.uploaded as int],
                None => self@.aborted || self@.uploaded == self@.total,
            },
    {
        if !self.aborted && self.uploaded < self.total {
            Some(&self.forms[self.uploaded as usize])
        } else {
            None
        }
    }

    /// Takes note that the next file was sent, and gives what to report: the
    /// count of files sent, one more than before, and the size of the batch.
    /// Where no file was waiting nothing changes and nothing is reported.
    pub fn file_sent(&mut self) -> (r: Option<UploadStatusPayload>)
        requires
            upload_wf(old(self)@),
        ensures
            upload_wf(final(self)@),
            if !old(self)@.aborted && old(self)@.uploaded < old(self)@.total {
                &&& final(self)@ == (UploadSessionView {
                    uploaded: (old(self)@.uploaded + 1) as u32,
                    ..old(self)@
                })
                &&& r == Some(
                    UploadStatusPayload {
                        uploaded: (old(self)@.uploaded + 1) as u32,
                        total: old(self)@.total,
                    },
                )
            } else {
                &&& final(self)@ == old(self)@
                &&& r is None
            },
    {
        if !self.aborted && self.uploaded < self.total {
            self.uploaded = self.uploaded + 1;
            Some(UploadStatusPayload { uploaded: self.uploaded, total: self.total })
        } else {
            None
        }
    }

    /// Takes note that sending a file failed: the batch ends here.
    pub fn file_failed(&mut self)
        requires
            upload_wf(old(self)@),
        ensures
            upload_wf(final(self)@),
            final(self)@ == (UploadSessionView { aborted: true, ..old(self)@ }),
    {
        self.aborted = true;
    }
}

/// Prepares the upload of a batch of changes under the commit `commit`.
pub fn upload_files(
    files: &Vec<Change>,
    commit: u64,
    server_url: &String,
    project_dir: &String,
) -> (r: UploadSession)
    requires
        files.len() <= u32::MAX,
    ensures
        upload_wf(r@),
        r@ == (UploadSessionView {
            endpoint: server_url@ + "/ingest"@,
            forms: files.deep_view().map_values(form_for(commit, project_dir@)),
            uploaded: 0,
            total: files.len() as u32,
            aborted: false,
        }),
{
    let ghost f = form_for(commit, project_dir@);
    let mut forms: Vec<UploadForm> = Vec::new();
    let mut i: usize = 0;
    assert(forms.deep_view() =~= files.deep_view().map_values(f).take(0));
    while i < files.len()
        invariant
            i <= files.len(),
            f == form_for(commit, project_dir@),
            forms.len() == i,
            forms.deep_view() == files.deep_view().map_values(f).take(i as int),
        decreases files.len() - i,
    {
        let ghost so_far = forms.deep_view();
        let form = upload_form(&files[i], commit, project_dir);
        assert(form@ == f(files[i as int]@));
        forms.push(form);
        assert(forms.deep_view() =~= so_far.push(f(files[i as int]@)));
        assert(files.deep_view().map_values(f).take(i as int + 1) =~= so_far.push(
            f(files[i as int]@),
        ));
        i += 1;
    }
    assert(files.deep_view().map_values(f).take(files.len() as int) =~= files.deep_view().map_values(
        f,
    ));
    let total = files.len() as u32;
    UploadSession { endpoint: upload_endpoint(server_url), forms, uploaded: 0, total, aborted: false }
}

} // verus!
