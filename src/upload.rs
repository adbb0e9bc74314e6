//! Uploads from the markdown editor: its configuration, the decision on an
//! uploaded part, and the answers sent back.
use crate::submission::{has_char, upload_file_name};
use vstd::prelude::*;

verus! {

pub const DEFAULT_UPLOAD_MAX_SIZE: u32 = 2097152;

/// Settings of the markdown editor.
#[derive(Clone, Debug)]
pub struct EditorConfig {
    /// enable drag-and-drop upload functionality in the editor
    pub enable_uploads: bool,
    /// max upload size in bytes
    pub upload_max_size: u32,
    /// allowed content types of uploads
    pub allowed_file_types: Vec<String>,
}

impl Default for EditorConfig {
    /// Uploads enabled, at most 2 MiB, PNG and JPEG images.
    fn default() -> (r: EditorConfig)
        ensures
            r.enable_uploads,
            r.upload_max_size == DEFAULT_UPLOAD_MAX_SIZE,
            r.allowed_file_types@.len() == 2,
            r.allowed_file_types@[0]@ == "image/png"@,
            r.allowed_file_types@[1]@ == "image/jpeg"@,
    {
        let mut types: Vec<String> = Vec::new();
        types.push("image/png".to_owned());
        types.push("image/jpeg".to_owned());
        EditorConfig {
            enable_uploads: true,
            upload_max_size: DEFAULT_UPLOAD_MAX_SIZE,
            allowed_file_types: types,
        }
    }
}

pub open spec fn texts_view(v: Seq<String>) -> Seq<Seq<char>> {
    v.map_values(|s: String| s@)
}

impl EditorConfig {
    /// Enable uploads directly in the editor.
    pub fn enable_uploads(self, enable: bool) -> (r: EditorConfig)
        ensures
            r.enable_uploads == enable,
            r.upload_max_size == self.upload_max_size,
            texts_view(r.allowed_file_types@) == texts_view(self.allowed_file_types@),
    {
        EditorConfig { enable_uploads: enable, ..self }
    }

    /// Set the max size for uploads.
    pub fn upload_max_size(self, max_size: u32) -> (r: EditorConfig)
        ensures
            r.enable_uploads == self.enable_uploads,
            r.upload_max_size == max_size,
            texts_view(r.allowed_file_types@) == texts_view(self.allowed_file_types@),
    {
        EditorConfig { upload_max_size: max_size, ..self }
    }

    /// Add an allowed file type to the currently allowed file types.
    pub fn allow_file_type(self, file_type: String) -> (r: EditorConfig)
        ensures
            r.enable_uploads == self.enable_uploads,
            r.upload_max_size == self.upload_max_size,
            texts_view(r.allowed_file_types@) == texts_view(self.allowed_file_types@).push(
                file_type@,
            ),
    {
        let mut types = self.allowed_file_types;
        let ghost before = types@;
        types.push(file_type);
        proof {
            assert(texts_view(types@) =~= texts_view(before).push(file_type@));
        }
        EditorConfig {
            enable_uploads: self.enable_uploads,
            upload_max_size: self.upload_max_size,
            allowed_file_types: types,
        }
    }

    /// Reset the allowed file types to the given list.
    pub fn allowed_file_types(self, file_types: Vec<String>) -> (r: EditorConfig)
        ensures
            r.enable_uploads == self.enable_uploads,
            r.upload_max_size == self.upload_max_size,
            texts_view(r.allowed_file_types@) == texts_view(file_types@),
    {
        EditorConfig { allowed_file_types: file_types, ..self }
    }

    /// Whether uploads of this content type are allowed.
    pub fn accepts(&self, content_type: &Option<String>) -> (r: bool)
        ensures
            r == (content_type matches Some(t) && texts_view(self.allowed_file_types@).contains(
                t@,
            )),
    {
        match content_type {
            None => false,
            Some(t) => {
                let ghost tv = texts_view(self.allowed_file_types@);
                let mut i: usize = 0;
                while i < self.allowed_file_types.len()
                    invariant
                        i <= self.allowed_file_types@.len(),
                        tv == texts_view(self.allowed_file_types@),
                        *content_type == Some(*t),
                        forall|j: int| 0 <= j < i ==> tv[j] != t@,
                    decreases self.allowed_file_types.len() - i,
                {
                    if self.allowed_file_types[i] == *t {
                        proof {
                            assert(tv[i as int] == t@);
                            assert(tv.contains(t@));
                        }
                        return true;
                    }
                    i = i + 1;
                }
                proof {
                    assert(tv.len() == self.allowed_file_types@.len());
                    assert(!tv.contains(t@));
                }
                false
            },
        }
    }
}

/// Why an upload from the editor failed.
#[derive(Clone, Copy, Debug, PartialEq, Eq, Structural)]
pub enum UploadError {
    NoFileGiven,
    TypeNotAllowed,
    FileTooLarge,
    ImportError,
}

impl UploadError {
    /// The HTTP status answered for the error.
    pub fn status(&self) -> (r: u16)
        ensures
            r == match *self {
                UploadError::NoFileGiven => 400u16,
                UploadError::ImportError => 400u16,
                UploadError::TypeNotAllowed => 415u16,
                UploadError::FileTooLarge => 413u16,
            },
    {
        match self {
            UploadError::NoFileGiven | UploadError::ImportError => 400,
            UploadError::TypeNotAllowed => 415,
            UploadError::FileTooLarge => 413,
        }
    }

    /// The error for a failure to read the multipart body with the given
    /// HTTP status: too large, or a failed import.
    pub fn from_status(status: u16) -> (r: UploadError)
        ensures
            r == if status == 413 {
                UploadError::FileTooLarge
            } else {
                UploadError::ImportError
            },
    {
        if status == 413 {
            UploadError::FileTooLarge
        } else {
            UploadError::ImportError
        }
    }

    /// The error's name in the JSON answer.
    pub fn tag(&self) -> (r: &'static str)
        ensures
            r@ == match *self {
                UploadError::NoFileGiven => "noFileGiven"@,
                UploadError::TypeNotAllowed => "typeNotAllowed"@,
                UploadError::FileTooLarge => "fileTooLarge"@,
                UploadError::ImportError => "importError"@,
            },
    {
        match self {
            UploadError::NoFileGiven => "noFileGiven",
            UploadError::TypeNotAllowed => "typeNotAllowed",
            UploadError::FileTooLarge => "fileTooLarge",
            UploadError::ImportError => "importError",
        }
    }
}

/// Whether to store the first part of an editor upload: its content type
/// must be allowed, and its file name present and free of `/`.
pub fn check_editor_upload(
    config: &EditorConfig,
    content_type: &Option<String>,
    filename: &Option<String>,
) -> (r: Result<(), UploadError>)
    ensures
        !(content_type matches Some(t) && texts_view(config.allowed_file_types@).contains(t@))
            ==> r == Err::<(), UploadError>(UploadError::TypeNotAllowed),
        (content_type matches Some(t) && texts_view(config.allowed_file_types@).contains(t@)) ==> (
        r is Ok <==> (filename matches Some(f) && f@.len() > 0 && !has_char(f@, '/'))),
        r is Err && (content_type matches Some(t) && texts_view(
            config.allowed_file_types@,
        ).contains(t@)) ==> r == Err::<(), UploadError>(UploadError::ImportError),
{
    if !config.accepts(content_type) {
        return Err(UploadError::TypeNotAllowed);
    }
    match upload_file_name(filename) {
        Ok(()) => Ok(()),
        Err(_) => Err(UploadError::ImportError),
    }
}

/// Where an uploaded file can be found.
#[derive(Clone, Debug)]
pub struct UploadedFileInfo {
    pub file_path: String,
}

/// The answer to a successful upload.
#[derive(Clone, Debug)]
pub struct UploadSuccess {
    pub data: UploadedFileInfo,
}

impl UploadSuccess {
    pub fn new(file_path: String) -> (r: UploadSuccess)
        ensures
            r.data.file_path@ == file_path@,
    {
        UploadSuccess { data: UploadedFileInfo { file_path } }
    }
}

/// An error shown to the user as a page with a title and a description.
#[derive(Clone, Debug)]
pub struct AppError {
    pub title: String,
    pub description: String,
}

impl AppError {
    pub fn new(title: String, description: String) -> (r: AppError)
        ensures
            r.title@ == title@,
            r.description@ == description@,
    {
        AppError { title, description }
    }

    /// The lines of the description, split at each line break.
    pub fn description_lines(&self) -> (r: Vec<String>)
        ensures
            lines_join(texts_view(r@)) == self.description@,
            forall|i: int| 0 <= i < r@.len() ==> !has_char(#[trigger] r@[i]@, '\n'),
    {
        let cs = crate::name_path::chars_of(self.description.as_str());
        let mut lines: Vec<String> = Vec::new();
        let mut cur: Vec<char> = Vec::new();
        let mut i: usize = 0;
        while i < cs.len()
            invariant
                i <= cs@.len(),
                cs@ == self.description@,
                lines_join(texts_view(lines@).push(cur@)) == cs@.subrange(0, i as int),
                forall|k: int| 0 <= k < lines@.len() ==> !has_char(#[trigger] lines@[k]@, '\n'),
                !has_char(cur@, '\n'),
            decreases cs.len() - i,
        {
            let ghost before = texts_view(lines@).push(cur@);
            if cs[i] == '\n' {
                let line = crate::name_path::string_from_chars(cur);
                lines.push(line);
                cur = Vec::new();
                proof {
                    assert(texts_view(lines@).push(cur@) =~= before.push(Seq::empty()));
                    lemma_lines_join_push(before, Seq::empty());
                    assert(cs@.subrange(0, i + 1) =~= cs@.subrange(0, i as int).push('\n'));
                    assert(lines_join(before) + seq!['\n'] + Seq::<char>::empty() =~= cs@.subrange(
                        0,
                        i + 1,
                    ));
                    assert(!has_char(Seq::<char>::empty(), '\n'));
                }
            } else {
                let ghost old_cur = cur@;
                cur.push(cs[i]);
                proof {
                    lemma_lines_join_last(before.drop_last(), old_cur, cs@[i as int]);
                    assert(before.drop_last().push(old_cur) =~= before);
                    assert(texts_view(lines@).push(cur@) =~= before.drop_last().push(cur@));
                    assert(cs@.subrange(0, i + 1) =~= cs@.subrange(0, i as int).push(cs@[i as int]));
                    assert forall|k: int| 0 <= k < cur@.len() implies cur@[k] != '\n' by {
                        if k < old_cur.len() {
                            assert(cur@[k] == old_cur[k]);
                        }
                    }
                }
            }
            i = i + 1;
        }
        let last = crate::name_path::string_from_chars(cur);
        let ghost pending = texts_view(lines@).push(last@);
        lines.push(last);
        proof {
            assert(texts_view(lines@) =~= pending);
            assert(cs@.subrange(0, i as int) =~= cs@);
        }
        lines
    }
}

/// The lines joined with line breaks between them.
pub open spec fn lines_join(ls: Seq<Seq<char>>) -> Seq<char>
    decreases ls.len(),
{
    if ls.len() == 0 {
        Seq::empty()
    } else if ls.len() == 1 {
        ls[0]
    } else {
        lines_join(ls.drop_last()) + seq!['\n'] + ls.last()
    }
}

proof fn lemma_lines_join_push(ls: Seq<Seq<char>>, l: Seq<char>)
    requires
        ls.len() > 0,
    ensures
        lines_join(ls.push(l)) == lines_join(ls) + seq!['\n'] + l,
{
    assert(ls.push(l).drop_last() =~= ls);
}

proof fn lemma_lines_join_last(ls: Seq<Seq<char>>, l: Seq<char>, c: char)
    ensures
        lines_join(ls.push(l.push(c))) == lines_join(ls.push(l)).push(c),
{
    assert(ls.push(l.push(c)).drop_last() =~= ls);
    assert(ls.push(l).drop_last() =~= ls);
    if ls.len() == 0 {
        assert(ls.push(l.push(c))[0] == l.push(c));
    } else {
        assert(lines_join(ls) + seq!['\n'] + l.push(c) =~= (lines_join(ls) + seq!['\n'] + l).push(
            c,
        ));
    }
}

} // verus!
