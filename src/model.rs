use vstd::prelude::*;
use crate::lines::{is_split_of, lines_view, read_file};

verus! {

/// The byte `/`, which no stored path may start with.
pub const SLASH: u8 = 47;

/// What a record of the archive holds.
pub ghost struct FileModel {
    pub path: Seq<u8>,
    pub lines: Seq<Seq<u8>>,
    pub no_eol: bool,
}

/// One archived file: its path relative to the archive root, its lines with
/// the terminators removed, and whether its last line lacked a terminator.
#[derive(Debug, Clone, PartialEq, Eq)]
pub struct Satf {
    pub path: Vec<u8>,
    pub lines: Vec<Vec<u8>>,
    pub no_eol: bool,
}

impl View for Satf {
    type V = FileModel;

    open spec fn view(&self) -> FileModel {
        FileModel { path: self.path@, lines: lines_view(self.lines@), no_eol: self.no_eol }
    }
}

/// An archive: its files, in the order in which they are stored.
#[derive(Debug, Clone, PartialEq, Eq)]
pub struct Satt {
    pub files: Vec<Satf>,
}

impl View for Satt {
    type V = Seq<FileModel>;

    open spec fn view(&self) -> Seq<FileModel> {
        records_view(self.files@)
    }
}

/// The records that a vector of files holds, file by file.
pub open spec fn records_view(v: Seq<Satf>) -> Seq<FileModel> {
    Seq::new(v.len(), |i: int| v[i]@)
}

pub proof fn lemma_records_view_push(v: Seq<Satf>, f: Satf)
    ensures
        records_view(v.push(f)) == records_view(v).push(f@),
{
    assert(records_view(v.push(f)) =~= records_view(v).push(f@));
}

/// The errors of the codec.
#[derive(Debug, Clone, Copy, PartialEq, Eq, Structural)]
pub enum SattError {
    /// A header lacks its path or its line count, or the count is no decimal
    /// number that fits in `usize`.
    MalformedHeader,
    /// A record announces more content lines than follow it with terminators.
    TruncatedRecord,
    /// A stored path starts with `/`.
    AbsolutePath,
    /// Extraction was asked into a directory that already holds entries.
    DestinationNotEmpty,
}

/// True when `path` starts with `/`.
pub open spec fn is_absolute(path: Seq<u8>) -> bool {
    path.len() > 0 && path[0] == SLASH
}

/// True when no record's path starts with `/`.
pub open spec fn all_relative(files: Seq<FileModel>) -> bool {
    forall|i: int| 0 <= i < files.len() ==> !is_absolute(#[trigger] files[i].path)
}

/// The record that stores the file `bytes` under `path`.
pub open spec fn record_of(path: Seq<u8>, bytes: Seq<u8>, r: FileModel) -> bool {
    r.path == path && is_split_of(bytes, r.lines, r.no_eol)
}

/// Appends the bytes of `b` to `out`.
pub fn append_bytes(out: &mut Vec<u8>, b: &[u8])
    ensures
        final(out)@ == old(out)@ + b@,
{
    let ghost start = out@;
    let mut i: usize = 0;
    while i < b.len()
        invariant
            i <= b.len(),
            out@ == start + b@.subrange(0, i as int),
        decreases b.len() - i,
    {
        out.push(b[i]);
        i = i + 1;
        assert(out@ =~= start + b@.subrange(0, i as int));
    }
    assert(b@.subrange(0, i as int) =~= b@);
}

/// A fresh copy of `b`.
pub fn copy_bytes(b: &[u8]) -> (r: Vec<u8>)
    ensures
        r@ == b@,
{
    let mut r: Vec<u8> = Vec::new();
    append_bytes(&mut r, b);
    assert(r@ =~= b@);
    r
}

impl Satt {
    /// Accepts the archive when no stored path starts with `/`.
    pub fn check(&self) -> (r: Result<(), SattError>)
        ensures
            r.is_ok() <==> all_relative(self@),
            r.is_err() ==> r == Err::<(), SattError>(SattError::AbsolutePath),
    {
        let mut i: usize = 0;
        while i < self.files.len()
            invariant
                i <= self.files.len(),
                forall|j: int| 0 <= j < i ==> !is_absolute(#[trigger] self@[j].path),
            decreases self.files.len() - i,
        {
            let p = &self.files[i].path;
            if p.len() > 0 && p[0] == SLASH {
                assert(is_absolute(self@[i as int].path));
                return Err(SattError::AbsolutePath);
            }
            i = i + 1;
        }
        Ok(())
    }

    /// Builds the archive of the given files, in the given order; each entry
    /// is a path and the file's bytes.
    pub fn archive_filelist(files: &[(Vec<u8>, Vec<u8>)]) -> (r: Satt)
        ensures
            r@.len() == files@.len(),
            forall|i: int|
                0 <= i < files@.len() ==> record_of(files@[i].0@, files@[i].1@, #[trigger] r@[i]),
    {
        let mut out: Vec<Satf> = Vec::new();
        let mut i: usize = 0;
        while i < files.len()
            invariant
                i <= files.len(),
                out@.len() == i,
                forall|j: int|
                    0 <= j < i ==> record_of(files@[j].0@, files@[j].1@, #[trigger] out@[j]@),
            decreases files.len() - i,
        {
            let (lines, no_eol) = read_file(files[i].1.as_slice());
            let path = copy_bytes(files[i].0.as_slice());
            out.push(Satf { path, lines, no_eol });
            i = i + 1;
        }
        let r = Satt { files: out };
        assert forall|j: int| 0 <= j < files@.len() implies record_of(files@[j].0@, files@[j].1@, #[trigger] r@[j]) by {
            assert(r@[j] == out@[j]@);
        }
        r
    }
}

} // verus!
