use vstd::prelude::*;
use crate::lines::{NL, file_content, lines_view, terminated, lemma_lines_view_push, lemma_terminated_push};
use crate::model::{FileModel, Satf, Satt, SattError, append_bytes, copy_bytes};

verus! {

/// The byte ` `, which separates the fields of a header.
pub const SP: u8 = 32;

/// The decimal digits of `n`, most significant first, without leading zeros.
pub open spec fn decimal(n: nat) -> Seq<u8>
    decreases n,
{
    if n < 10 {
        seq![(48 + n) as u8]
    } else {
        decimal(n / 10) + seq![(48 + n % 10) as u8]
    }
}

/// The token ` noeol` that marks a file without a final terminator.
pub open spec fn noeol_token() -> Seq<u8> {
    seq![SP, 110u8, 111u8, 101u8, 111u8, 108u8]
}

/// The header line of a record: `<path> <line count>[ noeol]`.
pub open spec fn header(f: FileModel) -> Seq<u8> {
    f.path + seq![SP] + decimal(f.lines.len()) + if f.no_eol {
        noeol_token()
    } else {
        Seq::empty()
    }
}

/// The lines of the archive, a header before each record's lines.
pub open spec fn archive_lines(files: Seq<FileModel>) -> Seq<Seq<u8>>
    decreases files.len(),
{
    if files.len() == 0 {
        Seq::empty()
    } else {
        archive_lines(files.drop_last()) + seq![header(files.last())] + files.last().lines
    }
}

/// The bytes of the archive: each of its lines with a terminator.
pub open spec fn archive_bytes(files: Seq<FileModel>) -> Seq<u8> {
    terminated(archive_lines(files))
}

/// Appends the decimal digits of `n` to `out`.
pub fn push_decimal(n: usize, out: &mut Vec<u8>)
    ensures
        final(out)@ == old(out)@ + decimal(n as nat),
    decreases n,
{
    if n >= 10 {
        push_decimal(n / 10, out);
    }
    let d: u8 = (n % 10) as u8;
    out.push(48 + d);
    proof {
        if n < 10 {
            assert(final(out)@ =~= old(out)@ + decimal(n as nat));
        } else {
            assert(final(out)@ =~= old(out)@ + decimal(n as nat));
        }
    }
}

/// The header line of a record.
pub fn header_line(f: &Satf) -> (r: Vec<u8>)
    ensures
        r@ == header(f@),
{
    let mut r = copy_bytes(f.path.as_slice());
    r.push(SP);
    push_decimal(f.lines.len(), &mut r);
    if f.no_eol {
        let token: [u8; 6] = [SP, 110, 111, 101, 111, 108];
        append_bytes(&mut r, &token);
        assert(token@ =~= noeol_token());
    }
    assert(r@ =~= header(f@));
    r
}

pub proof fn lemma_archive_lines_push(files: Seq<FileModel>, f: FileModel)
    ensures
        archive_lines(files.push(f)) == archive_lines(files) + seq![header(f)] + f.lines,
{
    assert(files.push(f).drop_last() =~= files);
}

/// The bytes that extraction writes for a record.
pub fn file_bytes(f: &Satf) -> (r: Vec<u8>)
    ensures
        r@ == file_content(f@.lines, f@.no_eol),
{
    let mut r: Vec<u8> = Vec::new();
    let n = f.lines.len();
    let mut i: usize = 0;
    while i < n
        invariant
            n == f.lines.len(),
            i <= n,
            r@ == terminated(lines_view(f.lines@).take(i as int)),
        decreases n - i,
    {
        proof {
            assert(lines_view(f.lines@).take(i + 1) =~= lines_view(f.lines@).take(i as int).push(
                f.lines@[i as int]@,
            ));
            lemma_terminated_push(lines_view(f.lines@).take(i as int), f.lines@[i as int]@);
        }
        append_bytes(&mut r, f.lines[i].as_slice());
        r.push(NL);
        i = i + 1;
    }
    assert(lines_view(f.lines@).take(n as int) =~= lines_view(f.lines@));
    if n > 0 && f.no_eol {
        r.pop();
    }
    r
}

impl Satt {
    /// The lines of the archive, a header before each record's lines, none
    /// with its terminator.
    pub fn to_lines(&self) -> (r: Vec<Vec<u8>>)
        ensures
            lines_view(r@) == archive_lines(self@),
    {
        let mut r: Vec<Vec<u8>> = Vec::new();
        let mut i: usize = 0;
        while i < self.files.len()
            invariant
                i <= self.files.len(),
                lines_view(r@) == archive_lines(self@.take(i as int)),
            decreases self.files.len() - i,
        {
            let f = &self.files[i];
            let ghost before = lines_view(r@);
            let h = header_line(f);
            proof {
                lemma_lines_view_push(r@, h);
            }
            r.push(h);
            let mut j: usize = 0;
            while j < f.lines.len()
                invariant
                    j <= f.lines.len(),
                    lines_view(r@) == before + seq![header(f@)] + f@.lines.take(j as int),
                decreases f.lines.len() - j,
            {
                let line = copy_bytes(f.lines[j].as_slice());
                proof {
                    lemma_lines_view_push(r@, line);
                    assert(f@.lines.take(j + 1) =~= f@.lines.take(j as int).push(line@));
                }
                r.push(line);
                j = j + 1;
                assert(lines_view(r@) =~= before + seq![header(f@)] + f@.lines.take(j as int));
            }
            proof {
                assert(f@.lines.take(j as int) =~= f@.lines);
                assert(self@.take(i + 1) =~= self@.take(i as int).push(f@));
                lemma_archive_lines_push(self@.take(i as int), f@);
            }
            i = i + 1;
        }
        assert(self@.take(i as int) =~= self@);
        r
    }

    /// The bytes of the archive file: every line of `to_lines`, each
    /// followed by a terminator.
    pub fn save(&self) -> (r: Vec<u8>)
        ensures
            r@ == archive_bytes(self@),
    {
        let all = self.to_lines();
        let mut r: Vec<u8> = Vec::new();
        let mut i: usize = 0;
        while i < all.len()
            invariant
                i <= all.len(),
                r@ == terminated(lines_view(all@).take(i as int)),
            decreases all.len() - i,
        {
            proof {
                assert(lines_view(all@).take(i + 1) =~= lines_view(all@).take(i as int).push(
                    all@[i as int]@,
                ));
                lemma_terminated_push(lines_view(all@).take(i as int), all@[i as int]@);
            }
            append_bytes(&mut r, all[i].as_slice());
            r.push(NL);
            i = i + 1;
        }
        assert(lines_view(all@).take(i as int) =~= lines_view(all@));
        r
    }

    /// The files that extraction creates, in order: each path with the bytes
    /// it receives. Extraction goes only into an empty destination.
    pub fn unarchive(&self, destination_empty: bool) -> (r: Result<Vec<(Vec<u8>, Vec<u8>)>, SattError>)
        ensures
            !destination_empty <==> r == Err::<Vec<(Vec<u8>, Vec<u8>)>, SattError>(SattError::DestinationNotEmpty),
            r.is_ok() <==> destination_empty,
            r matches Ok(v) ==> v@.len() == self@.len() && forall|i: int| 0 <= i < v@.len() ==> {
                &&& (#[trigger] v@[i]).0@ == self@[i].path
                &&& v@[i].1@ == file_content(self@[i].lines, self@[i].no_eol)
            },
    {
        if !destination_empty {
            return Err(SattError::DestinationNotEmpty);
        }
        let mut out: Vec<(Vec<u8>, Vec<u8>)> = Vec::new();
        let mut i: usize = 0;
        while i < self.files.len()
            invariant
                i <= self.files.len(),
                out@.len() == i,
                forall|j: int| 0 <= j < i ==> {
                    &&& (#[trigger] out@[j]).0@ == self@[j].path
                    &&& out@[j].1@ == file_content(self@[j].lines, self@[j].no_eol)
                },
            decreases self.files.len() - i,
        {
            let f = &self.files[i];
            let path = copy_bytes(f.path.as_slice());
            let bytes = file_bytes(f);
            out.push((path, bytes));
            i = i + 1;
        }
        Ok(out)
    }
}

} // verus!
