use vstd::prelude::*;
use crate::lines::{NL, all_lines_clean, no_newline, terminated, file_content, is_split_of, lemma_terminated_prepend};
use crate::encode::{SP, decimal, noeol_token, header, archive_lines, archive_bytes};
use crate::decode::{is_space, is_digit, is_count, digits_value, line_len, space_run, word_run,
    tokens_from, header_fields, take_lines, parse_from, load_result};
use crate::model::{FileModel, SattError, all_relative, is_absolute, record_of};

verus! {

/// A path that the archive format can carry: not empty, and without a
/// separator byte (a terminator is one).
pub open spec fn valid_path(p: Seq<u8>) -> bool {
    p.len() > 0 && forall|i: int| 0 <= i < p.len() ==> !is_space(#[trigger] p[i])
}

/// A record that the archive format can carry: a valid path, lines without
/// terminators, and a line count that fits in `usize`.
pub open spec fn valid_record(f: FileModel) -> bool {
    valid_path(f.path) && all_lines_clean(f.lines) && f.lines.len() <= usize::MAX
}

/// Every record is valid.
pub open spec fn valid_records(fs: Seq<FileModel>) -> bool {
    forall|i: int| 0 <= i < fs.len() ==> valid_record(#[trigger] fs[i])
}

/// The bytes of one record: its header line, then its lines, each with a
/// terminator.
pub open spec fn record_bytes(f: FileModel) -> Seq<u8> {
    header(f) + seq![NL] + terminated(f.lines)
}

pub proof fn lemma_terminated_concat(a: Seq<Seq<u8>>, b: Seq<Seq<u8>>)
    ensures
        terminated(a + b) == terminated(a) + terminated(b),
    decreases b.len(),
{
    if b.len() == 0 {
        assert(a + b =~= a);
        assert(terminated(a) + terminated(b) =~= terminated(a));
    } else {
        assert((a + b).drop_last() =~= a + b.drop_last());
        lemma_terminated_concat(a, b.drop_last());
        assert(terminated(a + b) =~= terminated(a) + terminated(b));
    }
}

pub proof fn lemma_archive_lines_prepend(f: FileModel, fs: Seq<FileModel>)
    ensures
        archive_lines(seq![f] + fs) == seq![header(f)] + f.lines + archive_lines(fs),
    decreases fs.len(),
{
    let all = seq![f] + fs;
    if fs.len() == 0 {
        assert(all.drop_last() =~= Seq::<FileModel>::empty());
        assert(archive_lines(all.drop_last()) =~= Seq::<Seq<u8>>::empty());
        assert(all.last() == f);
        assert(archive_lines(all) =~= seq![header(f)] + f.lines + archive_lines(fs));
    } else {
        assert(all.drop_last() =~= seq![f] + fs.drop_last());
        assert(all.last() == fs.last());
        lemma_archive_lines_prepend(f, fs.drop_last());
        assert(archive_lines(all) =~= seq![header(f)] + f.lines + archive_lines(fs));
    }
}

/// The archive bytes, read front to back: the first record's bytes, then
/// those of the others.
pub proof fn lemma_archive_bytes_prepend(f: FileModel, fs: Seq<FileModel>)
    ensures
        archive_bytes(seq![f] + fs) == record_bytes(f) + archive_bytes(fs),
{
    lemma_archive_lines_prepend(f, fs);
    lemma_terminated_concat(seq![header(f)] + f.lines, archive_lines(fs));
    lemma_terminated_concat(seq![header(f)], f.lines);
    lemma_terminated_prepend(header(f), Seq::empty());
    assert(seq![header(f)] + Seq::<Seq<u8>>::empty() =~= seq![header(f)]);
    assert(terminated(Seq::<Seq<u8>>::empty()) =~= Seq::<u8>::empty());
    assert(archive_bytes(seq![f] + fs) =~= record_bytes(f) + archive_bytes(fs));
}

/// Where a run of `s` is `x + y`, its two parts are `x` and `y`.
pub proof fn lemma_subrange_split(s: Seq<u8>, a: int, x: Seq<u8>, y: Seq<u8>)
    requires
        0 <= a,
        a + x.len() + y.len() <= s.len(),
        s.subrange(a, a + x.len() + y.len()) == x + y,
    ensures
        s.subrange(a, a + x.len()) == x,
        s.subrange(a + x.len(), a + x.len() + y.len()) == y,
{
    let big = s.subrange(a, a + x.len() + y.len());
    assert forall|j: int| 0 <= j < x.len() implies #[trigger] s.subrange(a, a + x.len())[j] == x[j] by {
        assert(big[j] == s[a + j]);
        assert(big[j] == (x + y)[j]);
    }
    assert forall|j: int| 0 <= j < y.len() implies #[trigger] s.subrange(a + x.len(), a + x.len() + y.len())[j] == y[j] by {
        assert(big[x.len() + j] == s[a + x.len() + j]);
        assert(big[x.len() + j] == (x + y)[x.len() + j]);
    }
    assert(s.subrange(a, a + x.len()) =~= x);
    assert(s.subrange(a + x.len(), a + x.len() + y.len()) =~= y);
}

pub proof fn lemma_line_len(s: Seq<u8>, i: int, k: int)
    requires
        0 <= i,
        0 <= k,
        i + k <= s.len(),
        forall|j: int| i <= j < i + k ==> #[trigger] s[j] != NL,
        i + k == s.len() || s[i + k] == NL,
    ensures
        line_len(s, i) == k,
    decreases k,
{
    if k > 0 {
        lemma_line_len(s, i + 1, k - 1);
    }
}

pub proof fn lemma_word_run(h: Seq<u8>, i: int, k: int)
    requires
        0 <= i,
        0 <= k,
        i + k <= h.len(),
        forall|j: int| i <= j < i + k ==> !is_space(#[trigger] h[j]),
        i + k == h.len() || is_space(h[i + k]),
    ensures
        word_run(h, i) == k,
    decreases k,
{
    if k > 0 {
        lemma_word_run(h, i + 1, k - 1);
    }
}

/// The digits of `n` spell `n`.
pub proof fn lemma_decimal(n: nat)
    ensures
        decimal(n).len() > 0,
        forall|i: int| 0 <= i < decimal(n).len() ==> is_digit(#[trigger] decimal(n)[i]),
        digits_value(decimal(n)) == n,
    decreases n,
{
    let d = decimal(n);
    if n < 10 {
        assert(d.drop_last() =~= Seq::<u8>::empty());
        assert(digits_value(d.drop_last()) == 0);
    } else {
        lemma_decimal(n / 10);
        assert(d.drop_last() =~= decimal(n / 10));
        assert(d.last() == (48 + n % 10) as u8);
        assert((n / 10) * 10 + n % 10 == n);
        assert(forall|i: int| 0 <= i < d.len() ==> is_digit(#[trigger] d[i])) by {
            assert forall|i: int| 0 <= i < d.len() implies is_digit(#[trigger] d[i]) by {
                if i < d.len() - 1 {
                    assert(d[i] == decimal(n / 10)[i]);
                }
            }
        }
    }
}

/// The fields of a valid record's header are its path, its decimal line
/// count and, for a file without a final terminator, the `noeol` token.
pub proof fn lemma_header_fields(f: FileModel)
    requires
        valid_record(f),
    ensures
        header_fields(header(f)) == Some((f.path, f.lines.len(), f.no_eol)),
        no_newline(header(f)),
{
    let h = header(f);
    let p = f.path;
    let d = decimal(f.lines.len());
    lemma_decimal(f.lines.len());
    let e1 = p.len() as int;
    let e2 = e1 + 1 + d.len();
    assert(h[e1] == SP);
    assert forall|j: int| 0 <= j < e1 implies !is_space(#[trigger] h[j]) by {
        assert(h[j] == p[j]);
    }
    assert forall|j: int| e1 + 1 <= j < e2 implies !is_space(#[trigger] h[j]) by {
        assert(h[j] == d[j - e1 - 1]);
        assert(is_digit(d[j - e1 - 1]));
    }
    assert(!is_space(h[0]));
    assert(space_run(h, 0) == 0);
    lemma_word_run(h, 0, e1);
    assert(!is_space(h[e1 + 1]));
    assert(space_run(h, e1 + 1) == 0);
    assert(h.subrange(0, e1) =~= p);
    assert(h.subrange(e1 + 1, e2) =~= d);
    if f.no_eol {
        assert(h[e2] == SP);
        lemma_word_run(h, e1 + 1, e2 - e1 - 1);
        assert(!is_space(h[e2 + 1]));
        assert(space_run(h, e2 + 1) == 0);
        assert forall|j: int| e2 + 1 <= j < h.len() implies !is_space(#[trigger] h[j]) by {
            assert(h[j] == noeol_token()[j - e2]);
        }
        lemma_word_run(h, e2 + 1, h.len() - e2 - 1);
        assert(tokens_from(h, e2 + 1) =~= seq![h.subrange(e2 + 1, h.len() as int)]);
        assert(tokens_from(h, e1 + 1).len() == 2);
        assert(tokens_from(h, e1 + 1)[0] == d);
    } else {
        assert(h.len() == e2);
        lemma_word_run(h, e1 + 1, e2 - e1 - 1);
        assert(tokens_from(h, e1 + 1) =~= seq![d]);
    }
    assert(tokens_from(h, 0) =~= seq![p] + tokens_from(h, e1 + 1));
    assert(no_newline(h)) by {
        assert forall|j: int| 0 <= j < h.len() implies #[trigger] h[j] != NL by {
            if j >= e2 {
                assert(h[j] == noeol_token()[j - e2]);
            } else if j > e1 {
                assert(h[j] == d[j - e1 - 1]);
            } else if j < e1 {
                assert(h[j] == p[j]);
            }
        }
    }
}

/// Reading `lines.len()` content lines where the terminated `lines` stand
/// gives `lines` back.
pub proof fn lemma_take_lines(s: Seq<u8>, i: int, lines: Seq<Seq<u8>>)
    requires
        0 <= i,
        i + terminated(lines).len() <= s.len(),
        s.subrange(i, i + terminated(lines).len()) == terminated(lines),
        all_lines_clean(lines),
    ensures
        take_lines(s, i, lines.len()) == Some(lines),
    decreases lines.len(),
{
    if lines.len() > 0 {
        let first = lines[0];
        let rest = lines.drop_first();
        assert(lines =~= seq![first] + rest);
        lemma_terminated_prepend(first, rest);
        let k = first.len() as int;
        assert forall|j: int| i <= j < i + k implies #[trigger] s[j] != NL by {
            assert(s[j] == s.subrange(i, i + terminated(lines).len())[j - i]);
            assert(no_newline(lines[0]));
        }
        assert(s[i + k] == s.subrange(i, i + terminated(lines).len())[k]);
        lemma_line_len(s, i, k);
        assert(s.subrange(i, i + k) =~= first);
        lemma_subrange_split(s, i, first + seq![NL], terminated(rest));
        assert(all_lines_clean(rest)) by {
            assert forall|j: int| 0 <= j < rest.len() implies no_newline(#[trigger] rest[j]) by {
                assert(rest[j] == lines[j + 1]);
            }
        }
        lemma_take_lines(s, i + k + 1, rest);
    } else {
        assert(take_lines(s, i, 0) == Some(Seq::<Seq<u8>>::empty()));
        assert(lines =~= Seq::<Seq<u8>>::empty());
    }
}

/// Parsing, from `pos`, the bytes of valid records gives those records.
pub proof fn lemma_parse_records(s: Seq<u8>, pos: int, fs: Seq<FileModel>)
    requires
        0 <= pos <= s.len(),
        s.subrange(pos, s.len() as int) == archive_bytes(fs),
        valid_records(fs),
    ensures
        parse_from(s, pos) == Ok::<Seq<FileModel>, SattError>(fs),
    decreases fs.len(),
{
    if fs.len() == 0 {
        assert(archive_bytes(fs) =~= Seq::<u8>::empty());
        assert(s.len() == pos);
        assert(fs =~= Seq::<FileModel>::empty());
    } else {
        let f = fs[0];
        let rest = fs.drop_first();
        assert(fs =~= seq![f] + rest);
        lemma_archive_bytes_prepend(f, rest);
        assert(valid_record(f));
        lemma_header_fields(f);
        let h = header(f);
        let e = pos + h.len();
        let sub = s.subrange(pos, s.len() as int);
        let rb = record_bytes(f);
        assert(sub == rb + archive_bytes(rest));
        assert(sub.len() == s.len() - pos);
        assert forall|j: int| pos <= j < e implies #[trigger] s[j] != NL by {
            assert(s[j] == sub[j - pos]);
            assert(sub[j - pos] == rb[j - pos]);
            assert(rb[j - pos] == h[j - pos]);
        }
        assert(s[e] == sub[h.len() as int]);
        assert(sub[h.len() as int] == rb[h.len() as int]);
        lemma_line_len(s, pos, h.len() as int);
        assert(s.subrange(pos, e) =~= h);
        let tl = terminated(f.lines);
        lemma_subrange_split(s, pos, rb, archive_bytes(rest));
        lemma_subrange_split(s, pos, h + seq![NL], tl);
        lemma_take_lines(s, e + 1, f.lines);
        let next = e + 1 + tl.len();
        assert(valid_records(rest)) by {
            assert forall|j: int| 0 <= j < rest.len() implies valid_record(#[trigger] rest[j]) by {
                assert(rest[j] == fs[j + 1]);
            }
        }
        let rec = FileModel { path: f.path, lines: f.lines, no_eol: f.no_eol };
        assert(rec == f);
        assert(pos < s.len());
        assert(e == pos + line_len(s, pos));
        assert(header_fields(s.subrange(pos, e)) == Some((f.path, f.lines.len(), f.no_eol)));
        assert(take_lines(s, e + 1, f.lines.len()) == Some(f.lines));
        if next < s.len() {
            lemma_parse_records(s, next, rest);
            assert(parse_from(s, pos) == Ok::<Seq<FileModel>, SattError>(seq![f] + rest));
        } else {
            assert(archive_bytes(rest).len() == 0);
            if rest.len() > 0 {
                lemma_archive_bytes_prepend(rest[0], rest.drop_first());
                assert(rest =~= seq![rest[0]] + rest.drop_first());
            }
            assert(rest =~= Seq::<FileModel>::empty());
            assert(parse_from(s, pos) == Ok::<Seq<FileModel>, SattError>(seq![f]));
            assert(seq![f] =~= seq![f] + rest);
        }
        assert(seq![f] + rest =~= fs);
    }
}

/// Loading the bytes of an archive of valid records whose paths are all
/// relative gives back exactly those records, in order.
pub proof fn lemma_load_save(fs: Seq<FileModel>)
    requires
        valid_records(fs),
        all_relative(fs),
    ensures
        load_result(archive_bytes(fs)) == Ok::<Seq<FileModel>, SattError>(fs),
{
    let s = archive_bytes(fs);
    assert(s.subrange(0, s.len() as int) =~= s);
    lemma_parse_records(s, 0, fs);
}

pub proof fn lemma_terminated_len(lines: Seq<Seq<u8>>)
    ensures
        terminated(lines).len() >= lines.len(),
    decreases lines.len(),
{
    if lines.len() > 0 {
        lemma_terminated_len(lines.drop_last());
    }
}

/// Archiving a tree of text files, saving, loading and extracting gives the
/// tree back: loading the saved bytes yields the very records that were
/// archived, in order, and each record extracts to its file's path and bytes.
pub proof fn law_round_trip(files: Seq<(Seq<u8>, Seq<u8>)>, recs: Seq<FileModel>)
    requires
        recs.len() == files.len(),
        forall|i: int| 0 <= i < files.len() ==> record_of(files[i].0, files[i].1, #[trigger] recs[i]),
        forall|i: int| 0 <= i < files.len() ==> {
            &&& valid_path(#[trigger] files[i].0)
            &&& !is_absolute(files[i].0)
            &&& files[i].1.len() < usize::MAX
        },
    ensures
        load_result(archive_bytes(recs)) == Ok::<Seq<FileModel>, SattError>(recs),
        forall|i: int| 0 <= i < files.len() ==> {
            &&& (#[trigger] recs[i]).path == files[i].0
            &&& file_content(recs[i].lines, recs[i].no_eol) == files[i].1
        },
{
    assert forall|i: int| 0 <= i < recs.len() implies valid_record(#[trigger] recs[i]) by {
        assert(record_of(files[i].0, files[i].1, recs[i]));
        assert(valid_path(files[i].0));
        lemma_terminated_len(recs[i].lines);
    }
    assert forall|i: int| 0 <= i < recs.len() implies !is_absolute(#[trigger] recs[i].path) by {
        assert(record_of(files[i].0, files[i].1, recs[i]));
        assert(valid_path(files[i].0));
    }
    lemma_load_save(recs);
}

/// An empty file is stored with no lines and no `noeol` mark, under a header
/// that counts zero lines, and extracts to an empty file.
pub proof fn law_empty_file(path: Seq<u8>, r: FileModel)
    requires
        record_of(path, Seq::empty(), r),
    ensures
        r.lines.len() == 0,
        !r.no_eol,
        header(r) == path + seq![SP, 48u8],
        file_content(r.lines, r.no_eol).len() == 0,
{
    assert(header(r) =~= path + seq![SP, 48u8]);
}

/// A file whose last byte is no terminator is stored with the `noeol` mark at
/// the end of its header, and extracts to its bytes, without a terminator at
/// the end.
pub proof fn law_no_final_newline(path: Seq<u8>, bytes: Seq<u8>, r: FileModel)
    requires
        record_of(path, bytes, r),
        bytes.len() > 0,
        bytes.last() != NL,
    ensures
        r.no_eol,
        header(r).subrange(header(r).len() - noeol_token().len(), header(r).len() as int) == noeol_token(),
        file_content(r.lines, r.no_eol) == bytes,
        file_content(r.lines, r.no_eol).last() != NL,
{
    let h = header(r);
    assert(h.subrange(h.len() - noeol_token().len(), h.len() as int) =~= noeol_token());
}

/// Loading the saved bytes of valid records fails with `AbsolutePath` as
/// soon as one of their paths starts with `/`.
pub proof fn law_rejects_absolute(fs: Seq<FileModel>, i: int)
    requires
        valid_records(fs),
        0 <= i < fs.len(),
        is_absolute(fs[i].path),
    ensures
        load_result(archive_bytes(fs)) == Err::<Seq<FileModel>, SattError>(SattError::AbsolutePath),
{
    let s = archive_bytes(fs);
    assert(s.subrange(0, s.len() as int) =~= s);
    lemma_parse_records(s, 0, fs);
}

} // verus!
