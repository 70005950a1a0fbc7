use vstd::prelude::*;
use crate::lines::{NL, terminated, lines_view, lemma_lines_view_push, lemma_terminated_push};
use crate::model::{FileModel, Satf, Satt, SattError, all_relative, records_view, lemma_records_view_push};

verus! {

/// The bytes that separate the fields of a header: tab, line feed, vertical
/// tab, form feed, carriage return and space.
pub open spec fn is_space(b: u8) -> bool {
    b == 9 || b == 10 || b == 11 || b == 12 || b == 13 || b == 32
}

/// How many bytes from `i` on come before the next terminator or the end.
pub open spec fn line_len(s: Seq<u8>, i: int) -> nat
    decreases s.len() - i,
{
    if 0 <= i < s.len() && s[i] != NL {
        1 + line_len(s, i + 1)
    } else {
        0
    }
}

/// How many separator bytes start at `i`.
pub open spec fn space_run(h: Seq<u8>, i: int) -> nat
    decreases h.len() - i,
{
    if 0 <= i < h.len() && is_space(h[i]) {
        1 + space_run(h, i + 1)
    } else {
        0
    }
}

/// How many non-separator bytes start at `i`.
pub open spec fn word_run(h: Seq<u8>, i: int) -> nat
    decreases h.len() - i,
{
    if 0 <= i < h.len() && !is_space(h[i]) {
        1 + word_run(h, i + 1)
    } else {
        0
    }
}

/// The fields of `h` from `i` on: its maximal runs of non-separator bytes.
pub open spec fn tokens_from(h: Seq<u8>, i: int) -> Seq<Seq<u8>>
    decreases h.len() - i,
{
    let j = i + space_run(h, i);
    if 0 <= j < h.len() {
        let e = j + word_run(h, j);
        if e < h.len() {
            seq![h.subrange(j, e)] + tokens_from(h, e + 1)
        } else {
            seq![h.subrange(j, e)]
        }
    } else {
        Seq::empty()
    }
}

/// True when `b` is an ASCII decimal digit.
pub open spec fn is_digit(b: u8) -> bool {
    48 <= b <= 57
}

/// The number that the decimal digits `t` spell.
pub open spec fn digits_value(t: Seq<u8>) -> nat
    decreases t.len(),
{
    if t.len() == 0 {
        0
    } else {
        digits_value(t.drop_last()) * 10 + (t.last() - 48) as nat
    }
}

/// True when `t` is a line count: one or more decimal digits whose value
/// fits in `usize`.
pub open spec fn is_count(t: Seq<u8>) -> bool {
    &&& t.len() > 0
    &&& forall|i: int| 0 <= i < t.len() ==> is_digit(#[trigger] t[i])
    &&& digits_value(t) <= usize::MAX
}

/// The path, line count and no-final-terminator mark that the header line
/// `h` gives, or `None` when it lacks a path or a valid count. Any third field
/// sets the mark, whatever it holds.
pub open spec fn header_fields(h: Seq<u8>) -> Option<(Seq<u8>, nat, bool)> {
    let t = tokens_from(h, 0);
    if t.len() >= 2 && is_count(t[1]) {
        Some((t[0], digits_value(t[1]), t.len() >= 3))
    } else {
        None
    }
}

/// The `count` lines from `i` on, each of which must end with a terminator.
pub open spec fn take_lines(s: Seq<u8>, i: int, count: nat) -> Option<Seq<Seq<u8>>>
    decreases count,
{
    if count == 0 {
        Some(Seq::empty())
    } else {
        let e = i + line_len(s, i);
        if 0 <= e < s.len() {
            match take_lines(s, e + 1, (count - 1) as nat) {
                Some(rest) => Some(seq![s.subrange(i, e)] + rest),
                None => None,
            }
        } else {
            None
        }
    }
}

/// The records of the archive bytes `s` from `pos` on.
pub open spec fn parse_from(s: Seq<u8>, pos: int) -> Result<Seq<FileModel>, SattError>
    decreases s.len() - pos,
{
    if 0 <= pos < s.len() {
        let e = pos + line_len(s, pos);
        match header_fields(s.subrange(pos, e)) {
            None => Err(SattError::MalformedHeader),
            Some((path, count, no_eol)) => match take_lines(s, e + 1, count) {
                None => Err(SattError::TruncatedRecord),
                Some(lines) => {
                    let next = e + 1 + terminated(lines).len();
                    let record = FileModel { path, lines, no_eol };
                    if next < s.len() {
                        match parse_from(s, next) {
                            Ok(rest) => Ok(seq![record] + rest),
                            Err(err) => Err(err),
                        }
                    } else {
                        Ok(seq![record])
                    }
                },
            },
        }
    } else {
        Ok(Seq::empty())
    }
}

/// What loading the archive bytes `s` gives: its records, or the first
/// structural error; then, an error if a path starts with `/`.
pub open spec fn load_result(s: Seq<u8>) -> Result<Seq<FileModel>, SattError> {
    match parse_from(s, 0) {
        Ok(files) => if all_relative(files) {
            Ok(files)
        } else {
            Err(SattError::AbsolutePath)
        },
        Err(err) => Err(err),
    }
}

/// `done` followed by what `rest` holds, or the error of `rest`.
pub open spec fn prepend_records(done: Seq<FileModel>, rest: Result<Seq<FileModel>, SattError>) -> Result<Seq<FileModel>, SattError> {
    match rest {
        Ok(r) => Ok(done + r),
        Err(err) => Err(err),
    }
}

/// `done` followed by what `rest` holds, or `None`.
pub open spec fn prepend_lines(done: Seq<Seq<u8>>, rest: Option<Seq<Seq<u8>>>) -> Option<Seq<Seq<u8>>> {
    match rest {
        Some(r) => Some(done + r),
        None => None,
    }
}

/// The end of the line that starts at `i`.
fn line_end(s: &[u8], i: usize) -> (e: usize)
    requires
        i <= s@.len(),
    ensures
        e == i + line_len(s@, i as int),
        e <= s@.len(),
{
    let mut j: usize = i;
    while j < s.len() && s[j] != NL
        invariant
            i <= j <= s@.len(),
            line_len(s@, i as int) == (j - i) + line_len(s@, j as int),
        decreases s@.len() - j,
    {
        j = j + 1;
    }
    j
}

/// A copy of `s[a..b]`.
fn copy_range(s: &[u8], a: usize, b: usize) -> (r: Vec<u8>)
    requires
        a <= b <= s@.len(),
    ensures
        r@ == s@.subrange(a as int, b as int),
{
    let mut r: Vec<u8> = Vec::new();
    let mut k: usize = a;
    while k < b
        invariant
            a <= k <= b,
            b <= s@.len(),
            r@ == s@.subrange(a as int, k as int),
        decreases b - k,
    {
        r.push(s[k]);
        k = k + 1;
        assert(r@ =~= s@.subrange(a as int, k as int));
    }
    r
}

/// The start and end of the first field of `h` at or after `i`; the start is
/// `h.len()` when there is none.
fn next_token(h: &[u8], i: usize) -> (r: (usize, usize))
    requires
        i <= h@.len(),
    ensures
        r.0 == i + space_run(h@, i as int),
        r.1 == r.0 + word_run(h@, r.0 as int),
        r.1 <= h@.len(),
{
    let mut j: usize = i;
    while j < h.len() && (h[j] == 9 || h[j] == 10 || h[j] == 11 || h[j] == 12 || h[j] == 13 || h[j] == 32)
        invariant
            i <= j <= h@.len(),
            space_run(h@, i as int) == (j - i) + space_run(h@, j as int),
        decreases h@.len() - j,
    {
        j = j + 1;
    }
    let mut e: usize = j;
    while e < h.len() && !(h[e] == 9 || h[e] == 10 || h[e] == 11 || h[e] == 12 || h[e] == 13 || h[e] == 32)
        invariant
            j <= e <= h@.len(),
            word_run(h@, j as int) == (e - j) + word_run(h@, e as int),
        decreases h@.len() - e,
    {
        e = e + 1;
    }
    (j, e)
}

pub proof fn lemma_digits_prefix(t: Seq<u8>, k: int)
    requires
        0 <= k <= t.len(),
        forall|i: int| 0 <= i < t.len() ==> is_digit(#[trigger] t[i]),
    ensures
        digits_value(t.take(k)) <= digits_value(t),
    decreases t.len(),
{
    if k < t.len() {
        assert(t.drop_last().take(k) =~= t.take(k));
        lemma_digits_prefix(t.drop_last(), k);
    } else {
        assert(t.take(k) =~= t);
    }
}

/// The line count that `h[a..b]` spells, or `None` when it is no count.
fn parse_count(h: &[u8], a: usize, b: usize) -> (r: Option<usize>)
    requires
        a <= b <= h@.len(),
    ensures
        r matches Some(n) ==> is_count(h@.subrange(a as int, b as int))
            && n as nat == digits_value(h@.subrange(a as int, b as int)),
        r is None ==> !is_count(h@.subrange(a as int, b as int)),
{
    let ghost t = h@.subrange(a as int, b as int);
    if a == b {
        return None;
    }
    let mut v: usize = 0;
    let mut k: usize = a;
    while k < b
        invariant
            a <= k <= b <= h@.len(),
            t == h@.subrange(a as int, b as int),
            forall|i: int| 0 <= i < k - a ==> is_digit(#[trigger] t[i]),
            v as nat == digits_value(t.take(k - a)),
        decreases b - k,
    {
        let c = h[k];
        if c < 48 || c > 57 {
            assert(!is_digit(t[k - a]));
            return None;
        }
        let d: usize = (c - 48) as usize;
        proof {
            assert(t.take(k - a + 1).drop_last() =~= t.take(k - a));
        }
        if v > (usize::MAX - d) / 10 {
            proof {
                assert(v * 10 + d > usize::MAX) by (nonlinear_arith)
                    requires v > (usize::MAX - d) / 10, d <= 9;
                assert forall|i: int| 0 <= i < k - a + 1 implies is_digit(#[trigger] t[i]) by {}
                if is_count(t) {
                    lemma_digits_prefix(t, k - a + 1);
                }
            }
            return None;
        }
        v = v * 10 + d;
        k = k + 1;
    }
    assert(t.take(k - a) =~= t);
    Some(v)
}

/// The fields of a header line: its path, its line count, and whether a
/// third field marks the file as lacking a final terminator.
fn parse_header(h: &[u8]) -> (r: Option<(Vec<u8>, usize, bool)>)
    ensures
        r matches Some(f) ==> header_fields(h@) == Some((f.0@, f.1 as nat, f.2)),
        r is None ==> header_fields(h@) is None,
{
    let n = h.len();
    let (a0, b0) = next_token(h, 0);
    if a0 >= n {
        assert(tokens_from(h@, 0).len() == 0);
        return None;
    }
    let path = copy_range(h, a0, b0);
    if b0 >= n {
        assert(tokens_from(h@, 0) =~= seq![h@.subrange(a0 as int, b0 as int)]);
        return None;
    }
    let (a1, b1) = next_token(h, b0 + 1);
    let ghost rest1 = tokens_from(h@, b0 + 1);
    assert(tokens_from(h@, 0) =~= seq![h@.subrange(a0 as int, b0 as int)] + rest1);
    if a1 >= n {
        assert(rest1.len() == 0);
        return None;
    }
    let third: bool;
    if b1 >= n {
        assert(rest1 =~= seq![h@.subrange(a1 as int, b1 as int)]);
        third = false;
    } else {
        let (a2, _b2) = next_token(h, b1 + 1);
        let ghost rest2 = tokens_from(h@, b1 + 1);
        assert(rest1 =~= seq![h@.subrange(a1 as int, b1 as int)] + rest2);
        third = a2 < n;
    }
    match parse_count(h, a1, b1) {
        Some(count) => Some((path, count, third)),
        None => None,
    }
}

/// The `count` content lines that start at `body`, each with its terminator
/// removed, and the position after the last of them.
fn take_content(s: &[u8], body: usize, count: usize) -> (r: Option<(Vec<Vec<u8>>, usize)>)
    requires
        body <= s@.len(),
    ensures
        r matches Some(x) ==> take_lines(s@, body as int, count as nat) == Some(lines_view(x.0@))
            && x.1 == body + terminated(lines_view(x.0@)).len() && x.1 <= s@.len(),
        r is None ==> take_lines(s@, body as int, count as nat) is None,
{
    let mut got: Vec<Vec<u8>> = Vec::new();
    let mut p: usize = body;
    let mut k: usize = 0;
    while k < count
        invariant
            body <= p <= s@.len(),
            k <= count,
            take_lines(s@, body as int, count as nat) == prepend_lines(
                lines_view(got@),
                take_lines(s@, p as int, (count - k) as nat),
            ),
            p == body + terminated(lines_view(got@)).len(),
        decreases count - k,
    {
        let e = line_end(s, p);
        if e >= s.len() {
            return None;
        }
        let line = copy_range(s, p, e);
        let ghost before = lines_view(got@);
        let ghost tail = take_lines(s@, e + 1, (count - k - 1) as nat);
        proof {
            lemma_lines_view_push(got@, line);
            lemma_terminated_push(before, line@);
            match tail {
                Some(t) => {
                    assert(before + (seq![line@] + t) =~= before.push(line@) + t);
                },
                None => {},
            }
        }
        got.push(line);
        p = e + 1;
        k = k + 1;
    }
    assert(lines_view(got@) + Seq::<Seq<u8>>::empty() =~= lines_view(got@));
    Some((got, p))
}

impl Satt {
    /// Reads an archive from its bytes: a header line
    /// `<path> <line count>[ noeol]` before each record's content lines, each
    /// of which ends with a terminator. Fails on a malformed header, on
    /// missing or unterminated content lines, and on a path that starts with
    /// `/`.
    pub fn load(bytes: &[u8]) -> (r: Result<Satt, SattError>)
        ensures
            r matches Ok(a) ==> load_result(bytes@) == Ok::<Seq<FileModel>, SattError>(a@),
            r matches Err(err) ==> load_result(bytes@) == Err::<Seq<FileModel>, SattError>(err),
    {
        let n = bytes.len();
        let mut files: Vec<Satf> = Vec::new();
        let mut pos: usize = 0;
        assert(records_view(files@) =~= Seq::<FileModel>::empty());
        while pos < n
            invariant
                pos <= n == bytes@.len(),
                parse_from(bytes@, 0) == prepend_records(records_view(files@), parse_from(bytes@, pos as int)),
            decreases n - pos,
        {
            let e = line_end(bytes, pos);
            let h = copy_range(bytes, pos, e);
            let ghost done = records_view(files@);
            match parse_header(h.as_slice()) {
                None => {
                    return Err(SattError::MalformedHeader);
                },
                Some((path, count, no_eol)) => {
                    if e == n {
                        if count > 0 {
                            return Err(SattError::TruncatedRecord);
                        }
                        let f = Satf { path, lines: Vec::new(), no_eol };
                        proof {
                            lemma_records_view_push(files@, f);
                            assert(lines_view(f.lines@) =~= Seq::<Seq<u8>>::empty());
                            assert(done + (seq![f@] + Seq::<FileModel>::empty()) =~= done.push(f@) + Seq::<FileModel>::empty());
                        }
                        files.push(f);
                        pos = n;
                    } else {
                        match take_content(bytes, e + 1, count) {
                            None => {
                                return Err(SattError::TruncatedRecord);
                            },
                            Some((lines, next)) => {
                                let f = Satf { path, lines, no_eol };
                                proof {
                                    lemma_records_view_push(files@, f);
                                    let rest = parse_from(bytes@, next as int);
                                    assert(parse_from(bytes@, pos as int) == prepend_records(seq![f@], rest));
                                    match rest {
                                        Ok(t) => {
                                            assert(done + (seq![f@] + t) =~= done.push(f@) + t);
                                        },
                                        Err(_) => {},
                                    }
                                }
                                files.push(f);
                                pos = next;
                            },
                        }
                    }
                },
            }
        }
        assert(records_view(files@) + Seq::<FileModel>::empty() =~= records_view(files@));
        let satt = Satt { files };
        match satt.check() {
            Ok(()) => Ok(satt),
            Err(err) => Err(err),
        }
    }
}

} // verus!
