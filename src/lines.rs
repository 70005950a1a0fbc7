use vstd::prelude::*;

verus! {

/// The line terminator.
pub const NL: u8 = 10;

/// True when `line` holds no terminator.
pub open spec fn no_newline(line: Seq<u8>) -> bool {
    forall|i: int| 0 <= i < line.len() ==> #[trigger] line[i] != NL
}

/// True when no line of `lines` holds a terminator.
pub open spec fn all_lines_clean(lines: Seq<Seq<u8>>) -> bool {
    forall|i: int| 0 <= i < lines.len() ==> no_newline(#[trigger] lines[i])
}

/// Each line followed by one terminator, in order.
pub open spec fn terminated(lines: Seq<Seq<u8>>) -> Seq<u8>
    decreases lines.len(),
{
    if lines.len() == 0 {
        Seq::empty()
    } else {
        terminated(lines.drop_last()) + lines.last() + seq![NL]
    }
}

/// The bytes of a file made of `lines`: the lines joined by a terminator,
/// with a final terminator unless `no_eol`; no lines make an empty file.
pub open spec fn file_content(lines: Seq<Seq<u8>>, no_eol: bool) -> Seq<u8> {
    if lines.len() == 0 {
        Seq::empty()
    } else if no_eol {
        terminated(lines).drop_last()
    } else {
        terminated(lines)
    }
}

/// `(lines, no_eol)` is how the file `bytes` is stored: lines without their
/// terminators, and whether the last byte was not a terminator.
pub open spec fn is_split_of(bytes: Seq<u8>, lines: Seq<Seq<u8>>, no_eol: bool) -> bool {
    &&& all_lines_clean(lines)
    &&& file_content(lines, no_eol) == bytes
    &&& (bytes.len() == 0 ==> lines.len() == 0 && !no_eol)
    &&& (bytes.len() > 0 ==> no_eol == (bytes.last() != NL))
}

/// The contents of a vector of lines, line by line.
pub open spec fn lines_view(v: Seq<Vec<u8>>) -> Seq<Seq<u8>> {
    Seq::new(v.len(), |i: int| v[i]@)
}

pub proof fn lemma_lines_view_push(v: Seq<Vec<u8>>, line: Vec<u8>)
    ensures
        lines_view(v.push(line)) == lines_view(v).push(line@),
{
    assert(lines_view(v.push(line)) =~= lines_view(v).push(line@));
}

pub proof fn lemma_terminated_push(lines: Seq<Seq<u8>>, line: Seq<u8>)
    ensures
        terminated(lines.push(line)) == terminated(lines) + line + seq![NL],
{
    assert(lines.push(line).drop_last() =~= lines);
}

pub proof fn lemma_terminated_prepend(line: Seq<u8>, lines: Seq<Seq<u8>>)
    ensures
        terminated(seq![line] + lines) == line + seq![NL] + terminated(lines),
    decreases lines.len(),
{
    let all = seq![line] + lines;
    if lines.len() == 0 {
        assert(all.drop_last() =~= Seq::<Seq<u8>>::empty());
        assert(terminated(all.drop_last()) =~= Seq::<u8>::empty());
        assert(all.last() == line);
        assert(terminated(all) =~= line + seq![NL] + terminated(lines));
    } else {
        assert(all.drop_last() =~= seq![line] + lines.drop_last());
        assert(all.last() == lines.last());
        lemma_terminated_prepend(line, lines.drop_last());
        assert(terminated(all) == terminated(seq![line] + lines.drop_last()) + lines.last() + seq![NL]);
        assert(terminated(all) =~= line + seq![NL] + terminated(lines));
    }
}

/// A non-empty run of terminated lines ends with a terminator.
pub proof fn lemma_terminated_last(lines: Seq<Seq<u8>>)
    requires
        lines.len() > 0,
    ensures
        terminated(lines).len() > 0,
        terminated(lines).last() == NL,
{
}

/// Terminated clean lines can be read back in one way only.
pub proof fn lemma_terminated_injective(l1: Seq<Seq<u8>>, l2: Seq<Seq<u8>>)
    requires
        all_lines_clean(l1),
        all_lines_clean(l2),
        terminated(l1) == terminated(l2),
    ensures
        l1 == l2,
    decreases l1.len(),
{
    if l1.len() == 0 || l2.len() == 0 {
        if l1.len() > 0 {
            lemma_terminated_last(l1);
        }
        if l2.len() > 0 {
            lemma_terminated_last(l2);
        }
        assert(l1 =~= l2);
    } else {
        let t = terminated(l1);
        let p1 = terminated(l1.drop_last());
        let p2 = terminated(l2.drop_last());
        let x = l1.last();
        let y = l2.last();
        assert(no_newline(l1[l1.len() - 1]));
        assert(no_newline(l2[l2.len() - 1]));
        assert(t == p1 + x + seq![NL]);
        assert(t == p2 + y + seq![NL]);
        let l = t.len() - 1;
        if x.len() < y.len() {
            let q = l - x.len() - 1;
            assert(t[q] == y[q - (l - y.len())]);
            assert(p1.len() == q + 1);
            assert(l1.drop_last().len() > 0) by {
                if l1.drop_last().len() == 0 {
                    assert(p1.len() == 0);
                }
            }
            lemma_terminated_last(l1.drop_last());
            assert(t[q] == p1[q]);
            assert(false);
        }
        if y.len() < x.len() {
            let q = l - y.len() - 1;
            assert(t[q] == x[q - (l - x.len())]);
            assert(p2.len() == q + 1);
            assert(l2.drop_last().len() > 0) by {
                if l2.drop_last().len() == 0 {
                    assert(p2.len() == 0);
                }
            }
            lemma_terminated_last(l2.drop_last());
            assert(t[q] == p2[q]);
            assert(false);
        }
        assert(p1 =~= t.subrange(0, p1.len() as int));
        assert(p2 =~= t.subrange(0, p2.len() as int));
        assert(x =~= t.subrange(p1.len() as int, l));
        assert(y =~= t.subrange(p2.len() as int, l));
        assert(all_lines_clean(l1.drop_last())) by {
            assert forall|i: int| 0 <= i < l1.drop_last().len() implies no_newline(#[trigger] l1.drop_last()[i]) by {
                assert(l1.drop_last()[i] == l1[i]);
            }
        }
        assert(all_lines_clean(l2.drop_last())) by {
            assert forall|i: int| 0 <= i < l2.drop_last().len() implies no_newline(#[trigger] l2.drop_last()[i]) by {
                assert(l2.drop_last()[i] == l2[i]);
            }
        }
        lemma_terminated_injective(l1.drop_last(), l2.drop_last());
        assert(l1 =~= l1.drop_last().push(x));
        assert(l2 =~= l2.drop_last().push(y));
    }
}

/// A file's bytes have one stored form only.
pub proof fn lemma_split_unique(bytes: Seq<u8>, l1: Seq<Seq<u8>>, f1: bool, l2: Seq<Seq<u8>>, f2: bool)
    requires
        is_split_of(bytes, l1, f1),
        is_split_of(bytes, l2, f2),
    ensures
        l1 == l2,
        f1 == f2,
{
    if bytes.len() > 0 {
        if f1 {
            lemma_terminated_last(l1);
            lemma_terminated_last(l2);
            assert(terminated(l1) =~= terminated(l1).drop_last().push(NL));
            assert(terminated(l2) =~= terminated(l2).drop_last().push(NL));
        }
        lemma_terminated_injective(l1, l2);
    } else {
        assert(l1 =~= l2);
    }
}

/// Splits the bytes of a file into lines without terminators, noting whether
/// the last line lacked one.
pub fn read_file(bytes: &[u8]) -> (r: (Vec<Vec<u8>>, bool))
    ensures
        is_split_of(bytes@, lines_view(r.0@), r.1),
{
    let mut lines: Vec<Vec<u8>> = Vec::new();
    let mut cur: Vec<u8> = Vec::new();
    let mut i: usize = 0;
    while i < bytes.len()
        invariant
            i <= bytes.len(),
            all_lines_clean(lines_view(lines@)),
            no_newline(cur@),
            terminated(lines_view(lines@)) + cur@ == bytes@.subrange(0, i as int),
        decreases bytes.len() - i,
    {
        let b = bytes[i];
        if b == NL {
            let ghost before = lines_view(lines@);
            proof {
                lemma_terminated_push(before, cur@);
            }
            let line = cur;
            proof {
                lemma_lines_view_push(lines@, line);
            }
            lines.push(line);
            cur = Vec::new();
        } else {
            cur.push(b);
        }
        i = i + 1;
        assert(terminated(lines_view(lines@)) + cur@ =~= bytes@.subrange(0, i as int));
    }
    assert(bytes@.subrange(0, i as int) =~= bytes@);
    if cur.len() > 0 {
        let ghost before = lines_view(lines@);
        proof {
            lemma_terminated_push(before, cur@);
        }
        proof {
            lemma_lines_view_push(lines@, cur);
        }
        lines.push(cur);
        proof {
            lemma_terminated_last(lines_view(lines@));
            assert(terminated(lines_view(lines@)).drop_last() =~= bytes@);
        }
        (lines, true)
    } else {
        proof {
            assert(terminated(lines_view(lines@)) =~= bytes@);
            if lines.len() > 0 {
                lemma_terminated_last(lines_view(lines@));
            }
        }
        (lines, false)
    }
}

} // verus!
