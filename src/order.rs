use vstd::prelude::*;
use vstd::relations::{total_ordering, sorted_by};
use vstd::multiset::Multiset;
use crate::model::{FileModel, Satt, record_of};
use crate::lines::lemma_split_unique;
use crate::encode::archive_bytes;

verus! {

broadcast use vstd::seq_lib::group_to_multiset_ensures;

/// A file as the walk of a tree hands it over: its relative path and its bytes.
pub type Entry = (Vec<u8>, Vec<u8>);

/// The contents of a list of entries.
pub open spec fn entries_view(v: Seq<Entry>) -> Seq<(Seq<u8>, Seq<u8>)> {
    Seq::new(v.len(), |i: int| (v[i].0@, v[i].1@))
}

/// Lexicographic order on byte strings: `a` comes first at the first byte in
/// which they differ, or when it is a proper prefix of `b`.
pub open spec fn bytes_lt(a: Seq<u8>, b: Seq<u8>) -> bool
    decreases a.len(),
{
    if a.len() == 0 {
        b.len() > 0
    } else if b.len() == 0 {
        false
    } else if a[0] != b[0] {
        a[0] < b[0]
    } else {
        bytes_lt(a.drop_first(), b.drop_first())
    }
}

/// The order of entries: by path, then by bytes.
pub open spec fn entry_le(x: (Seq<u8>, Seq<u8>), y: (Seq<u8>, Seq<u8>)) -> bool {
    x == y || bytes_lt(x.0, y.0) || (x.0 == y.0 && bytes_lt(x.1, y.1))
}

/// The order of entries, as a relation.
pub open spec fn entry_order() -> spec_fn((Seq<u8>, Seq<u8>), (Seq<u8>, Seq<u8>)) -> bool {
    |x: (Seq<u8>, Seq<u8>), y: (Seq<u8>, Seq<u8>)| entry_le(x, y)
}

/// The entries of `s`, sorted by path.
pub open spec fn sorted_entries(s: Seq<(Seq<u8>, Seq<u8>)>) -> Seq<(Seq<u8>, Seq<u8>)> {
    s.sort_by(entry_order())
}

pub proof fn lemma_bytes_lt_irreflexive(a: Seq<u8>)
    ensures
        !bytes_lt(a, a),
    decreases a.len(),
{
    if a.len() > 0 {
        lemma_bytes_lt_irreflexive(a.drop_first());
    }
}

pub proof fn lemma_bytes_lt_asymmetric(a: Seq<u8>, b: Seq<u8>)
    ensures
        bytes_lt(a, b) ==> !bytes_lt(b, a),
    decreases a.len(),
{
    if a.len() > 0 && b.len() > 0 && a[0] == b[0] {
        lemma_bytes_lt_asymmetric(a.drop_first(), b.drop_first());
    }
}

pub proof fn lemma_bytes_lt_transitive(a: Seq<u8>, b: Seq<u8>, c: Seq<u8>)
    ensures
        bytes_lt(a, b) && bytes_lt(b, c) ==> bytes_lt(a, c),
    decreases a.len(),
{
    if a.len() > 0 && b.len() > 0 && c.len() > 0 {
        lemma_bytes_lt_transitive(a.drop_first(), b.drop_first(), c.drop_first());
    }
}

pub proof fn lemma_bytes_lt_total(a: Seq<u8>, b: Seq<u8>)
    ensures
        a == b || bytes_lt(a, b) || bytes_lt(b, a),
    decreases a.len(),
{
    if a.len() > 0 && b.len() > 0 && a[0] == b[0] {
        lemma_bytes_lt_total(a.drop_first(), b.drop_first());
        if a.drop_first() == b.drop_first() {
            assert(a =~= seq![a[0]] + a.drop_first());
            assert(b =~= seq![b[0]] + b.drop_first());
        }
    } else if a.len() == 0 && b.len() == 0 {
        assert(a =~= b);
    }
}

/// The order of entries is a total order.
pub proof fn lemma_entry_order()
    ensures
        forall|x: (Seq<u8>, Seq<u8>), y: (Seq<u8>, Seq<u8>)| #[trigger] entry_order()(x, y) == entry_le(x, y),
        total_ordering(entry_order()),
{
    let leq = entry_order();
    assert forall|x: (Seq<u8>, Seq<u8>), y: (Seq<u8>, Seq<u8>)|
        #[trigger] leq(x, y) && #[trigger] leq(y, x) implies x == y by {
        lemma_bytes_lt_asymmetric(x.0, y.0);
        lemma_bytes_lt_asymmetric(x.1, y.1);
        lemma_bytes_lt_irreflexive(x.0);
    }
    assert forall|x: (Seq<u8>, Seq<u8>), y: (Seq<u8>, Seq<u8>), z: (Seq<u8>, Seq<u8>)|
        #[trigger] leq(x, y) && #[trigger] leq(y, z) implies leq(x, z) by {
        lemma_bytes_lt_transitive(x.0, y.0, z.0);
        lemma_bytes_lt_transitive(x.1, y.1, z.1);
    }
    assert forall|x: (Seq<u8>, Seq<u8>), y: (Seq<u8>, Seq<u8>)|
        #[trigger] leq(x, y) || #[trigger] leq(y, x) by {
        lemma_bytes_lt_total(x.0, y.0);
        lemma_bytes_lt_total(x.1, y.1);
    }
    assert(vstd::relations::reflexive(leq));
    assert(vstd::relations::antisymmetric(leq));
    assert(vstd::relations::transitive(leq));
    assert(vstd::relations::strongly_connected(leq));
}

/// Two sorted arrangements of the same entries are one and the same.
pub proof fn lemma_sorted_unique(a: Seq<(Seq<u8>, Seq<u8>)>, b: Seq<(Seq<u8>, Seq<u8>)>)
    requires
        sorted_by(a, entry_order()),
        sorted_by(b, entry_order()),
        a.to_multiset() == b.to_multiset(),
    ensures
        a == b,
    decreases a.len(),
{
    let leq = entry_order();
    lemma_entry_order();
    vstd::seq_lib::to_multiset_len(a);
    vstd::seq_lib::to_multiset_len(b);
    assert(a.len() == b.len());
    if a.len() == 0 {
        assert(a =~= b);
    } else {
        assert(b.to_multiset().count(a[0]) > 0);
        assert(b.contains(a[0]));
        let j = choose|j: int| 0 <= j < b.len() && b[j] == a[0];
        assert(a.to_multiset().count(b[0]) > 0);
        assert(a.contains(b[0]));
        let k = choose|k: int| 0 <= k < a.len() && a[k] == b[0];
        if j > 0 {
            assert(leq(b[0], b[j]));
        }
        if k > 0 {
            assert(leq(a[0], a[k]));
        }
        assert(leq(b[0], a[0]));
        assert(leq(a[0], b[0]));
        assert(a[0] == b[0]);
        assert(a.remove(0) =~= a.drop_first());
        assert(b.remove(0) =~= b.drop_first());
        assert(a.drop_first().to_multiset() == b.drop_first().to_multiset());
        lemma_sorted_unique(a.drop_first(), b.drop_first());
        assert(a =~= seq![a[0]] + a.drop_first());
        assert(b =~= seq![b[0]] + b.drop_first());
    }
}

/// `a` comes before `b` in lexicographic order.
pub fn bytes_less(a: &[u8], b: &[u8]) -> (r: bool)
    ensures
        r == bytes_lt(a@, b@),
{
    let mut i: usize = 0;
    assert(a@.skip(0) =~= a@);
    assert(b@.skip(0) =~= b@);
    while i < a.len() && i < b.len() && a[i] == b[i]
        invariant
            i <= a@.len(),
            i <= b@.len(),
            bytes_lt(a@, b@) == bytes_lt(a@.skip(i as int), b@.skip(i as int)),
        decreases a@.len() - i,
    {
        assert(a@.skip(i as int).drop_first() =~= a@.skip(i + 1));
        assert(b@.skip(i as int).drop_first() =~= b@.skip(i + 1));
        i = i + 1;
    }
    if i == a.len() {
        i < b.len()
    } else if i == b.len() {
        false
    } else {
        a[i] < b[i]
    }
}

/// `x` comes strictly before `y`: by path, then by bytes.
fn entry_less(x: &Entry, y: &Entry) -> (r: bool)
    ensures
        r == (entry_le((x.0@, x.1@), (y.0@, y.1@)) && (x.0@, x.1@) != (y.0@, y.1@)),
{
    proof {
        lemma_bytes_lt_asymmetric(x.0@, y.0@);
        lemma_bytes_lt_irreflexive(x.0@);
        lemma_bytes_lt_irreflexive(x.1@);
    }
    if bytes_less(x.0.as_slice(), y.0.as_slice()) {
        true
    } else if bytes_less(y.0.as_slice(), x.0.as_slice()) {
        false
    } else {
        proof {
            lemma_bytes_lt_total(x.0@, y.0@);
        }
        bytes_less(x.1.as_slice(), y.1.as_slice())
    }
}

/// The entries sorted by path, then by bytes.
pub fn sort_entries(v: Vec<Entry>) -> (r: Vec<Entry>)
    ensures
        entries_view(r@) == sorted_entries(entries_view(v@)),
{
    let ghost leq = entry_order();
    proof {
        lemma_entry_order();
    }
    let ghost all = entries_view(v@);
    let mut rest = v;
    let mut out: Vec<Entry> = Vec::new();
    assert(entries_view(out@).to_multiset().add(entries_view(rest@).to_multiset()) =~= all.to_multiset());
    while rest.len() > 0
        invariant
            leq == entry_order(),
            total_ordering(leq),
            sorted_by(entries_view(out@), leq),
            forall|i: int, j: int|
                0 <= i < out@.len() && 0 <= j < rest@.len() ==> leq(
                    #[trigger] entries_view(out@)[i],
                    #[trigger] entries_view(rest@)[j],
                ),
            entries_view(out@).to_multiset().add(entries_view(rest@).to_multiset()) == all.to_multiset(),
        decreases rest@.len(),
    {
        let ghost rv = entries_view(rest@);
        let mut m: usize = 0;
        let mut k: usize = 1;
        while k < rest.len()
            invariant
                leq == entry_order(),
                total_ordering(leq),
                rv == entries_view(rest@),
                0 <= m < k <= rest@.len(),
                forall|j: int| 0 <= j < k ==> leq(rv[m as int], #[trigger] rv[j]),
            decreases rest@.len() - k,
        {
            let less = entry_less(&rest[k], &rest[m]);
            proof {
                lemma_entry_order();
                let xk = rv[k as int];
                let xm = rv[m as int];
                assert(xk == (rest@[k as int].0@, rest@[k as int].1@));
                assert(xm == (rest@[m as int].0@, rest@[m as int].1@));
                assert(leq(xk, xk));
                if less {
                    assert forall|j: int| 0 <= j < k + 1 implies leq(xk, #[trigger] rv[j]) by {
                        if j < k {
                            assert(leq(xm, rv[j]));
                            assert(leq(xk, xm));
                        }
                    }
                } else {
                    assert(leq(xm, xm));
                    if !leq(xk, xm) {
                        assert(leq(xk, xm) || leq(xm, xk));
                    }
                    assert(leq(xm, xk));
                }
            }
            if less {
                m = k;
            }
            k = k + 1;
        }
        let ghost ov = entries_view(out@);
        let x = rest.remove(m);
        let ghost xv = (x.0@, x.1@);
        assert(xv == rv[m as int]);
        assert(entries_view(rest@) =~= rv.remove(m as int));
        out.push(x);
        assert(entries_view(out@) =~= ov.push(xv));
        proof {
            assert(ov.push(xv).to_multiset() =~= ov.to_multiset().insert(xv));
            assert(rv.remove(m as int).to_multiset() =~= rv.to_multiset().remove(xv));
            assert(rv.contains(xv));
            assert(rv.to_multiset().count(xv) > 0);
            assert(ov.push(xv).to_multiset().add(rv.remove(m as int).to_multiset())
                =~= ov.to_multiset().add(rv.to_multiset()));
            assert forall|i: int, j: int| 0 <= i < j < ov.push(xv).len() implies #[trigger] leq(ov.push(xv)[i], ov.push(xv)[j]) by {
                if j == ov.len() {
                    assert(leq(ov[i], rv[m as int]));
                }
            }
            assert forall|i: int, j: int|
                0 <= i < out@.len() && 0 <= j < rest@.len() implies leq(
                    #[trigger] entries_view(out@)[i],
                    #[trigger] entries_view(rest@)[j],
                ) by {
                let jj = if j < m { j } else { j + 1 };
                assert(entries_view(rest@)[j] == rv[jj]);
                if i < ov.len() {
                    assert(leq(ov[i], rv[jj]));
                } else {
                    assert(leq(rv[m as int], rv[jj]));
                }
            }
        }
    }
    proof {
        assert(entries_view(rest@).to_multiset().len() == 0);
        assert(entries_view(rest@).to_multiset() =~= Multiset::empty());
        assert(entries_view(out@).to_multiset() =~= all.to_multiset());
        all.lemma_sort_by_ensures(leq);
        lemma_sorted_unique(entries_view(out@), all.sort_by(leq));
    }
    out
}

/// `recs` is the archive of the files `files`: a record for each, in path
/// order.
pub open spec fn archived(files: Seq<(Seq<u8>, Seq<u8>)>, recs: Seq<FileModel>) -> bool {
    let sorted = sorted_entries(files);
    &&& recs.len() == sorted.len()
    &&& forall|i: int| 0 <= i < sorted.len() ==> record_of(sorted[i].0, sorted[i].1, #[trigger] recs[i])
}

impl Satt {
    /// Builds the archive of a tree from its files, each a path relative to
    /// the root and the file's bytes, in whatever order the walk found them:
    /// the records are stored sorted by path.
    pub fn archive_root(files: Vec<Entry>) -> (r: Satt)
        ensures
            archived(entries_view(files@), r@),
            r@.len() == files@.len(),
    {
        let ghost all = entries_view(files@);
        let sorted = sort_entries(files);
        let r = Satt::archive_filelist(sorted.as_slice());
        proof {
            lemma_entry_order();
            all.lemma_sort_by_ensures(entry_order());
            vstd::seq_lib::to_multiset_len(all);
            vstd::seq_lib::to_multiset_len(all.sort_by(entry_order()));
            let se = sorted_entries(all);
            assert forall|i: int| 0 <= i < se.len() implies record_of(se[i].0, se[i].1, #[trigger] r@[i]) by {
                assert(se[i] == entries_view(sorted@)[i]);
                assert(record_of(sorted@[i].0@, sorted@[i].1@, r@[i]));
            }
        }
        r
    }
}

/// Archiving a tree twice gives byte-identical archives, whatever order the
/// walk hands the files over in each time.
pub proof fn law_deterministic_order(
    a: Seq<(Seq<u8>, Seq<u8>)>,
    b: Seq<(Seq<u8>, Seq<u8>)>,
    ra: Seq<FileModel>,
    rb: Seq<FileModel>,
)
    requires
        a.to_multiset() == b.to_multiset(),
        archived(a, ra),
        archived(b, rb),
    ensures
        ra == rb,
        archive_bytes(ra) == archive_bytes(rb),
{
    lemma_entry_order();
    a.lemma_sort_by_ensures(entry_order());
    b.lemma_sort_by_ensures(entry_order());
    lemma_sorted_unique(sorted_entries(a), sorted_entries(b));
    let s = sorted_entries(a);
    assert forall|i: int| 0 <= i < ra.len() implies ra[i] == rb[i] by {
        assert(record_of(s[i].0, s[i].1, ra[i]));
        assert(record_of(s[i].0, s[i].1, rb[i]));
        lemma_split_unique(s[i].1, ra[i].lines, ra[i].no_eol, rb[i].lines, rb[i].no_eol);
    }
    assert(ra =~= rb);
}

} // verus!
