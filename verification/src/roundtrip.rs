//! The core of the formatter/parser round trip: re-parsing one rendered
//! record line yields the record back, with the line's own position as its
//! line number. Headings and blank separator lines parse to nothing, so
//! re-parsing a canonical manifest recovers exactly its records.

use crate::bytes::{
    byte_leq, is_space, join_with, lemma_join_empties, lemma_join_with_absent,
    lemma_join_with_concat, lemma_join_with_last, lemma_lex_leq_total_ordering,
    lemma_split_on_join, lemma_trim_identity, spaces, split_on, trim,
};
use crate::classify::{BucketKind, BucketView};
use crate::format::{
    bucket_lines, fmt_lines_spec, fmt_spec, heading, lemma_max_name_ge, line_fn, manifest_lines,
    max_name_len, pkg_line,
};
use crate::bytes::{lemma_lex_lt_asym, lemma_lex_lt_irrefl, lex_lt};
use crate::classify::{bucket_pred, buckets_for, classify_spec, in_bucket, kind_order};
use crate::package::{pkg_leq, pkg_order, PackageView};
use crate::parse::{line_record, records_of, records_of_lines, tag_pred};
use vstd::prelude::*;
use vstd::relations::sorted_by;
use vstd::seq_lib::lemma_sorted_unique;

verus! {

/// A record that survives a format/parse round trip untouched: well formed,
/// carrying at least one tag (untagged records are never emitted), and its
/// last tag not ending in a whitespace byte (the rendered line ends with
/// that byte, and trimming would eat it).
pub open spec fn clean(p: PackageView) -> bool {
    &&& p.wf()
    &&& p.tags.len() >= 1
    &&& !is_space(p.tags[p.tags.len() - 1][p.tags[p.tags.len() - 1].len() - 1])
}

/// The same records, renumbered to consecutive line numbers from `first`.
pub open spec fn renumber(ps: Seq<PackageView>, first: nat) -> Seq<PackageView> {
    ps.map(
        |i: int, p: PackageView|
            PackageView { line_no: (first + i) as nat, name: p.name, tags: p.tags },
    )
}

/// Filtering keeps everything when the predicate holds everywhere.
proof fn lemma_filter_all_true<A>(s: Seq<A>, p: spec_fn(A) -> bool)
    requires
        forall|i: int| 0 <= i < s.len() ==> p(#[trigger] s[i]),
    ensures
        s.filter(p) == s,
    decreases s.len(),
{
    if s.len() == 0 {
        assert(s.filter(p) =~= s);
    } else {
        let d = s.drop_last();
        assert(forall|i: int| 0 <= i < d.len() ==> d[i] == s[i]);
        lemma_filter_all_true(d, p);
        d.lemma_filter_push(s.last(), p);
        assert(d.push(s.last()) =~= s);
    }
}

/// Filtering keeps nothing when the predicate holds nowhere.
proof fn lemma_filter_all_false<A>(s: Seq<A>, p: spec_fn(A) -> bool)
    requires
        forall|i: int| 0 <= i < s.len() ==> !p(#[trigger] s[i]),
    ensures
        s.filter(p) == Seq::<A>::empty(),
    decreases s.len(),
{
    if s.len() == 0 {
        assert(s.filter(p) =~= Seq::<A>::empty());
    } else {
        let d = s.drop_last();
        assert(forall|i: int| 0 <= i < d.len() ==> d[i] == s[i]);
        lemma_filter_all_false(d, p);
        d.lemma_filter_push(s.last(), p);
        assert(d.push(s.last()) =~= s);
    }
}

/// A blank line yields no record.
pub proof fn lemma_blank_line_no_record(n: nat)
    ensures
        line_record(n, Seq::<u8>::empty()) is None,
{
}

/// A section heading yields no record: it is a comment line.
pub proof fn lemma_heading_no_record(k: crate::classify::BucketKind, n: nat)
    ensures
        line_record(n, heading(k)) is None,
{
    let h = heading(k);
    assert(h.len() > 0 && h[0] == 35 && !is_space(h[0]) && !is_space(h[h.len() - 1]));
    lemma_trim_identity(h);
}

/// Re-parsing a rendered record line yields the record back. This is the
/// heart of the formatter/parser round trip: the name is recovered as the
/// first token, the padding collapses into ignored empty tokens, and the
/// tags — already sorted — come back unchanged. The one proviso: the
/// rendered line ends with the last tag, so that tag must not end in a
/// whitespace byte, or trimming would eat into it.
pub proof fn lemma_line_round_trip(p: PackageView, width: nat, n: nat)
    requires
        p.wf(),
        p.tags.len() >= 1,
        p.name.len() < width,
        !is_space(p.tags[p.tags.len() - 1][p.tags[p.tags.len() - 1].len() - 1]),
    ensures
        line_record(n, pkg_line(p, width)) == Some(
            PackageView { line_no: n, name: p.name, tags: p.tags },
        ),
{
    broadcast use vstd::prelude::Seq::filter_distributes_over_add;

    let k = (width - p.name.len()) as nat;
    let line = pkg_line(p, width);
    let jt = join_with(p.tags, 32);
    assert(crate::package::wf_tag(p.tags[p.tags.len() - 1]));
    lemma_join_with_last(p.tags, 32);
    assert(line == (p.name + spaces(k)) + jt);
    assert(line[0] == p.name[0]);
    assert(line[line.len() - 1] == jt[jt.len() - 1]);
    lemma_trim_identity(line);
    assert(trim(line) == line);
    assert(line[0] != 35);

    // The line is the join of: the name, `k - 1` empty tokens, the tags.
    let es = Seq::new((k - 1) as nat, |i: int| Seq::<u8>::empty());
    let toks_spec = seq![p.name] + es + p.tags;
    assert(join_with(seq![p.name], 32) == p.name);
    if k == 1 {
        assert(seq![p.name] + es =~= seq![p.name]);
        lemma_join_with_concat(seq![p.name], p.tags, 32);
        assert(join_with(toks_spec, 32) =~= line) by {
            assert(toks_spec =~= seq![p.name] + p.tags);
            assert(p.name + seq![32u8] + jt =~= (p.name + spaces(1)) + jt);
        }
    } else {
        lemma_join_with_concat(seq![p.name], es + p.tags, 32);
        assert(toks_spec =~= seq![p.name] + (es + p.tags));
        lemma_join_with_concat(es, p.tags, 32);
        lemma_join_empties((k - 1) as nat, 32);
        assert(join_with(es, 32) == Seq::new((k - 2) as nat, |i: int| 32u8));
        assert(join_with(toks_spec, 32) == p.name + seq![32u8] + (Seq::new(
            (k - 2) as nat,
            |i: int| 32u8,
        ) + seq![32u8] + jt));
        assert(p.name + seq![32u8] + (Seq::new((k - 2) as nat, |i: int| 32u8) + seq![32u8] + jt)
            =~= (p.name + spaces(k)) + jt);
    }
    assert(join_with(toks_spec, 32) == line);

    // Splitting recovers exactly those tokens.
    assert forall|i: int, m: int|
        0 <= i < toks_spec.len() && 0 <= m < toks_spec[i].len() implies toks_spec[i][m] != 32 by {
        if i == 0 {
            assert(toks_spec[0] == p.name);
        } else if i < 1 + es.len() {
            assert(toks_spec[i] == es[i - 1]);
        } else {
            assert(toks_spec[i] == p.tags[i - 1 - es.len()]);
            assert(crate::package::wf_tag(p.tags[i - 1 - es.len()]));
        }
    }
    lemma_split_on_join(toks_spec, 32);
    let toks = split_on(line, 32);
    assert(toks == toks_spec);
    assert(toks[0] == p.name);

    // Empty tokens are ignored; every tag token survives.
    assert(toks.skip(1) =~= es + p.tags);
    assert(forall|i: int| 0 <= i < es.len() ==> !tag_pred()(#[trigger] es[i]));
    lemma_filter_all_false(es, tag_pred());
    assert forall|i: int| 0 <= i < p.tags.len() implies tag_pred()(#[trigger] p.tags[i]) by {
        assert(crate::package::wf_tag(p.tags[i]));
    }
    lemma_filter_all_true(p.tags, tag_pred());
    assert((es + p.tags).filter(tag_pred()) == es.filter(tag_pred()) + p.tags.filter(tag_pred()));
    assert(toks.skip(1).filter(tag_pred()) =~= p.tags);

    // The tags are already sorted, so sorting leaves them unchanged.
    lemma_lex_leq_total_ordering();
    p.tags.lemma_sort_by_ensures(byte_leq());
    lemma_sorted_unique(p.tags, p.tags.sort_by(byte_leq()), byte_leq());
    assert(toks.skip(1).filter(tag_pred()).sort_by(byte_leq()) == p.tags);
}

/// Records of concatenated line lists: each part contributes its records,
/// the second part's line numbers shifted past the first.
proof fn lemma_records_concat(a: Seq<Seq<u8>>, b: Seq<Seq<u8>>, f: nat)
    ensures
        records_of_lines(a + b, f) == records_of_lines(a, f) + records_of_lines(
            b,
            (f + a.len()) as nat,
        ),
    decreases a.len(),
{
    if a.len() == 0 {
        assert(a + b =~= b);
        assert(records_of_lines(a, f) =~= Seq::<PackageView>::empty());
        assert(Seq::<PackageView>::empty() + records_of_lines(b, f) =~= records_of_lines(b, f));
    } else {
        lemma_records_concat(a.skip(1), b, (f + 1) as nat);
        assert((a + b).skip(1) =~= a.skip(1) + b);
        assert((a + b)[0] == a[0]);
        match line_record(f, a[0]) {
            Some(r) => {
                assert(seq![r] + (records_of_lines(a.skip(1), (f + 1) as nat) + records_of_lines(
                    b,
                    (f + a.len()) as nat,
                )) =~= (seq![r] + records_of_lines(a.skip(1), (f + 1) as nat)) + records_of_lines(
                    b,
                    (f + a.len()) as nat,
                ));
            },
            None => {},
        }
    }
}

/// Re-parsing the rendered lines of a record list recovers the records,
/// renumbered in order.
proof fn lemma_fmt_lines_records(ps: Seq<PackageView>, w: nat, f: nat)
    requires
        forall|m: int| 0 <= m < ps.len() ==> clean(#[trigger] ps[m]),
        forall|m: int| 0 <= m < ps.len() ==> (#[trigger] ps[m]).name.len() < w,
    ensures
        records_of_lines(ps.map_values(line_fn(w)), f) == renumber(ps, f),
    decreases ps.len(),
{
    let lines = ps.map_values(line_fn(w));
    if ps.len() == 0 {
        assert(lines =~= Seq::<Seq<u8>>::empty());
        assert(records_of_lines(lines, f) =~= Seq::<PackageView>::empty());
        assert(renumber(ps, f) =~= Seq::<PackageView>::empty());
    } else {
        assert(forall|m: int| 0 <= m < ps.skip(1).len() ==> ps.skip(1)[m] == ps[m + 1]);
        lemma_fmt_lines_records(ps.skip(1), w, (f + 1) as nat);
        assert(lines.skip(1) =~= ps.skip(1).map_values(line_fn(w)));
        assert(lines[0] == pkg_line(ps[0], w));
        assert(clean(ps[0]));
        lemma_line_round_trip(ps[0], w, f);
        let r0 = PackageView { line_no: f, name: ps[0].name, tags: ps[0].tags };
        assert(records_of_lines(lines, f) == seq![r0] + records_of_lines(
            lines.skip(1),
            (f + 1) as nat,
        ));
        assert(renumber(ps, f) =~= seq![r0] + renumber(ps.skip(1), (f + 1) as nat));
    }
}

/// A heading contains no newline byte.
proof fn lemma_heading_no_newline(k: BucketKind)
    ensures
        forall|m: int| 0 <= m < heading(k).len() ==> heading(k)[m] != 10,
{
}

/// A rendered record line contains no newline byte.
proof fn lemma_pkg_line_no_newline(p: PackageView, w: nat)
    requires
        p.wf(),
    ensures
        forall|m: int| 0 <= m < pkg_line(p, w).len() ==> pkg_line(p, w)[m] != 10,
{
    assert(forall|i: int, k: int|
        0 <= i < p.tags.len() && 0 <= k < p.tags[i].len() ==> p.tags[i][k] != 10) by {
        assert(forall|i: int|
            0 <= i < p.tags.len() ==> crate::package::wf_tag(#[trigger] p.tags[i]));
    }
    lemma_join_with_absent(p.tags, 32, 10);
    let line = pkg_line(p, w);
    let padded = if p.name.len() >= w {
        p.name
    } else {
        p.name + spaces((w - p.name.len()) as nat)
    };
    let jt = join_with(p.tags, 32);
    assert forall|m: int| 0 <= m < line.len() implies line[m] != 10 by {
        if m < padded.len() {
            assert(line[m] == padded[m]);
            if m < p.name.len() {
                assert(padded[m] == p.name[m]);
            } else {
                assert(padded[m] == 32);
            }
        } else {
            assert(line[m] == jt[m - padded.len()]);
        }
    }
}

/// No line of a rendered manifest contains a newline byte.
proof fn lemma_manifest_lines_no_newline(bs: Seq<BucketView>)
    requires
        forall|u: int, m: int|
            0 <= u < bs.len() && 0 <= m < bs[u].packages.len() ==> (#[trigger] bs[u].packages[m])
                .wf(),
    ensures
        forall|i: int, m: int|
            0 <= i < manifest_lines(bs).len() && 0 <= m < manifest_lines(bs)[i].len()
                ==> manifest_lines(bs)[i][m] != 10,
    decreases bs.len(),
{
    if bs.len() > 0 {
        assert(forall|u: int, m: int|
            0 <= u < bs.skip(1).len() && 0 <= m < bs.skip(1)[u].packages.len() ==> bs.skip(
                1,
            )[u].packages[m] == bs[u + 1].packages[m]);
        lemma_manifest_lines_no_newline(bs.skip(1));
        let b = bs[0];
        let ps = b.packages;
        let w = (max_name_len(ps) + 4) as nat;
        let bl = bucket_lines(b);
        lemma_heading_no_newline(b.kind);
        assert forall|i: int, m: int| 0 <= i < bl.len() && 0 <= m < bl[i].len() implies bl[i][m]
            != 10 by {
            if i == 0 {
                assert(bl[0] == heading(b.kind));
            } else if i <= ps.len() {
                assert(bl[i] == fmt_lines_spec(ps)[i - 1]);
                assert(fmt_lines_spec(ps)[i - 1] == pkg_line(ps[i - 1], w));
                lemma_pkg_line_no_newline(ps[i - 1], w);
            } else {
                assert(bl[i] == Seq::<u8>::empty());
            }
        }
        assert(manifest_lines(bs) == bl + manifest_lines(bs.skip(1)));
        assert forall|i: int, m: int|
            0 <= i < manifest_lines(bs).len() && 0 <= m < manifest_lines(bs)[i].len() implies
            manifest_lines(bs)[i][m] != 10 by {
            if i < bl.len() {
                assert(manifest_lines(bs)[i] == bl[i]);
            } else {
                assert(manifest_lines(bs)[i] == manifest_lines(bs.skip(1))[i - bl.len()]);
            }
        }
    }
}

/// Re-parsing one rendered section recovers its records, renumbered past
/// its heading line.
proof fn lemma_bucket_records(b: BucketView, f: nat)
    requires
        forall|m: int| 0 <= m < b.packages.len() ==> clean(#[trigger] b.packages[m]),
    ensures
        records_of_lines(bucket_lines(b), f) == renumber(b.packages, (f + 1) as nat),
{
    let ps = b.packages;
    let w = (max_name_len(ps) + 4) as nat;
    let fl = fmt_lines_spec(ps);
    let tail = fl + seq![Seq::<u8>::empty()];
    assert(bucket_lines(b) =~= seq![heading(b.kind)] + tail);
    lemma_records_concat(seq![heading(b.kind)], tail, f);
    assert(seq![heading(b.kind)].skip(1) =~= Seq::<Seq<u8>>::empty());
    lemma_heading_no_record(b.kind, f);
    assert(records_of_lines(Seq::<Seq<u8>>::empty(), (f + 1) as nat)
        =~= Seq::<PackageView>::empty());
    assert(records_of_lines(seq![heading(b.kind)], f) =~= Seq::<PackageView>::empty());
    lemma_records_concat(fl, seq![Seq::<u8>::empty()], (f + 1) as nat);
    let g = ((f + 1) + fl.len()) as nat;
    assert(seq![Seq::<u8>::empty()].skip(1) =~= Seq::<Seq<u8>>::empty());
    assert(records_of_lines(Seq::<Seq<u8>>::empty(), (g + 1) as nat)
        =~= Seq::<PackageView>::empty());
    lemma_blank_line_no_record(g);
    assert(records_of_lines(seq![Seq::<u8>::empty()], g) =~= Seq::<PackageView>::empty());
    lemma_max_name_ge(ps);
    lemma_fmt_lines_records(ps, w, (f + 1) as nat);
    assert(records_of_lines(bucket_lines(b), f) =~= renumber(ps, (f + 1) as nat));
}

/// Every record a canonical manifest parses back to: section after section
/// in emission order, each record renumbered to the output line carrying it.
pub open spec fn all_bucket_records(bs: Seq<BucketView>, f: nat) -> Seq<PackageView>
    decreases bs.len(),
{
    if bs.len() == 0 {
        Seq::<PackageView>::empty()
    } else {
        renumber(bs[0].packages, (f + 1) as nat) + all_bucket_records(
            bs.skip(1),
            (f + bucket_lines(bs[0]).len()) as nat,
        )
    }
}

proof fn lemma_manifest_records(bs: Seq<BucketView>, f: nat)
    requires
        forall|u: int, m: int|
            0 <= u < bs.len() && 0 <= m < bs[u].packages.len() ==> clean(
                #[trigger] bs[u].packages[m],
            ),
    ensures
        records_of_lines(manifest_lines(bs), f) == all_bucket_records(bs, f),
    decreases bs.len(),
{
    if bs.len() == 0 {
        assert(records_of_lines(manifest_lines(bs), f) =~= Seq::<PackageView>::empty());
    } else {
        assert(forall|u: int, m: int|
            0 <= u < bs.skip(1).len() && 0 <= m < bs.skip(1)[u].packages.len() ==> bs.skip(
                1,
            )[u].packages[m] == bs[u + 1].packages[m]);
        let bl = bucket_lines(bs[0]);
        lemma_records_concat(bl, manifest_lines(bs.skip(1)), f);
        lemma_bucket_records(bs[0], f);
        lemma_manifest_records(bs.skip(1), (f + bl.len()) as nat);
        assert(manifest_lines(bs) == bl + manifest_lines(bs.skip(1)));
    }
}

/// Re-parsing a canonical manifest text yields exactly its records: the
/// headings and blank lines contribute nothing, and each section's records
/// come back unchanged but for their new line numbers.
pub proof fn lemma_canonical_records(bs: Seq<BucketView>)
    requires
        bs.len() >= 1,
        forall|u: int, m: int|
            0 <= u < bs.len() && 0 <= m < bs[u].packages.len() ==> clean(
                #[trigger] bs[u].packages[m],
            ),
    ensures
        records_of(fmt_spec(bs)) == all_bucket_records(bs, 0),
{
    assert(forall|u: int, m: int|
        0 <= u < bs.len() && 0 <= m < bs[u].packages.len() ==> (#[trigger] bs[u].packages[m])
            .wf());
    lemma_manifest_lines_no_newline(bs);
    assert(manifest_lines(bs) == bucket_lines(bs[0]) + manifest_lines(bs.skip(1)));
    assert(manifest_lines(bs).len() >= 1);
    lemma_split_on_join(manifest_lines(bs), 10);
    lemma_manifest_records(bs, 0);
}

/// The same records with the line numbers forgotten: what formatting reads.
spec fn content_of(s: Seq<PackageView>) -> Seq<PackageView> {
    s.map_values(|p: PackageView| PackageView { line_no: 0, name: p.name, tags: p.tags })
}

/// Each element's count in a filtered sequence.
proof fn lemma_filter_multiset<A>(s: Seq<A>, p: spec_fn(A) -> bool, x: A)
    ensures
        s.filter(p).to_multiset().count(x) == if p(x) {
            s.to_multiset().count(x)
        } else {
            0
        },
    decreases s.len(),
{
    broadcast use vstd::seq_lib::group_to_multiset_ensures;
    broadcast use vstd::multiset::group_multiset_axioms;

    if s.len() == 0 {
        assert(s.filter(p) =~= Seq::<A>::empty());
        assert(!s.contains(x));
        assert(s.to_multiset().count(x) == 0);
        assert(s.filter(p).to_multiset().count(x) == 0);
    } else {
        let d = s.drop_last();
        lemma_filter_multiset(d, p, x);
        d.lemma_filter_push(s.last(), p);
        assert(d.push(s.last()) =~= s);
        assert(s.to_multiset() == d.push(s.last()).to_multiset());
        assert(d.push(s.last()).to_multiset() =~= d.to_multiset().insert(s.last()));
        if p(s.last()) {
            assert(s.filter(p) == d.filter(p).push(s.last()));
            assert(d.filter(p).push(s.last()).to_multiset() =~= d.filter(p).to_multiset().insert(
                s.last(),
            ));
        }
    }
}

/// Filtering two rearrangements of the same records keeps rearrangements.
proof fn lemma_filter_multiset_eq<A>(a: Seq<A>, b: Seq<A>, p: spec_fn(A) -> bool)
    requires
        a.to_multiset() == b.to_multiset(),
    ensures
        a.filter(p).to_multiset() == b.filter(p).to_multiset(),
{
    broadcast use vstd::multiset::group_multiset_axioms;

    assert forall|x: A|
        a.filter(p).to_multiset().count(x) == b.filter(p).to_multiset().count(x) by {
        lemma_filter_multiset(a, p, x);
        lemma_filter_multiset(b, p, x);
    }
    assert(a.filter(p).to_multiset() =~= b.filter(p).to_multiset());
}

/// A filtered subsequence of a sorted sequence is sorted.
proof fn lemma_filter_sorted<A>(s: Seq<A>, p: spec_fn(A) -> bool, r: spec_fn(A, A) -> bool)
    requires
        sorted_by(s, r),
    ensures
        sorted_by(s.filter(p), r),
    decreases s.len(),
{
    if s.len() == 0 {
        assert(s.filter(p) =~= Seq::<A>::empty());
    } else {
        let d = s.drop_last();
        assert(forall|i: int| 0 <= i < d.len() ==> d[i] == s[i]);
        assert(sorted_by(d, r));
        lemma_filter_sorted(d, p, r);
        d.lemma_filter_push(s.last(), p);
        assert(d.push(s.last()) =~= s);
        if p(s.last()) {
            let fd = d.filter(p);
            let whole = fd.push(s.last());
            assert(s.filter(p) == whole);
            assert forall|i: int, j: int| 0 <= i < j < whole.len() implies #[trigger] r(
                whole[i],
                whole[j],
            ) by {
                if j < fd.len() {
                    assert(r(fd[i], fd[j]));
                } else {
                    assert(fd.contains(fd[i]));
                    d.lemma_filter_contains_rev(p, fd[i]);
                    let idx = choose|idx: int| 0 <= idx < d.len() && d[idx] == fd[i];
                    assert(r(s[idx], s[s.len() - 1]));
                }
            }
        }
    }
}

/// Two records each way round the record order share a name and a line.
proof fn lemma_pkg_leq_antisym(a: PackageView, b: PackageView)
    requires
        pkg_leq(a, b),
        pkg_leq(b, a),
    ensures
        a.name == b.name,
        a.line_no == b.line_no,
{
    if lex_lt(a.name, b.name) {
        if lex_lt(b.name, a.name) {
            lemma_lex_lt_asym(a.name, b.name);
        } else {
            lemma_lex_lt_irrefl(a.name);
        }
    } else if lex_lt(b.name, a.name) {
        lemma_lex_lt_irrefl(b.name);
    }
}

/// Two sorted rearrangements of records with pairwise distinct line numbers
/// are the same sequence.
proof fn lemma_pkg_sorted_unique(x: Seq<PackageView>, y: Seq<PackageView>)
    requires
        sorted_by(x, pkg_order()),
        sorted_by(y, pkg_order()),
        x.to_multiset() == y.to_multiset(),
        forall|i: int, j: int| 0 <= i < j < x.len() ==> x[i].line_no != x[j].line_no,
    ensures
        x == y,
    decreases x.len(),
{
    broadcast use vstd::seq_lib::group_to_multiset_ensures;
    broadcast use vstd::multiset::group_multiset_axioms;

    x.to_multiset_ensures();
    y.to_multiset_ensures();
    assert(x.len() == y.len());
    if x.len() == 0 {
        assert(x =~= y);
    } else {
        let x0 = x[0];
        let y0 = y[0];
        assert(x.contains(x0));
        assert(y.to_multiset().count(x0) > 0);
        assert(y.contains(x0));
        let jy = choose|jy: int| 0 <= jy < y.len() && y[jy] == x0;
        assert(y.contains(y0));
        assert(x.to_multiset().count(y0) > 0);
        assert(x.contains(y0));
        let ix = choose|ix: int| 0 <= ix < x.len() && x[ix] == y0;
        if ix == 0 {
            assert(x0 == y0);
        } else if jy == 0 {
            assert(x0 == y0);
        } else {
            assert(pkg_order()(x[0], x[ix]));
            assert(pkg_order()(y[0], y[jy]));
            lemma_pkg_leq_antisym(x0, y0);
            assert(x[0].line_no == x[ix].line_no);
            assert(false);
        }
        let xd = x.drop_first();
        let yd = y.drop_first();
        assert(x.remove(0) =~= xd);
        assert(y.remove(0) =~= yd);
        assert(xd.to_multiset() =~= x.to_multiset().remove(x0));
        assert(yd.to_multiset() =~= y.to_multiset().remove(y0));
        assert(forall|i: int| 0 <= i < xd.len() ==> xd[i] == x[i + 1]);
        assert(forall|i: int| 0 <= i < yd.len() ==> yd[i] == y[i + 1]);
        lemma_pkg_sorted_unique(xd, yd);
        assert(x0 == y0);
        assert(xd == yd);
        assert forall|i: int| 0 <= i < x.len() implies x[i] == y[i] by {
            if i > 0 {
                assert(x[i] == xd[i - 1]);
                assert(y[i] == yd[i - 1]);
            }
        }
        assert(x =~= y);
    }
}

/// Renumbering a sorted record list keeps it sorted, and its line numbers
/// are pairwise distinct.
proof fn lemma_renumber_sorted(q: Seq<PackageView>, g: nat)
    requires
        sorted_by(q, pkg_order()),
    ensures
        sorted_by(renumber(q, g), pkg_order()),
        forall|i: int, j: int|
            0 <= i < j < renumber(q, g).len() ==> renumber(q, g)[i].line_no != renumber(
                q,
                g,
            )[j].line_no,
{
    let rq = renumber(q, g);
    assert forall|i: int, j: int| 0 <= i < j < rq.len() implies #[trigger] pkg_order()(
        rq[i],
        rq[j],
    ) && rq[i].line_no != rq[j].line_no by {
        assert(pkg_order()(q[i], q[j]));
    }
}

/// No section at all comes of an empty record list.
proof fn lemma_buckets_for_empty(ks: Seq<BucketKind>)
    ensures
        buckets_for(ks, Seq::<PackageView>::empty()) == Seq::<BucketView>::empty(),
    decreases ks.len(),
{
    broadcast use vstd::seq_lib::group_filter_ensures;

    if ks.len() > 0 {
        lemma_buckets_for_empty(ks.skip(1));
        assert(Seq::<PackageView>::empty().filter(bucket_pred(ks[0])).len() == 0);
    }
}

/// Filtering the re-parsed records of a classification by one section's
/// membership gives back exactly that section's records, renumbered; a kind
/// outside the considered list contributes nothing.
proof fn lemma_abr_refilter(
    ks: Seq<BucketKind>,
    s: Seq<PackageView>,
    f: nat,
    k: BucketKind,
) -> (g: nat)
    requires
        forall|i: int, j: int| 0 <= i < j < ks.len() ==> ks[i] != ks[j],
    ensures
        ks.contains(k) ==> all_bucket_records(buckets_for(ks, s), f).filter(bucket_pred(k))
            == renumber(s.filter(bucket_pred(k)), g),
        !ks.contains(k) ==> all_bucket_records(buckets_for(ks, s), f).filter(bucket_pred(k))
            == Seq::<PackageView>::empty(),
    decreases ks.len(),
{
    broadcast use vstd::seq_lib::group_filter_ensures;
    broadcast use vstd::prelude::Seq::filter_distributes_over_add;

    if ks.len() == 0 {
        assert(buckets_for(ks, s) =~= Seq::<BucketView>::empty());
        assert(all_bucket_records(Seq::<BucketView>::empty(), f) =~= Seq::<PackageView>::empty());
        assert(Seq::<PackageView>::empty().filter(bucket_pred(k)) =~= Seq::<PackageView>::empty());
        assert(!ks.contains(k));
        0
    } else {
        let k0 = ks[0];
        let fa = s.filter(bucket_pred(k0));
        assert(forall|i: int| 0 <= i < ks.skip(1).len() ==> ks.skip(1)[i] == ks[i + 1]);
        if fa.len() == 0 {
            assert(buckets_for(ks, s) == buckets_for(ks.skip(1), s));
            let g = lemma_abr_refilter(ks.skip(1), s, f, k);
            if k == k0 {
                assert(!ks.skip(1).contains(k)) by {
                    if ks.skip(1).contains(k) {
                        let w = choose|w: int|
                            0 <= w < ks.skip(1).len() && ks.skip(1)[w] == k;
                        assert(ks[w + 1] == ks[0]);
                    }
                }
                assert(renumber(fa, g) =~= Seq::<PackageView>::empty());
                assert(ks.contains(k));
            } else {
                if ks.contains(k) {
                    let w = choose|w: int| 0 <= w < ks.len() && ks[w] == k;
                    assert(ks.skip(1)[w - 1] == k);
                    assert(ks.skip(1).contains(k));
                } else {
                    assert(!ks.skip(1).contains(k)) by {
                        if ks.skip(1).contains(k) {
                            let w = choose|w: int|
                                0 <= w < ks.skip(1).len() && ks.skip(1)[w] == k;
                            assert(ks[w + 1] == k);
                        }
                    }
                }
            }
            g
        } else {
            let bv = BucketView { kind: k0, packages: fa };
            let bks = buckets_for(ks, s);
            assert(bks == seq![bv] + buckets_for(ks.skip(1), s));
            assert(bks[0] == bv);
            assert(bks.skip(1) =~= buckets_for(ks.skip(1), s));
            let f2 = (f + bucket_lines(bv).len()) as nat;
            let rn = renumber(fa, (f + 1) as nat);
            let rest = all_bucket_records(buckets_for(ks.skip(1), s), f2);
            assert(all_bucket_records(bks, f) == rn + rest);
            let g2 = lemma_abr_refilter(ks.skip(1), s, f2, k);
            assert(all_bucket_records(bks, f).filter(bucket_pred(k)) == rn.filter(bucket_pred(k))
                + rest.filter(bucket_pred(k)));
            assert forall|m: int| 0 <= m < rn.len() implies in_bucket(k0, #[trigger] rn[m]) by {
                assert(bucket_pred(k0)(fa[m]));
                assert(rn[m].tags == fa[m].tags);
            }
            if k == k0 {
                assert(ks.contains(k));
                assert(!ks.skip(1).contains(k)) by {
                    if ks.skip(1).contains(k) {
                        let w = choose|w: int| 0 <= w < ks.skip(1).len() && ks.skip(1)[w] == k;
                        assert(ks[w + 1] == ks[0]);
                    }
                }
                assert(forall|m: int| 0 <= m < rn.len() ==> bucket_pred(k)(#[trigger] rn[m]));
                lemma_filter_all_true(rn, bucket_pred(k));
                assert(rest.filter(bucket_pred(k)) == Seq::<PackageView>::empty());
                assert(rn + Seq::<PackageView>::empty() =~= rn);
                (f + 1) as nat
            } else {
                assert forall|m: int| 0 <= m < rn.len() implies !bucket_pred(k)(
                    #[trigger] rn[m],
                ) by {
                    assert(in_bucket(k0, rn[m]));
                    crate::classify::lemma_classify_partition(rn[m]);
                }
                lemma_filter_all_false(rn, bucket_pred(k));
                assert(Seq::<PackageView>::empty() + rest.filter(bucket_pred(k)) =~= rest.filter(
                    bucket_pred(k),
                ));
                if ks.contains(k) {
                    let w = choose|w: int| 0 <= w < ks.len() && ks[w] == k;
                    assert(ks.skip(1)[w - 1] == k);
                    assert(ks.skip(1).contains(k));
                } else {
                    assert(!ks.skip(1).contains(k)) by {
                        if ks.skip(1).contains(k) {
                            let w = choose|w: int|
                                0 <= w < ks.skip(1).len() && ks.skip(1)[w] == k;
                            assert(ks[w + 1] == k);
                        }
                    }
                }
                g2
            }
        }
    }
}

/// Sections with the same names in the same order share a column width.
proof fn lemma_max_name_content(a: Seq<PackageView>, b: Seq<PackageView>)
    requires
        a.len() == b.len(),
        forall|i: int| 0 <= i < a.len() ==> (#[trigger] a[i]).name == b[i].name,
    ensures
        max_name_len(a) == max_name_len(b),
    decreases a.len(),
{
    if a.len() > 0 {
        assert(forall|i: int| 0 <= i < a.len() - 1 ==> a.drop_last()[i] == a[i]);
        assert(forall|i: int| 0 <= i < b.len() - 1 ==> b.drop_last()[i] == b[i]);
        lemma_max_name_content(a.drop_last(), b.drop_last());
        assert(a.last().name == b.last().name);
    }
}

/// Sections with the same names and tags render the same lines.
proof fn lemma_fmt_lines_content(a: Seq<PackageView>, b: Seq<PackageView>)
    requires
        content_of(a) == content_of(b),
    ensures
        fmt_lines_spec(a) == fmt_lines_spec(b),
{
    assert(a.len() == content_of(a).len());
    assert(b.len() == content_of(b).len());
    assert(a.len() == b.len());
    assert forall|i: int| 0 <= i < a.len() implies (#[trigger] a[i]).name == b[i].name && a[i].tags
        == b[i].tags by {
        assert(content_of(a)[i] == content_of(b)[i]);
        assert(content_of(a)[i] == PackageView { line_no: 0, name: a[i].name, tags: a[i].tags });
        assert(content_of(b)[i] == PackageView { line_no: 0, name: b[i].name, tags: b[i].tags });
    }
    lemma_max_name_content(a, b);
    assert(fmt_lines_spec(a) =~= fmt_lines_spec(b));
}

/// Two record lists that agree, section by section, on names and tags
/// render the same manifest lines.
proof fn lemma_classify_fmt_eq(ks: Seq<BucketKind>, a: Seq<PackageView>, b: Seq<PackageView>)
    requires
        forall|k: BucketKind|
            content_of(a.filter(#[trigger] bucket_pred(k))) == content_of(b.filter(
                bucket_pred(k),
            )),
    ensures
        manifest_lines(buckets_for(ks, a)) == manifest_lines(buckets_for(ks, b)),
    decreases ks.len(),
{
    if ks.len() == 0 {
        assert(buckets_for(ks, a) =~= Seq::<BucketView>::empty());
        assert(buckets_for(ks, b) =~= Seq::<BucketView>::empty());
    } else {
        let k0 = ks[0];
        let fa = a.filter(bucket_pred(k0));
        let fb = b.filter(bucket_pred(k0));
        assert(content_of(fa) == content_of(fb));
        assert(fa.len() == content_of(fa).len());
        assert(fa.len() == fb.len());
        lemma_classify_fmt_eq(ks.skip(1), a, b);
        if fa.len() > 0 {
            let bva = BucketView { kind: k0, packages: fa };
            let bvb = BucketView { kind: k0, packages: fb };
            assert(buckets_for(ks, a) == seq![bva] + buckets_for(ks.skip(1), a));
            assert(buckets_for(ks, b) == seq![bvb] + buckets_for(ks.skip(1), b));
            assert((seq![bva] + buckets_for(ks.skip(1), a))[0] == bva);
            assert((seq![bvb] + buckets_for(ks.skip(1), b))[0] == bvb);
            assert((seq![bva] + buckets_for(ks.skip(1), a)).skip(1) =~= buckets_for(
                ks.skip(1),
                a,
            ));
            assert((seq![bvb] + buckets_for(ks.skip(1), b)).skip(1) =~= buckets_for(
                ks.skip(1),
                b,
            ));
            lemma_fmt_lines_content(fa, fb);
            assert(bucket_lines(bva) == bucket_lines(bvb));
        }
    }
}

/// Formatting is idempotent. `r1` is any record list the parser can
/// produce — every record well formed, sorted, and (when it carries tags)
/// not ending in an exotic whitespace byte — and `r2` is what parsing the
/// canonical text rendered from `r1` yields: a sorted rearrangement of that
/// text's records. Then formatting `r2` reproduces the text byte for byte.
pub proof fn lemma_format_idempotent(r1: Seq<PackageView>, r2: Seq<PackageView>)
    requires
        forall|m: int| 0 <= m < r1.len() ==> (#[trigger] r1[m]).wf(),
        forall|m: int|
            0 <= m < r1.len() ==> ((#[trigger] r1[m]).tags.len() >= 1 ==> clean(r1[m])),
        sorted_by(r1, pkg_order()),
        sorted_by(r2, pkg_order()),
        r2.to_multiset() == records_of(fmt_spec(classify_spec(r1))).to_multiset(),
    ensures
        fmt_spec(classify_spec(r2)) == fmt_spec(classify_spec(r1)),
{
    broadcast use vstd::seq_lib::group_to_multiset_ensures;
    broadcast use vstd::multiset::group_multiset_axioms;

    let bs = classify_spec(r1);
    if bs.len() == 0 {
        assert(bs =~= Seq::<BucketView>::empty());
        assert(manifest_lines(bs) =~= Seq::<Seq<u8>>::empty());
        assert(fmt_spec(bs) == Seq::<u8>::empty());
        assert(split_on(Seq::<u8>::empty(), 10) =~= seq![Seq::<u8>::empty()]);
        lemma_blank_line_no_record(0);
        assert(seq![Seq::<u8>::empty()].skip(1) =~= Seq::<Seq<u8>>::empty());
        assert(records_of_lines(Seq::<Seq<u8>>::empty(), 1) =~= Seq::<PackageView>::empty());
        assert(records_of(Seq::<u8>::empty()) =~= Seq::<PackageView>::empty());
        r2.to_multiset_ensures();
        Seq::<PackageView>::empty().to_multiset_ensures();
        assert(r2.len() == 0);
        assert(r2 =~= Seq::<PackageView>::empty());
        lemma_buckets_for_empty(kind_order());
        assert(classify_spec(r2) == bs);
    } else {
        assert forall|u: int, m: int|
            0 <= u < bs.len() && 0 <= m < bs[u].packages.len() implies clean(
            #[trigger] bs[u].packages[m],
        ) by {
            assert(bs.contains(bs[u]));
            crate::classify::lemma_classify_buckets(r1, bs[u]);
            let p = bs[u].packages[m];
            assert(bs[u].packages.contains(p));
            assert(in_bucket(bs[u].kind, p) && r1.contains(p));
            let w = choose|w: int| 0 <= w < r1.len() && r1[w] == p;
            assert(r1[w].wf());
            assert(p.tags.len() >= 1);
        }
        lemma_canonical_records(bs);
        let rr = all_bucket_records(bs, 0);
        assert forall|k: BucketKind|
            content_of(r2.filter(#[trigger] bucket_pred(k))) == content_of(r1.filter(
                bucket_pred(k),
            )) by {
            assert(kind_order().contains(k)) by {
                match k {
                    BucketKind::Common => assert(kind_order()[0] == k),
                    BucketKind::Alpine => assert(kind_order()[1] == k),
                    BucketKind::Ubuntu => assert(kind_order()[2] == k),
                    BucketKind::Brew => assert(kind_order()[3] == k),
                    BucketKind::Cargo => assert(kind_order()[4] == k),
                    BucketKind::Pip => assert(kind_order()[5] == k),
                }
            }
            let g = lemma_abr_refilter(kind_order(), r1, 0, k);
            let q = r1.filter(bucket_pred(k));
            assert(rr.filter(bucket_pred(k)) == renumber(q, g));
            lemma_filter_multiset_eq(r2, rr, bucket_pred(k));
            lemma_filter_sorted(r2, bucket_pred(k), pkg_order());
            lemma_filter_sorted(r1, bucket_pred(k), pkg_order());
            lemma_renumber_sorted(q, g);
            lemma_pkg_sorted_unique(renumber(q, g), r2.filter(bucket_pred(k)));
            assert(content_of(renumber(q, g)) =~= content_of(q));
        }
        lemma_classify_fmt_eq(kind_order(), r2, r1);
    }
}

} // verus!
