//! The manifest parser: text to an ordered collection of package records.

use crate::bytes::{
    byte_leq, copy_bytes, is_space, lemma_lex_leq_total_ordering, lemma_split_on_first,
    lemma_split_on_len, lemma_split_on_pieces_keep, lemma_split_on_pieces_no_sep,
    lemma_trim_back_struct, lemma_trim_front_struct, split_bytes, split_on, trim, trim_bytes,
};
use crate::package::{
    insert_pkg_sorted, pkg_order, pkg_views, sort_tags, views_of, Package, PackageView,
};
use vstd::multiset::Multiset;
use vstd::prelude::*;
use vstd::relations::sorted_by;
use vstd::seq_lib::lemma_sorted_unique;

verus! {

/// Is this token a tag: non-empty and `#`-prefixed?
pub open spec fn is_tag_token(t: Seq<u8>) -> bool {
    t.len() > 0 && t[0] == 35
}

/// `is_tag_token` as a first-class predicate.
pub open spec fn tag_pred() -> spec_fn(Seq<u8>) -> bool {
    |t: Seq<u8>| is_tag_token(t)
}

/// The record a single manifest line yields: `None` for a line that is blank
/// or a comment after trimming. Otherwise the first whitespace-separated
/// token is the name, every further `#`-prefixed token a tag, and the tags
/// are sorted.
pub open spec fn line_record(n: nat, line: Seq<u8>) -> Option<PackageView> {
    let t = trim(line);
    if t.len() == 0 || t[0] == 35 {
        None
    } else {
        let toks = split_on(t, 32);
        Some(
            PackageView {
                line_no: n,
                name: toks[0],
                tags: toks.skip(1).filter(tag_pred()).sort_by(byte_leq()),
            },
        )
    }
}

/// The records of consecutive lines, the first line carrying number `first`.
pub open spec fn records_of_lines(lines: Seq<Seq<u8>>, first: nat) -> Seq<PackageView>
    decreases lines.len(),
{
    if lines.len() == 0 {
        Seq::<PackageView>::empty()
    } else {
        let rest = records_of_lines(lines.skip(1), (first + 1) as nat);
        match line_record(first, lines[0]) {
            Some(r) => seq![r] + rest,
            None => rest,
        }
    }
}

/// Every record the manifest text describes, in source-line order.
pub open spec fn records_of(text: Seq<u8>) -> Seq<PackageView> {
    records_of_lines(split_on(text, 10), 0)
}

pub proof fn lemma_records_of_lines_push(ls: Seq<Seq<u8>>, l: Seq<u8>, first: nat)
    ensures
        records_of_lines(ls.push(l), first) == records_of_lines(ls, first) + (match line_record(
            (first + ls.len()) as nat,
            l,
        ) {
            Some(r) => seq![r],
            None => Seq::<PackageView>::empty(),
        }),
    decreases ls.len(),
{
    if ls.len() == 0 {
        assert(ls.push(l)[0] == l);
        assert(ls.push(l).skip(1) =~= Seq::<Seq<u8>>::empty());
        assert(records_of_lines(Seq::<Seq<u8>>::empty(), (first + 1) as nat)
            =~= Seq::<PackageView>::empty());
        assert(records_of_lines(ls, first) =~= Seq::<PackageView>::empty());
        match line_record(first, l) {
            Some(r) => {
                assert(records_of_lines(ls.push(l), first) =~= records_of_lines(ls, first)
                    + seq![r]);
            },
            None => {
                assert(records_of_lines(ls.push(l), first) =~= records_of_lines(ls, first)
                    + Seq::<PackageView>::empty());
            },
        }
    } else {
        lemma_records_of_lines_push(ls.skip(1), l, (first + 1) as nat);
        assert(ls.push(l).skip(1) =~= ls.skip(1).push(l));
        assert(ls.push(l)[0] == ls[0]);
        let tail = match line_record((first + ls.len()) as nat, l) {
            Some(r) => seq![r],
            None => Seq::<PackageView>::empty(),
        };
        match line_record(first, ls[0]) {
            Some(r0) => {
                assert(seq![r0] + (records_of_lines(ls.skip(1), (first + 1) as nat) + tail) =~= (
                seq![r0] + records_of_lines(ls.skip(1), (first + 1) as nat)) + tail);
            },
            None => {},
        }
    }
}

/// Whatever line it is read from, a record the parser yields is well formed.
pub proof fn lemma_line_record_wf(n: nat, line: Seq<u8>)
    requires
        forall|i: int| 0 <= i < line.len() ==> line[i] != 10,
    ensures
        line_record(n, line) matches Some(r) ==> r.wf(),
{
    let t = trim(line);
    if t.len() == 0 || t[0] == 35 {
    } else {
        let f = crate::bytes::trim_front(line);
        lemma_trim_front_struct(line);
        lemma_trim_back_struct(f);
        assert(forall|i: int| 0 <= i < f.len() ==> f[i] == line[i + (line.len() - f.len())]);
        assert(forall|i: int| 0 <= i < t.len() ==> t[i] == f[i]);
        assert(t.len() > 0 && !is_space(t[0]));
        assert(forall|i: int| 0 <= i < t.len() ==> t[i] != 10);
        let toks = split_on(t, 32);
        lemma_split_on_len(t, 32);
        lemma_split_on_first(t, 32);
        lemma_split_on_pieces_no_sep(t, 32);
        lemma_split_on_pieces_keep(t, 32, 10);
        let name = toks[0];
        assert(name.len() > 0 && name[0] == t[0]);
        assert(forall|i: int| 0 <= i < name.len() ==> name[i] != 32 && name[i] != 10);
        let raw = toks.skip(1).filter(tag_pred());
        lemma_lex_leq_total_ordering();
        raw.lemma_sort_by_ensures(byte_leq());
        let tags = raw.sort_by(byte_leq());
        assert forall|i: int| 0 <= i < tags.len() implies crate::package::wf_tag(
            #[trigger] tags[i],
        ) by {
            raw.to_multiset_ensures();
            tags.to_multiset_ensures();
            assert(tags.contains(tags[i]));
            assert(tags.to_multiset().count(tags[i]) > 0);
            assert(raw.contains(tags[i]));
            let j = choose|j: int| 0 <= j < raw.len() && raw[j] == tags[i];
            toks.skip(1).lemma_filter_pred(tag_pred(), j);
            assert(tag_pred()(tags[i]));
            toks.skip(1).lemma_filter_contains_rev(tag_pred(), tags[i]);
            let k = choose|k: int| 0 <= k < toks.skip(1).len() && toks.skip(1)[k] == tags[i];
            assert(toks.skip(1)[k] == toks[k + 1]);
            assert forall|m: int| 0 <= m < tags[i].len() implies tags[i][m] != 32 && tags[i][m]
                != 10 by {
                assert(toks[k + 1][m] != 32);
                assert(toks[k + 1][m] != 10);
            }
        }
    }
}

/// Every record of a newline-free line list is well formed.
pub proof fn lemma_records_of_lines_wf(lines: Seq<Seq<u8>>, first: nat)
    requires
        forall|i: int, k: int|
            0 <= i < lines.len() && 0 <= k < lines[i].len() ==> lines[i][k] != 10,
    ensures
        forall|j: int|
            0 <= j < records_of_lines(lines, first).len() ==> (#[trigger] records_of_lines(
                lines,
                first,
            )[j]).wf(),
    decreases lines.len(),
{
    if lines.len() > 0 {
        assert(forall|i: int, k: int|
            0 <= i < lines.skip(1).len() && 0 <= k < lines.skip(1)[i].len() ==> lines.skip(
                1,
            )[i][k] == lines[i + 1][k]);
        lemma_records_of_lines_wf(lines.skip(1), (first + 1) as nat);
        lemma_line_record_wf(first, lines[0]);
        let rest = records_of_lines(lines.skip(1), (first + 1) as nat);
        match line_record(first, lines[0]) {
            Some(r) => {
                assert(forall|j: int|
                    0 <= j < records_of_lines(lines, first).len() ==> records_of_lines(
                        lines,
                        first,
                    )[j] == if j == 0 {
                        r
                    } else {
                        rest[j - 1]
                    });
            },
            None => {},
        }
    }
}

/// Every record of any manifest text is well formed: sorted tags, a name
/// with no surrounding whitespace.
pub proof fn lemma_records_of_wf(text: Seq<u8>)
    ensures
        forall|j: int|
            0 <= j < records_of(text).len() ==> (#[trigger] records_of(text)[j]).wf(),
{
    lemma_split_on_pieces_no_sep(text, 10);
    lemma_records_of_lines_wf(split_on(text, 10), 0);
}

proof fn lemma_records_of_lines_ascending(lines: Seq<Seq<u8>>, first: nat)
    ensures
        forall|i: int|
            0 <= i < records_of_lines(lines, first).len() ==> first <= (
            #[trigger] records_of_lines(lines, first)[i]).line_no < first + lines.len(),
        forall|i: int, j: int|
            0 <= i < j < records_of_lines(lines, first).len() ==> records_of_lines(
                lines,
                first,
            )[i].line_no < records_of_lines(lines, first)[j].line_no,
    decreases lines.len(),
{
    if lines.len() > 0 {
        lemma_records_of_lines_ascending(lines.skip(1), (first + 1) as nat);
        let rest = records_of_lines(lines.skip(1), (first + 1) as nat);
        match line_record(first, lines[0]) {
            Some(r) => {
                assert(forall|i: int|
                    0 <= i < records_of_lines(lines, first).len() ==> records_of_lines(
                        lines,
                        first,
                    )[i] == if i == 0 {
                        r
                    } else {
                        rest[i - 1]
                    });
            },
            None => {},
        }
    }
}

/// Line numbers strictly ascend through the records of any manifest text:
/// no two records share a line.
pub proof fn lemma_records_of_distinct_lines(text: Seq<u8>)
    ensures
        forall|i: int, j: int|
            0 <= i < j < records_of(text).len() ==> records_of(text)[i].line_no < records_of(
                text,
            )[j].line_no,
{
    lemma_records_of_lines_ascending(split_on(text, 10), 0);
}

/// Parses one manifest line.
fn parse_line(line: &Vec<u8>, n: usize) -> (r: Option<Package>)
    ensures
        match r {
            Some(p) => line_record(n as nat, line@) == Some(p@),
            None => line_record(n as nat, line@) is None,
        },
{
    let t = trim_bytes(line);
    if t.len() == 0 {
        return None;
    }
    if t[0] == 35 {
        return None;
    }
    let toks = split_bytes(&t, 32);
    proof {
        lemma_split_on_len(t@, 32);
        assert(views_of(toks@) == split_on(t@, 32));
        assert(toks@.len() == split_on(t@, 32).len());
    }
    let name = copy_bytes(&toks[0]);
    let mut raw: Vec<Vec<u8>> = Vec::new();
    let mut i: usize = 1;
    proof {
        assert(views_of(raw@) =~= views_of(toks@).skip(1).take(0).filter(tag_pred()));
    }
    while i < toks.len()
        invariant
            1 <= i <= toks.len(),
            views_of(raw@) == views_of(toks@).skip(1).take(i - 1).filter(tag_pred()),
        decreases toks.len() - i,
    {
        let tok = &toks[i];
        let keep = tok.len() > 0 && tok[0] == 35;
        let ghost pre = views_of(toks@).skip(1).take(i - 1);
        proof {
            assert(views_of(toks@).skip(1).take(i as int) =~= pre.push(toks@[i as int]@));
            pre.lemma_filter_push(toks@[i as int]@, tag_pred());
            assert(keep == tag_pred()(toks@[i as int]@));
        }
        if keep {
            let c = copy_bytes(tok);
            let ghost rpre = raw@;
            raw.push(c);
            proof {
                assert(views_of(raw@) =~= views_of(rpre).push(c@));
            }
        }
        i += 1;
    }
    proof {
        assert(views_of(toks@).skip(1).take(views_of(toks@).skip(1).len() as int) =~= views_of(
            toks@,
        ).skip(1));
        assert(views_of(raw@) == views_of(toks@).skip(1).filter(tag_pred()));
    }
    let tags = sort_tags(&raw);
    proof {
        lemma_lex_leq_total_ordering();
        let spec_raw = split_on(t@, 32).skip(1).filter(tag_pred());
        spec_raw.lemma_sort_by_ensures(byte_leq());
        lemma_sorted_unique(views_of(tags@), spec_raw.sort_by(byte_leq()), byte_leq());
    }
    let p = Package { line_no: n as u64, name, tags };
    proof {
        assert(p@.line_no == n as nat);
        assert(p@.name == split_on(trim(line@), 32)[0]);
        assert(line_record(n as nat, line@) == Some(p@));
    }
    Some(p)
}

/// Parses the manifest text into records: one per surviving line, sorted by
/// name (ties by source line), each record's tags sorted, every record well
/// formed. The result is a sorted rearrangement of exactly the records the
/// text describes.
pub fn get_packages(kurfile: &Vec<u8>) -> (r: Vec<Package>)
    ensures
        sorted_by(pkg_views(r@), pkg_order()),
        pkg_views(r@).to_multiset() == records_of(kurfile@).to_multiset(),
        forall|k: int| 0 <= k < r@.len() ==> (#[trigger] pkg_views(r@)[k]).wf(),
        forall|i: int, j: int|
            0 <= i < j < r@.len() ==> pkg_views(r@)[i].line_no != pkg_views(r@)[j].line_no,
{
    broadcast use vstd::multiset::group_multiset_axioms;

    let lines = split_bytes(kurfile, 10);
    let ghost lvs = views_of(lines@);
    let mut out: Vec<Package> = Vec::new();
    let mut n: usize = 0;
    proof {
        assert(pkg_views(out@) =~= Seq::<PackageView>::empty());
        assert(lvs.take(0) =~= Seq::<Seq<u8>>::empty());
        Seq::<PackageView>::empty().to_multiset_ensures();
        records_of_lines(lvs.take(0), 0).to_multiset_ensures();
        assert(pkg_views(out@).to_multiset() =~= records_of_lines(lvs.take(0), 0).to_multiset());
    }
    while n < lines.len()
        invariant
            n <= lines.len(),
            lvs == views_of(lines@),
            lines@.len() == lvs.len(),
            sorted_by(pkg_views(out@), pkg_order()),
            pkg_views(out@).to_multiset() == records_of_lines(lvs.take(n as int), 0).to_multiset(),
        decreases lines.len() - n,
    {
        let parsed = parse_line(&lines[n], n);
        proof {
            assert(lvs.take(n + 1) =~= lvs.take(n as int).push(lvs[n as int]));
            lemma_records_of_lines_push(lvs.take(n as int), lvs[n as int], 0);
            assert(lvs.take(n as int).len() == n);
            assert(lines@[n as int]@ == lvs[n as int]);
        }
        let ghost old_recs = records_of_lines(lvs.take(n as int), 0);
        let ghost new_recs = records_of_lines(lvs.take(n + 1), 0);
        match parsed {
            Some(p) => {
                proof {
                    let ghost rv = p@;
                    assert(new_recs == old_recs + seq![rv]);
                    vstd::seq_lib::lemma_multiset_commutative(old_recs, seq![rv]);
                    Seq::<PackageView>::empty().to_multiset_ensures();
                    assert(seq![rv] =~= Seq::<PackageView>::empty().push(rv));
                    assert(seq![rv].to_multiset() =~= Multiset::<PackageView>::empty().insert(rv));
                    assert(new_recs.to_multiset() =~= old_recs.to_multiset().insert(rv));
                }
                insert_pkg_sorted(&mut out, p);
            },
            None => {
                proof {
                    assert(new_recs == old_recs + Seq::<PackageView>::empty());
                    assert(new_recs =~= old_recs);
                }
            },
        }
        n += 1;
    }
    proof {
        assert(lvs.take(lines@.len() as int) =~= lvs);
        assert(views_of(lines@) == split_on(kurfile@, 10));
        assert(pkg_views(out@).to_multiset() == records_of(kurfile@).to_multiset());
        lemma_records_of_wf(kurfile@);
        assert forall|k: int| 0 <= k < out@.len() implies (#[trigger] pkg_views(out@)[k]).wf() by {
            let a = pkg_views(out@)[k];
            pkg_views(out@).to_multiset_ensures();
            assert(pkg_views(out@).contains(a));
            records_of(kurfile@).to_multiset_ensures();
            assert(records_of(kurfile@).to_multiset().count(a) > 0);
            assert(records_of(kurfile@).contains(a));
            let j = choose|j: int|
                0 <= j < records_of(kurfile@).len() && records_of(kurfile@)[j] == a;
            assert(records_of(kurfile@)[j].wf());
        }
        lemma_records_of_distinct_lines(kurfile@);
        let ov = pkg_views(out@);
        let rv = records_of(kurfile@);
        assert(rv.no_duplicates()) by {
            assert forall|i: int, j: int|
                0 <= i < rv.len() && 0 <= j < rv.len() && i != j implies rv[i] != rv[j] by {
                if i < j {
                    assert(rv[i].line_no < rv[j].line_no);
                } else {
                    assert(rv[j].line_no < rv[i].line_no);
                }
            }
        }
        rv.lemma_multiset_has_no_duplicates();
        assert(forall|x: PackageView|
            ov.to_multiset().contains(x) ==> ov.to_multiset().count(x) == 1);
        ov.lemma_multiset_has_no_duplicates_conv();
        assert forall|i: int, j: int| 0 <= i < j < ov.len() implies ov[i].line_no
            != ov[j].line_no by {
            if ov[i].line_no == ov[j].line_no {
                assert(ov[i] != ov[j]);
                ov.to_multiset_ensures();
                rv.to_multiset_ensures();
                assert(ov.contains(ov[i]));
                assert(rv.to_multiset().count(ov[i]) > 0);
                assert(rv.contains(ov[i]));
                assert(ov.contains(ov[j]));
                assert(rv.to_multiset().count(ov[j]) > 0);
                assert(rv.contains(ov[j]));
                let a = choose|a: int| 0 <= a < rv.len() && rv[a] == ov[i];
                let b = choose|b: int| 0 <= b < rv.len() && rv[b] == ov[j];
                if a < b {
                    assert(rv[a].line_no < rv[b].line_no);
                } else if b < a {
                    assert(rv[b].line_no < rv[a].line_no);
                }
                assert(false);
            }
        }
    }
    out
}

} // verus!
