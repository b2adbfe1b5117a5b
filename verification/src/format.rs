//! The formatter: rendering classified sections back into canonical
//! manifest text. Each non-empty section gets a heading line, one line per
//! record with the name padded to the section's column width, and a blank
//! separator line; the lines are joined with newlines.

use crate::bytes::{append_bytes, copy_bytes, join_bytes, join_with, push_spaces, spaces};
use crate::classify::{bucket_views, classify, classify_spec, BucketKind, BucketView};
use crate::package::{pkg_views, views_of, Package, PackageView};
use vstd::prelude::*;

verus! {

/// The heading line of a section.
pub open spec fn heading(k: BucketKind) -> Seq<u8> {
    match k {
        BucketKind::Common => seq![
            35u8, 32u8, 67u8, 111u8, 109u8, 109u8, 111u8, 110u8, 32u8, 80u8, 97u8, 99u8, 107u8,
            97u8, 103u8, 101u8, 115u8,
        ],
        BucketKind::Alpine => seq![
            35u8, 32u8, 65u8, 108u8, 112u8, 105u8, 110u8, 101u8, 32u8, 80u8, 97u8, 99u8, 107u8,
            97u8, 103u8, 101u8, 115u8,
        ],
        BucketKind::Ubuntu => seq![
            35u8, 32u8, 85u8, 98u8, 117u8, 110u8, 116u8, 117u8, 32u8, 80u8, 97u8, 99u8, 107u8,
            97u8, 103u8, 101u8, 115u8,
        ],
        BucketKind::Brew => seq![
            35u8, 32u8, 66u8, 114u8, 101u8, 119u8, 32u8, 80u8, 97u8, 99u8, 107u8, 97u8, 103u8,
            101u8, 115u8,
        ],
        BucketKind::Cargo => seq![
            35u8, 32u8, 67u8, 97u8, 114u8, 103u8, 111u8, 32u8, 80u8, 97u8, 99u8, 107u8, 97u8,
            103u8, 101u8, 115u8,
        ],
        BucketKind::Pip => seq![
            35u8, 32u8, 80u8, 105u8, 112u8, 32u8, 80u8, 97u8, 99u8, 107u8, 97u8, 103u8, 101u8,
            115u8,
        ],
    }
}

/// The heading line of a section, as a vector.
pub fn heading_exec(k: BucketKind) -> (r: Vec<u8>)
    ensures
        r@ == heading(k),
{
    let mut v: Vec<u8> = Vec::new();
    match k {
        BucketKind::Common => {
            v.push(35); v.push(32); v.push(67); v.push(111); v.push(109); v.push(109);
            v.push(111); v.push(110); v.push(32); v.push(80); v.push(97); v.push(99);
            v.push(107); v.push(97); v.push(103); v.push(101); v.push(115);
        },
        BucketKind::Alpine => {
            v.push(35); v.push(32); v.push(65); v.push(108); v.push(112); v.push(105);
            v.push(110); v.push(101); v.push(32); v.push(80); v.push(97); v.push(99);
            v.push(107); v.push(97); v.push(103); v.push(101); v.push(115);
        },
        BucketKind::Ubuntu => {
            v.push(35); v.push(32); v.push(85); v.push(98); v.push(117); v.push(110);
            v.push(116); v.push(117); v.push(32); v.push(80); v.push(97); v.push(99);
            v.push(107); v.push(97); v.push(103); v.push(101); v.push(115);
        },
        BucketKind::Brew => {
            v.push(35); v.push(32); v.push(66); v.push(114); v.push(101); v.push(119);
            v.push(32); v.push(80); v.push(97); v.push(99); v.push(107); v.push(97);
            v.push(103); v.push(101); v.push(115);
        },
        BucketKind::Cargo => {
            v.push(35); v.push(32); v.push(67); v.push(97); v.push(114); v.push(103);
            v.push(111); v.push(32); v.push(80); v.push(97); v.push(99); v.push(107);
            v.push(97); v.push(103); v.push(101); v.push(115);
        },
        BucketKind::Pip => {
            v.push(35); v.push(32); v.push(80); v.push(105); v.push(112); v.push(32);
            v.push(80); v.push(97); v.push(99); v.push(107); v.push(97); v.push(103);
            v.push(101); v.push(115);
        },
    }
    proof {
        assert(v@ =~= heading(k));
    }
    v
}

/// The longest name among the records.
pub open spec fn max_name_len(s: Seq<PackageView>) -> nat
    decreases s.len(),
{
    if s.len() == 0 {
        0
    } else {
        let m = max_name_len(s.drop_last());
        if s.last().name.len() > m {
            s.last().name.len()
        } else {
            m
        }
    }
}

pub proof fn lemma_max_name_ge(s: Seq<PackageView>)
    ensures
        forall|j: int| 0 <= j < s.len() ==> (#[trigger] s[j]).name.len() <= max_name_len(s),
    decreases s.len(),
{
    if s.len() > 0 {
        lemma_max_name_ge(s.drop_last());
        assert(forall|j: int| 0 <= j < s.len() - 1 ==> s.drop_last()[j] == s[j]);
    }
}

/// Every name fits the machine's column arithmetic.
pub open spec fn names_fit(s: Seq<PackageView>) -> bool {
    forall|i: int| 0 <= i < s.len() ==> (#[trigger] s[i]).name.len() + 4 <= usize::MAX
}

pub proof fn lemma_max_name_fit(s: Seq<PackageView>)
    requires
        names_fit(s),
    ensures
        max_name_len(s) + 4 <= usize::MAX,
    decreases s.len(),
{
    if s.len() > 0 {
        assert(forall|j: int| 0 <= j < s.len() - 1 ==> s.drop_last()[j] == s[j]);
        lemma_max_name_fit(s.drop_last());
        assert(s[s.len() - 1].name.len() + 4 <= usize::MAX);
    }
}

/// One rendered record line: the name padded with spaces to `width`, then
/// the tags joined with single spaces.
pub open spec fn pkg_line(p: PackageView, width: nat) -> Seq<u8> {
    let padded = if p.name.len() >= width {
        p.name
    } else {
        p.name + spaces((width - p.name.len()) as nat)
    };
    padded + join_with(p.tags, 32)
}

/// `pkg_line` at a fixed width, as a first-class function.
pub open spec fn line_fn(width: nat) -> spec_fn(PackageView) -> Seq<u8> {
    |p: PackageView| pkg_line(p, width)
}

/// The rendered lines of one section's records: the column width is the
/// section's longest name plus four.
pub open spec fn fmt_lines_spec(s: Seq<PackageView>) -> Seq<Seq<u8>> {
    s.map_values(line_fn((max_name_len(s) + 4) as nat))
}

/// All the lines a section contributes: its heading, its records, and a
/// blank separator.
pub open spec fn bucket_lines(b: BucketView) -> Seq<Seq<u8>> {
    seq![heading(b.kind)] + fmt_lines_spec(b.packages) + seq![Seq::<u8>::empty()]
}

/// The lines of the whole formatted manifest, section after section.
pub open spec fn manifest_lines(bs: Seq<BucketView>) -> Seq<Seq<u8>>
    decreases bs.len(),
{
    if bs.len() == 0 {
        Seq::<Seq<u8>>::empty()
    } else {
        bucket_lines(bs[0]) + manifest_lines(bs.skip(1))
    }
}

/// The formatted manifest text: the lines joined with newlines.
pub open spec fn fmt_spec(bs: Seq<BucketView>) -> Seq<u8> {
    join_with(manifest_lines(bs), 10)
}

pub proof fn lemma_manifest_lines_push(bs: Seq<BucketView>, b: BucketView)
    ensures
        manifest_lines(bs.push(b)) == manifest_lines(bs) + bucket_lines(b),
    decreases bs.len(),
{
    if bs.len() == 0 {
        assert(bs.push(b)[0] == b);
        assert(bs.push(b).skip(1) =~= Seq::<BucketView>::empty());
        assert(manifest_lines(Seq::<BucketView>::empty()) =~= Seq::<Seq<u8>>::empty());
        assert(manifest_lines(bs.push(b)) =~= manifest_lines(bs) + bucket_lines(b));
    } else {
        lemma_manifest_lines_push(bs.skip(1), b);
        assert(bs.push(b).skip(1) =~= bs.skip(1).push(b));
        assert(bs.push(b)[0] == bs[0]);
        assert(bucket_lines(bs[0]) + (manifest_lines(bs.skip(1)) + bucket_lines(b)) =~= (
        bucket_lines(bs[0]) + manifest_lines(bs.skip(1))) + bucket_lines(b));
    }
}

/// Renders one section's records: each line is the record's name padded to
/// the section's column width, followed by its tags joined with spaces.
pub fn fmt_packages(packages: &Vec<Package>) -> (r: Vec<Vec<u8>>)
    requires
        names_fit(pkg_views(packages@)),
    ensures
        views_of(r@) == fmt_lines_spec(pkg_views(packages@)),
{
    let ghost s = pkg_views(packages@);
    let mut longest: usize = 0;
    let mut i: usize = 0;
    proof {
        assert(s.take(0) =~= Seq::<PackageView>::empty());
    }
    while i < packages.len()
        invariant
            i <= packages.len(),
            s == pkg_views(packages@),
            longest == max_name_len(s.take(i as int)),
        decreases packages.len() - i,
    {
        let n = packages[i].name.len();
        proof {
            assert(s.take(i + 1).drop_last() =~= s.take(i as int));
            assert(s.take(i + 1).last() == s[i as int]);
            assert(s[i as int].name.len() == packages@[i as int].name@.len());
        }
        if n > longest {
            longest = n;
        }
        i += 1;
    }
    proof {
        assert(s.take(packages@.len() as int) =~= s);
        lemma_max_name_fit(s);
    }
    let width = longest + 4;
    let ghost w = (max_name_len(s) + 4) as nat;
    let mut r: Vec<Vec<u8>> = Vec::new();
    let mut j: usize = 0;
    proof {
        assert(views_of(r@) =~= s.take(0).map_values(line_fn(w)));
    }
    while j < packages.len()
        invariant
            j <= packages.len(),
            s == pkg_views(packages@),
            width == max_name_len(s) + 4,
            w == (max_name_len(s) + 4) as nat,
            views_of(r@) == s.take(j as int).map_values(line_fn(w)),
        decreases packages.len() - j,
    {
        proof {
            lemma_max_name_ge(s);
            assert(s[j as int].name.len() <= max_name_len(s));
        }
        let mut line = copy_bytes(&packages[j].name);
        push_spaces(&mut line, width - packages[j].name.len());
        let tagline = join_bytes(&packages[j].tags, 32);
        append_bytes(&mut line, &tagline);
        proof {
            let pv = s[j as int];
            assert(pv.name == packages@[j as int].name@);
            assert(pv.tags == views_of(packages@[j as int].tags@));
            assert(line@ == pv.name + spaces((w - pv.name.len()) as nat) + join_with(pv.tags, 32));
            assert(pv.name.len() < w);
            assert(line@ == pkg_line(pv, w));
        }
        let ghost pre = r@;
        r.push(line);
        proof {
            assert(views_of(r@) =~= views_of(pre).push(pkg_line(s[j as int], w)));
            assert(s.take(j + 1) =~= s.take(j as int).push(s[j as int]));
            assert(s.take(j + 1).map_values(line_fn(w)) =~= s.take(j as int).map_values(
                line_fn(w),
            ).push(pkg_line(s[j as int], w)));
        }
        j += 1;
    }
    proof {
        assert(s.take(packages@.len() as int) =~= s);
    }
    r
}

/// Classifies the records and renders the whole canonical manifest text.
pub fn fmt(packages: &Vec<Package>) -> (r: Vec<u8>)
    requires
        names_fit(pkg_views(packages@)),
    ensures
        r@ == fmt_spec(classify_spec(pkg_views(packages@))),
{
    let ghost s = pkg_views(packages@);
    let buckets = classify(packages);
    let ghost bvs = bucket_views(buckets@);
    let mut lines: Vec<Vec<u8>> = Vec::new();
    let mut i: usize = 0;
    proof {
        assert(bvs.take(0) =~= Seq::<BucketView>::empty());
        assert(manifest_lines(Seq::<BucketView>::empty()) =~= Seq::<Seq<u8>>::empty());
        assert(views_of(lines@) =~= Seq::<Seq<u8>>::empty());
    }
    while i < buckets.len()
        invariant
            i <= buckets.len(),
            s == pkg_views(packages@),
            names_fit(s),
            bvs == bucket_views(buckets@),
            bvs == classify_spec(s),
            buckets@.len() == bvs.len(),
            views_of(lines@) == manifest_lines(bvs.take(i as int)),
        decreases buckets.len() - i,
    {
        let ghost bv = bvs[i as int];
        proof {
            assert(bv == buckets@[i as int]@);
            assert(classify_spec(s).contains(bv));
            crate::classify::lemma_classify_buckets(s, bv);
            assert forall|m: int| 0 <= m < bv.packages.len() implies (#[trigger] bv.packages[m])
                .name.len() + 4 <= usize::MAX by {
                assert(bv.packages.contains(bv.packages[m]));
                assert(s.contains(bv.packages[m]));
                let x = choose|x: int| 0 <= x < s.len() && s[x] == bv.packages[m];
                assert(s[x].name.len() + 4 <= usize::MAX);
            }
        }
        let h = heading_exec(buckets[i].kind);
        let ghost pre0 = lines@;
        lines.push(h);
        proof {
            assert(views_of(lines@) =~= views_of(pre0).push(heading(bv.kind)));
        }
        let pls = fmt_packages(&buckets[i].packages);
        let mut k: usize = 0;
        while k < pls.len()
            invariant
                k <= pls.len(),
                views_of(lines@) == views_of(pre0).push(heading(bv.kind)) + views_of(
                    pls@,
                ).take(k as int),
            decreases pls.len() - k,
        {
            let c = copy_bytes(&pls[k]);
            let ghost pre1 = lines@;
            lines.push(c);
            proof {
                assert(views_of(lines@) =~= views_of(pre1).push(views_of(pls@)[k as int]));
                assert(views_of(pls@).take(k + 1) =~= views_of(pls@).take(k as int).push(
                    views_of(pls@)[k as int],
                ));
                assert(views_of(pre1).push(views_of(pls@)[k as int]) =~= views_of(pre0).push(
                    heading(bv.kind),
                ) + views_of(pls@).take(k + 1));
            }
            k += 1;
        }
        let empty_line: Vec<u8> = Vec::new();
        let ghost pre2 = lines@;
        lines.push(empty_line);
        proof {
            assert(views_of(pls@).take(pls@.len() as int) =~= views_of(pls@));
            assert(views_of(lines@) =~= views_of(pre2).push(Seq::<u8>::empty()));
            assert(bv.packages == pkg_views(buckets@[i as int].packages@));
            assert(views_of(pls@) == fmt_lines_spec(bv.packages));
            assert(views_of(lines@) =~= manifest_lines(bvs.take(i as int)) + bucket_lines(bv));
            assert(bvs.take(i + 1) =~= bvs.take(i as int).push(bv));
            lemma_manifest_lines_push(bvs.take(i as int), bv);
        }
        i += 1;
    }
    proof {
        assert(bvs.take(buckets@.len() as int) =~= bvs);
    }
    join_bytes(&lines, 10)
}

} // verus!
