//! The classifier: grouping records into sections for formatting and
//! installation. A record with more than one tag is a "common" package; a
//! record whose single tag names a configured ecosystem belongs to that
//! ecosystem's section; an untagged record belongs to no section at all.

use crate::bytes::bytes_eq;
use crate::package::{pkg_views, Package, PackageView};
use vstd::prelude::*;

verus! {

/// The sections, in the fixed order they are emitted.
#[derive(Clone, Copy, PartialEq, Eq, Structural, Debug)]
pub enum BucketKind {
    Common,
    Alpine,
    Ubuntu,
    Brew,
    Cargo,
    Pip,
}

/// The tag bytes selecting each per-ecosystem section; the common section
/// has no tag of its own.
pub open spec fn kind_tag(k: BucketKind) -> Seq<u8> {
    match k {
        BucketKind::Common => Seq::<u8>::empty(),
        BucketKind::Alpine => seq![35u8, 97u8, 108u8, 112u8, 105u8, 110u8, 101u8],
        BucketKind::Ubuntu => seq![35u8, 117u8, 98u8, 117u8, 110u8, 116u8, 117u8],
        BucketKind::Brew => seq![35u8, 98u8, 114u8, 101u8, 119u8],
        BucketKind::Cargo => seq![35u8, 99u8, 97u8, 114u8, 103u8, 111u8],
        BucketKind::Pip => seq![35u8, 112u8, 105u8, 112u8],
    }
}

/// The tag bytes of a section, as a vector.
pub fn kind_tag_exec(k: BucketKind) -> (r: Vec<u8>)
    ensures
        r@ == kind_tag(k),
{
    let mut v: Vec<u8> = Vec::new();
    match k {
        BucketKind::Common => {},
        BucketKind::Alpine => {
            v.push(35); v.push(97); v.push(108); v.push(112); v.push(105); v.push(110);
            v.push(101);
        },
        BucketKind::Ubuntu => {
            v.push(35); v.push(117); v.push(98); v.push(117); v.push(110); v.push(116);
            v.push(117);
        },
        BucketKind::Brew => {
            v.push(35); v.push(98); v.push(114); v.push(101); v.push(119);
        },
        BucketKind::Cargo => {
            v.push(35); v.push(99); v.push(97); v.push(114); v.push(103); v.push(111);
        },
        BucketKind::Pip => {
            v.push(35); v.push(112); v.push(105); v.push(112);
        },
    }
    proof {
        assert(v@ =~= kind_tag(k));
    }
    v
}

/// Does the record belong to this section? Multi-tag records belong to the
/// common section; a single-tag record belongs to the section its one tag
/// names; untagged records belong nowhere.
pub open spec fn in_bucket(k: BucketKind, p: PackageView) -> bool {
    match k {
        BucketKind::Common => p.tags.len() > 1,
        _ => p.tags.len() == 1 && p.tags[0] == kind_tag(k),
    }
}

/// `in_bucket` for a fixed kind, as a first-class predicate.
pub open spec fn bucket_pred(k: BucketKind) -> spec_fn(PackageView) -> bool {
    |p: PackageView| in_bucket(k, p)
}

pub fn in_bucket_exec(k: BucketKind, p: &Package) -> (r: bool)
    ensures
        r == in_bucket(k, p@),
{
    match k {
        BucketKind::Common => p.tags.len() > 1,
        _ => {
            if p.tags.len() != 1 {
                false
            } else {
                let t = kind_tag_exec(k);
                let r = bytes_eq(&p.tags[0], &t);
                proof {
                    assert(p@.tags[0] == p.tags@[0]@);
                }
                r
            }
        },
    }
}

/// One section of the classified manifest.
pub struct Bucket {
    pub kind: BucketKind,
    pub packages: Vec<Package>,
}

/// The mathematical model of a `Bucket`.
pub struct BucketView {
    pub kind: BucketKind,
    pub packages: Seq<PackageView>,
}

impl View for Bucket {
    type V = BucketView;

    open spec fn view(&self) -> BucketView {
        BucketView { kind: self.kind, packages: pkg_views(self.packages@) }
    }
}

/// The views of a sequence of buckets.
pub open spec fn bucket_views(bs: Seq<Bucket>) -> Seq<BucketView> {
    bs.map_values(|b: Bucket| b@)
}

/// The order sections are emitted in.
pub open spec fn kind_order() -> Seq<BucketKind> {
    seq![
        BucketKind::Common,
        BucketKind::Alpine,
        BucketKind::Ubuntu,
        BucketKind::Brew,
        BucketKind::Cargo,
        BucketKind::Pip,
    ]
}

/// The non-empty sections for the given kinds, in order: each holds exactly
/// the records of its kind, in record order; empty sections are omitted.
pub open spec fn buckets_for(ks: Seq<BucketKind>, s: Seq<PackageView>) -> Seq<BucketView>
    decreases ks.len(),
{
    if ks.len() == 0 {
        Seq::<BucketView>::empty()
    } else {
        let ps = s.filter(bucket_pred(ks[0]));
        let rest = buckets_for(ks.skip(1), s);
        if ps.len() > 0 {
            seq![BucketView { kind: ks[0], packages: ps }] + rest
        } else {
            rest
        }
    }
}

/// The whole classification: common first, then each ecosystem in order.
pub open spec fn classify_spec(s: Seq<PackageView>) -> Seq<BucketView> {
    buckets_for(kind_order(), s)
}

/// The records of one section, in record order.
fn filter_pkgs(packages: &Vec<Package>, k: BucketKind) -> (r: Vec<Package>)
    ensures
        pkg_views(r@) == pkg_views(packages@).filter(bucket_pred(k)),
{
    broadcast use vstd::seq_lib::group_filter_ensures;

    let ghost s = pkg_views(packages@);
    let mut r: Vec<Package> = Vec::new();
    let mut i: usize = 0;
    proof {
        assert(pkg_views(r@) =~= Seq::<PackageView>::empty());
        assert(s.take(0) =~= Seq::<PackageView>::empty());
        assert(Seq::<PackageView>::empty().filter(bucket_pred(k))
            =~= Seq::<PackageView>::empty());
    }
    while i < packages.len()
        invariant
            i <= packages.len(),
            s == pkg_views(packages@),
            pkg_views(r@) == s.take(i as int).filter(bucket_pred(k)),
        decreases packages.len() - i,
    {
        let keep = in_bucket_exec(k, &packages[i]);
        proof {
            assert(s.take(i + 1) =~= s.take(i as int).push(s[i as int]));
            s.take(i as int).lemma_filter_push(s[i as int], bucket_pred(k));
            assert(keep == bucket_pred(k)(s[i as int]));
        }
        if keep {
            let c = packages[i].duplicate();
            let ghost pre = r@;
            r.push(c);
            proof {
                assert(pkg_views(r@) =~= pkg_views(pre).push(c@));
            }
        }
        i += 1;
    }
    proof {
        assert(s.take(packages@.len() as int) =~= s);
    }
    r
}

/// The kind at a position of the emission order.
fn kind_at(i: usize) -> (k: BucketKind)
    requires
        i < 6,
    ensures
        k == kind_order()[i as int],
{
    if i == 0 {
        BucketKind::Common
    } else if i == 1 {
        BucketKind::Alpine
    } else if i == 2 {
        BucketKind::Ubuntu
    } else if i == 3 {
        BucketKind::Brew
    } else if i == 4 {
        BucketKind::Cargo
    } else {
        BucketKind::Pip
    }
}

/// Groups the records into ordered sections: common first, then each
/// configured ecosystem; empty sections are omitted.
pub fn classify(packages: &Vec<Package>) -> (r: Vec<Bucket>)
    ensures
        bucket_views(r@) == classify_spec(pkg_views(packages@)),
{
    let ghost s = pkg_views(packages@);
    let mut r: Vec<Bucket> = Vec::new();
    let mut i: usize = 0;
    proof {
        assert(kind_order().skip(0) =~= kind_order());
        assert(bucket_views(r@) =~= Seq::<BucketView>::empty());
        assert(Seq::<BucketView>::empty() + buckets_for(kind_order(), s) =~= buckets_for(
            kind_order(),
            s,
        ));
    }
    while i < 6
        invariant
            i <= 6,
            s == pkg_views(packages@),
            classify_spec(s) == bucket_views(r@) + buckets_for(kind_order().skip(i as int), s),
        decreases 6 - i,
    {
        let k = kind_at(i);
        let ps = filter_pkgs(packages, k);
        let ghost ko = kind_order().skip(i as int);
        proof {
            assert(ko.len() == 6 - i);
            assert(ko[0] == kind_order()[i as int]);
            assert(ko.skip(1) =~= kind_order().skip(i + 1));
        }
        if ps.len() > 0 {
            let ghost pre = r@;
            let b = Bucket { kind: k, packages: ps };
            let ghost bv = b@;
            r.push(b);
            proof {
                assert(bucket_views(r@) =~= bucket_views(pre).push(bv));
                assert(bv.packages == s.filter(bucket_pred(k)));
                assert(bv.packages.len() > 0);
                assert(buckets_for(ko, s) == seq![bv] + buckets_for(kind_order().skip(i + 1), s));
                assert(bucket_views(pre).push(bv) + buckets_for(kind_order().skip(i + 1), s)
                    =~= bucket_views(pre) + (seq![bv] + buckets_for(kind_order().skip(i + 1), s)));
            }
        } else {
            proof {
                assert(pkg_views(ps@).len() == 0);
                assert(s.filter(bucket_pred(k)).len() == 0);
                assert(buckets_for(ko, s) == buckets_for(kind_order().skip(i + 1), s));
            }
        }
        i += 1;
    }
    proof {
        assert(kind_order().skip(6) =~= Seq::<BucketKind>::empty());
        assert(buckets_for(Seq::<BucketKind>::empty(), s) =~= Seq::<BucketView>::empty());
        assert(bucket_views(r@) + Seq::<BucketView>::empty() =~= bucket_views(r@));
    }
    r
}

/// Classification is a partition of the records, up to untagged ones: a
/// record with two or more tags belongs to the common section and to no
/// other; a record with exactly one tag belongs to at most one section, and
/// never to the common one; a record with no tags belongs to no section.
pub proof fn lemma_classify_partition(p: PackageView)
    ensures
        p.tags.len() >= 2 ==> in_bucket(BucketKind::Common, p) && (forall|k: BucketKind|
            k != BucketKind::Common ==> !in_bucket(k, p)),
        p.tags.len() == 1 ==> !in_bucket(BucketKind::Common, p) && (forall|
            k1: BucketKind,
            k2: BucketKind,
        |
            in_bucket(k1, p) && in_bucket(k2, p) ==> k1 == k2),
        p.tags.len() == 0 ==> forall|k: BucketKind| !in_bucket(k, p),
{
    if p.tags.len() == 1 {
        assert forall|k1: BucketKind, k2: BucketKind|
            in_bucket(k1, p) && in_bucket(k2, p) implies k1 == k2 by {
            assert(kind_tag(k1) == kind_tag(k2));
            assert(kind_tag(BucketKind::Alpine)[1] == 97);
            assert(kind_tag(BucketKind::Ubuntu)[1] == 117);
            assert(kind_tag(BucketKind::Brew)[1] == 98);
            assert(kind_tag(BucketKind::Cargo)[1] == 99);
            assert(kind_tag(BucketKind::Pip)[1] == 112);
            assert(kind_tag(BucketKind::Brew).len() == 5);
            assert(kind_tag(BucketKind::Cargo).len() == 6);
            assert(kind_tag(BucketKind::Pip).len() == 4);
            assert(kind_tag(BucketKind::Alpine).len() == 7);
            assert(kind_tag(BucketKind::Ubuntu).len() == 7);
        }
    }
}

/// Every section a classification emits holds exactly the records of its
/// kind, in record order, and is non-empty; and every record in it comes
/// from the input.
pub proof fn lemma_classify_buckets(s: Seq<PackageView>, b: BucketView)
    requires
        classify_spec(s).contains(b),
    ensures
        b.packages == s.filter(bucket_pred(b.kind)),
        b.packages.len() > 0,
        forall|p: PackageView| #[trigger]
            b.packages.contains(p) ==> in_bucket(b.kind, p) && s.contains(p),
{
    lemma_buckets_for_contains(kind_order(), s, b);
    assert forall|p: PackageView| #[trigger] b.packages.contains(p) implies in_bucket(b.kind, p)
        && s.contains(p) by {
        let j = choose|j: int| 0 <= j < b.packages.len() && b.packages[j] == p;
        s.lemma_filter_pred(bucket_pred(b.kind), j);
        s.lemma_filter_contains_rev(bucket_pred(b.kind), p);
    }
}

proof fn lemma_buckets_for_contains(ks: Seq<BucketKind>, s: Seq<PackageView>, b: BucketView)
    requires
        buckets_for(ks, s).contains(b),
    ensures
        b.packages == s.filter(bucket_pred(b.kind)),
        b.packages.len() > 0,
    decreases ks.len(),
{
    if ks.len() > 0 {
        let ps = s.filter(bucket_pred(ks[0]));
        let rest = buckets_for(ks.skip(1), s);
        if ps.len() > 0 {
            let whole = seq![BucketView { kind: ks[0], packages: ps }] + rest;
            let j = choose|j: int| 0 <= j < whole.len() && whole[j] == b;
            if j == 0 {
                assert(b == BucketView { kind: ks[0], packages: ps });
            } else {
                assert(whole[j] == rest[j - 1]);
                assert(rest.contains(b));
                lemma_buckets_for_contains(ks.skip(1), s, b);
            }
        } else {
            lemma_buckets_for_contains(ks.skip(1), s, b);
        }
    }
}

} // verus!
