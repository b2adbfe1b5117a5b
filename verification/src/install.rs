//! The installation side of classification: which package names are handed
//! to which package manager. The processes themselves are run by the
//! caller; this module only decides the lists.

use crate::bytes::bytes_eq;
use crate::classify::{kind_tag, kind_tag_exec, BucketKind};
use crate::package::{pkg_views, views_of, Package, PackageView};
use vstd::prelude::*;

verus! {

/// Does the record carry this tag, anywhere in its tag list?
pub open spec fn has_tag_pred(tag: Seq<u8>) -> spec_fn(PackageView) -> bool {
    |p: PackageView| p.tags.contains(tag)
}

/// The names of every record carrying the tag, in record order: the
/// argument list handed to a package manager.
pub open spec fn names_with_tag_spec(s: Seq<PackageView>, tag: Seq<u8>) -> Seq<Seq<u8>> {
    s.filter(has_tag_pred(tag)).map_values(|p: PackageView| p.name)
}

fn has_tag(p: &Package, tag: &Vec<u8>) -> (r: bool)
    ensures
        r == p@.tags.contains(tag@),
{
    let mut i: usize = 0;
    while i < p.tags.len()
        invariant
            i <= p.tags.len(),
            forall|k: int| 0 <= k < i ==> p@.tags[k] != tag@,
        decreases p.tags.len() - i,
    {
        if bytes_eq(&p.tags[i], tag) {
            proof {
                assert(p@.tags[i as int] == p.tags@[i as int]@);
            }
            return true;
        }
        proof {
            assert(p@.tags[i as int] == p.tags@[i as int]@);
        }
        i += 1;
    }
    proof {
        assert(p@.tags.len() == p.tags@.len());
    }
    false
}

/// Collects the names of every record carrying the tag, in record order.
pub fn names_with_tag(packages: &Vec<Package>, tag: &Vec<u8>) -> (r: Vec<Vec<u8>>)
    ensures
        views_of(r@) == names_with_tag_spec(pkg_views(packages@), tag@),
{
    let ghost s = pkg_views(packages@);
    let ghost name_of = |p: PackageView| p.name;
    let mut r: Vec<Vec<u8>> = Vec::new();
    let mut i: usize = 0;
    proof {
        assert(s.take(0) =~= Seq::<PackageView>::empty());
        assert(Seq::<PackageView>::empty().filter(has_tag_pred(tag@))
            =~= Seq::<PackageView>::empty());
        assert(views_of(r@) =~= names_with_tag_spec(s.take(0), tag@));
    }
    while i < packages.len()
        invariant
            i <= packages.len(),
            s == pkg_views(packages@),
            views_of(r@) == names_with_tag_spec(s.take(i as int), tag@),
        decreases packages.len() - i,
    {
        let keep = has_tag(&packages[i], tag);
        proof {
            assert(s.take(i + 1) =~= s.take(i as int).push(s[i as int]));
            s.take(i as int).lemma_filter_push(s[i as int], has_tag_pred(tag@));
            assert(keep == has_tag_pred(tag@)(s[i as int]));
        }
        if keep {
            let c = crate::bytes::copy_bytes(&packages[i].name);
            let ghost pre = r@;
            r.push(c);
            proof {
                assert(c@ == s[i as int].name);
                assert(views_of(r@) =~= views_of(pre).push(s[i as int].name));
                assert(s.take(i as int).filter(has_tag_pred(tag@)).push(
                    s[i as int],
                ).map_values(|p: PackageView| p.name) =~= names_with_tag_spec(
                    s.take(i as int),
                    tag@,
                ).push(s[i as int].name));
            }
        }
        i += 1;
    }
    proof {
        assert(s.take(packages@.len() as int) =~= s);
    }
    r
}

/// The platforms installation can target.
#[derive(Clone, Copy, PartialEq, Eq, Structural, Debug)]
pub enum Platform {
    Ubuntu,
    Alpine,
    MacOs,
    Unsupported,
}

/// The tag whose packages the platform's package manager installs, or
/// `None` on an unsupported platform.
pub open spec fn platform_tag(pf: Platform) -> Option<Seq<u8>> {
    match pf {
        Platform::Ubuntu => Some(kind_tag(BucketKind::Ubuntu)),
        Platform::Alpine => Some(kind_tag(BucketKind::Alpine)),
        Platform::MacOs => Some(kind_tag(BucketKind::Brew)),
        Platform::Unsupported => None,
    }
}

/// The names handed to the detected platform's package manager: `None`
/// exactly on an unsupported platform, otherwise the names of every record
/// carrying the platform's tag, in record order.
pub fn platform_packages(pf: Platform, packages: &Vec<Package>) -> (r: Option<Vec<Vec<u8>>>)
    ensures
        match platform_tag(pf) {
            Some(t) => r matches Some(v) && views_of(v@) == names_with_tag_spec(
                pkg_views(packages@),
                t,
            ),
            None => r is None,
        },
{
    match pf {
        Platform::Ubuntu => {
            let t = kind_tag_exec(BucketKind::Ubuntu);
            Some(names_with_tag(packages, &t))
        },
        Platform::Alpine => {
            let t = kind_tag_exec(BucketKind::Alpine);
            Some(names_with_tag(packages, &t))
        },
        Platform::MacOs => {
            let t = kind_tag_exec(BucketKind::Brew);
            Some(names_with_tag(packages, &t))
        },
        Platform::Unsupported => None,
    }
}

} // verus!
