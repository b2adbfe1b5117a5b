//! The validator: package names must be unique across the manifest.

use crate::bytes::{bytes_eq, copy_bytes};
use crate::package::{pkg_views, Package, PackageView};
use vstd::prelude::*;

verus! {

/// The validation failure: one package name mentioned on two lines.
pub struct DuplicateError {
    pub name: Vec<u8>,
    pub first_line: u64,
    pub second_line: u64,
}

/// The mathematical model of a `DuplicateError`.
pub struct DuplicateErrorView {
    pub name: Seq<u8>,
    pub first_line: nat,
    pub second_line: nat,
}

impl View for DuplicateError {
    type V = DuplicateErrorView;

    open spec fn view(&self) -> DuplicateErrorView {
        DuplicateErrorView {
            name: self.name@,
            first_line: self.first_line as nat,
            second_line: self.second_line as nat,
        }
    }
}

/// Some name occurs at two positions.
pub open spec fn has_duplicate(s: Seq<PackageView>) -> bool {
    exists|i: int, j: int| 0 <= i < j < s.len() && s[i].name == s[j].name
}

/// The error cites the very first collision in scan order: `j` is the least
/// position repeating an earlier name, `i` the unique earlier position that
/// carries it, and the error holds that name and both line numbers.
pub open spec fn reports_first_duplicate(s: Seq<PackageView>, e: DuplicateErrorView) -> bool {
    exists|i: int, j: int|
        #![auto]
        {
            &&& 0 <= i < j < s.len()
            &&& s[i].name == s[j].name
            &&& e.name == s[i].name
            &&& e.first_line == s[i].line_no
            &&& e.second_line == s[j].line_no
            &&& forall|i2: int, j2: int| 0 <= i2 < j2 < j ==> s[i2].name != s[j2].name
            &&& forall|i2: int| 0 <= i2 < j && s[i2].name == s[j].name ==> i2 == i
        }
}

/// Scans the records in order and reports the first duplicate name, or
/// `None` exactly when every name is unique.
pub fn check_duplicates(packages: &Vec<Package>) -> (r: Option<DuplicateError>)
    ensures
        match r {
            None => !has_duplicate(pkg_views(packages@)),
            Some(e) => reports_first_duplicate(pkg_views(packages@), e@),
        },
{
    let ghost s = pkg_views(packages@);
    let mut j: usize = 1;
    while j < packages.len()
        invariant
            s == pkg_views(packages@),
            1 <= j,
            j <= packages.len() || j == 1,
            forall|i2: int, j2: int| 0 <= i2 < j2 < j && j2 < s.len() ==> s[i2].name != s[j2].name,
        decreases packages.len() - j,
    {
        let mut i: usize = 0;
        while i < j
            invariant
                s == pkg_views(packages@),
                i <= j < packages.len(),
                forall|i2: int, j2: int| 0 <= i2 < j2 < j ==> s[i2].name != s[j2].name,
                forall|i2: int| 0 <= i2 < i ==> s[i2].name != s[j as int].name,
            decreases j - i,
        {
            if bytes_eq(&packages[i].name, &packages[j].name) {
                let e = DuplicateError {
                    name: copy_bytes(&packages[i].name),
                    first_line: packages[i].line_no,
                    second_line: packages[j].line_no,
                };
                proof {
                    let gi = i as int;
                    let gj = j as int;
                    assert(s[gi].name == packages@[gi].name@);
                    assert(s[gj].name == packages@[gj].name@);
                    assert(s[gi].name == s[gj].name);
                    assert forall|i2: int| 0 <= i2 < gj && s[i2].name == s[gj].name implies i2
                        == gi by {
                        if i2 < gi {
                            assert(s[i2].name != s[gi].name);
                        } else if gi < i2 {
                            assert(s[gi].name != s[i2].name);
                        }
                    }
                    assert(reports_first_duplicate(s, e@));
                }
                return Some(e);
            }
            i += 1;
        }
        j += 1;
    }
    proof {
        assert(!has_duplicate(s));
    }
    None
}

/// All validation of the parsed records; today that is duplicate detection.
pub fn check_packages(packages: &Vec<Package>) -> (r: Option<DuplicateError>)
    ensures
        match r {
            None => !has_duplicate(pkg_views(packages@)),
            Some(e) => reports_first_duplicate(pkg_views(packages@), e@),
        },
{
    check_duplicates(packages)
}

} // verus!
