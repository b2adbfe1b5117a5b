//! The package record: one line of the manifest, with its source line number,
//! its name, and its sorted ecosystem tags.

use crate::bytes::{
    byte_leq, bytes_eq, copy_bytes, is_space, lemma_lex_lt_asym, lemma_lex_lt_connected,
    lemma_lex_lt_trans, lex_leq, lex_leq_exec, lex_lt, lex_lt_exec,
};
use vstd::prelude::*;
use vstd::relations::sorted_by;

verus! {

/// One manifest entry.
pub struct Package {
    /// 0-based index of the line this record came from, for diagnostics.
    pub line_no: u64,
    /// The package identifier, as package managers understand it.
    pub name: Vec<u8>,
    /// `#`-prefixed ecosystem markers, sorted lexicographically.
    pub tags: Vec<Vec<u8>>,
}

/// The mathematical model of a `Package`.
pub struct PackageView {
    pub line_no: nat,
    pub name: Seq<u8>,
    pub tags: Seq<Seq<u8>>,
}

impl View for Package {
    type V = PackageView;

    open spec fn view(&self) -> PackageView {
        PackageView {
            line_no: self.line_no as nat,
            name: self.name@,
            tags: self.tags@.map_values(|t: Vec<u8>| t@),
        }
    }
}

/// The byte views of a sequence of byte vectors.
pub open spec fn views_of(ts: Seq<Vec<u8>>) -> Seq<Seq<u8>> {
    ts.map_values(|t: Vec<u8>| t@)
}

/// The views of a sequence of packages.
pub open spec fn pkg_views(s: Seq<Package>) -> Seq<PackageView> {
    s.map_values(|p: Package| p@)
}

/// A name as the parser produces it: the first token of a trimmed,
/// non-comment line. It is non-empty, starts with neither whitespace nor
/// `#`, and contains no space and no newline.
pub open spec fn wf_name(n: Seq<u8>) -> bool {
    &&& n.len() > 0
    &&& !is_space(n[0])
    &&& n[0] != 35
    &&& forall|i: int| 0 <= i < n.len() ==> n[i] != 32 && n[i] != 10
}

/// A tag as the parser produces it: a non-empty `#`-prefixed token with no
/// space and no newline.
pub open spec fn wf_tag(t: Seq<u8>) -> bool {
    &&& t.len() > 0
    &&& t[0] == 35
    &&& forall|i: int| 0 <= i < t.len() ==> t[i] != 32 && t[i] != 10
}

impl PackageView {
    /// What the parser guarantees of every record: a well-formed name and
    /// well-formed tags, the tags sorted ascending.
    pub open spec fn wf(self) -> bool {
        &&& wf_name(self.name)
        &&& forall|i: int| 0 <= i < self.tags.len() ==> wf_tag(#[trigger] self.tags[i])
        &&& sorted_by(self.tags, byte_leq())
    }
}

/// The order records are kept in: by name, ties broken by source line.
pub open spec fn pkg_leq(a: PackageView, b: PackageView) -> bool {
    lex_lt(a.name, b.name) || (a.name == b.name && a.line_no <= b.line_no)
}

/// `pkg_leq` as a first-class relation.
pub open spec fn pkg_order() -> spec_fn(PackageView, PackageView) -> bool {
    |a: PackageView, b: PackageView| pkg_leq(a, b)
}

pub proof fn lemma_pkg_leq_connected(a: PackageView, b: PackageView)
    ensures
        pkg_leq(a, b) || pkg_leq(b, a),
{
    lemma_lex_lt_connected(a.name, b.name);
}

pub proof fn lemma_pkg_leq_trans(a: PackageView, b: PackageView, c: PackageView)
    requires
        pkg_leq(a, b),
        pkg_leq(b, c),
    ensures
        pkg_leq(a, c),
{
    if lex_lt(a.name, b.name) && lex_lt(b.name, c.name) {
        lemma_lex_lt_trans(a.name, b.name, c.name);
    }
}

impl Package {
    /// A fresh copy of this record.
    pub fn duplicate(&self) -> (r: Package)
        ensures
            r@ == self@,
    {
        let mut tags: Vec<Vec<u8>> = Vec::new();
        let mut i: usize = 0;
        proof {
            assert(views_of(tags@) =~= views_of(self.tags@).take(0));
        }
        while i < self.tags.len()
            invariant
                i <= self.tags.len(),
                views_of(tags@) == views_of(self.tags@).take(i as int),
            decreases self.tags.len() - i,
        {
            let c = copy_bytes(&self.tags[i]);
            proof {
                assert(c@ == self.tags@[i as int]@);
            }
            let ghost pre = tags@;
            tags.push(c);
            proof {
                assert(tags@ == pre.push(c));
                let new_views = views_of(tags@);
                let target = views_of(self.tags@).take(i + 1);
                assert(views_of(self.tags@).len() == self.tags@.len());
                assert(views_of(pre) == views_of(self.tags@).take(i as int));
                assert(views_of(pre).len() == pre.len());
                assert(views_of(self.tags@).take(i as int).len() == i);
                assert(pre.len() == i);
                assert(new_views.len() == target.len());
                assert forall|k: int| 0 <= k < new_views.len() implies new_views[k] == target[k] by {
                    if k < i as int {
                        assert(tags@[k] == pre[k]);
                        assert(views_of(pre)[k] == views_of(self.tags@).take(i as int)[k]);
                    } else {
                        assert(tags@[k] == c);
                    }
                }
                assert(views_of(tags@) =~= views_of(self.tags@).take(i + 1));
            }
            i += 1;
        }
        let r = Package { line_no: self.line_no, name: copy_bytes(&self.name), tags };
        proof {
            assert(views_of(r.tags@) =~= views_of(self.tags@));
            assert(r@ == self@);
        }
        r
    }
}

/// Decides `pkg_leq` on two records.
pub fn pkg_leq_exec(a: &Package, b: &Package) -> (r: bool)
    ensures
        r == pkg_leq(a@, b@),
{
    if lex_lt_exec(&a.name, &b.name) {
        true
    } else if bytes_eq(&a.name, &b.name) {
        a.line_no <= b.line_no
    } else {
        false
    }
}

/// Inserts a tag into a tag list sorted by `byte_leq`, keeping it sorted.
fn insert_tag_sorted(out: &mut Vec<Vec<u8>>, t: Vec<u8>)
    requires
        sorted_by(views_of(old(out)@), byte_leq()),
    ensures
        sorted_by(views_of(final(out)@), byte_leq()),
        views_of(final(out)@).to_multiset() == views_of(old(out)@).to_multiset().insert(t@),
{
    broadcast use vstd::seq_lib::to_multiset_insert;

    let mut k: usize = 0;
    while k < out.len() && !lex_leq_exec(&t, &out[k])
        invariant
            k <= out.len(),
            out@ == old(out)@,
            forall|j: int| 0 <= j < k ==> !lex_leq(t@, #[trigger] views_of(out@)[j]),
        decreases out.len() - k,
    {
        k += 1;
    }
    let ghost ovs = views_of(out@);
    let ghost tv = t@;
    let ghost pos = k as int;
    out.insert(k, t);
    proof {
        ovs.insert_ensures(pos, tv);
        assert(views_of(out@) =~= ovs.insert(pos, tv));
        let nvs = views_of(out@);
        assert forall|i: int, j: int| 0 <= i < j < nvs.len() implies #[trigger] byte_leq()(
            nvs[i],
            nvs[j],
        ) by {
            let oi = if i < pos { ovs[i] } else { ovs[i - 1] };
            let oj = if j < pos { ovs[j] } else { ovs[j - 1] };
            if i < pos {
                assert(!lex_leq(tv, ovs[i]));
                lemma_lex_lt_connected(tv, ovs[i]);
            }
            if j == pos && i < pos {
                assert(lex_leq(ovs[i], tv));
            }
            if i == pos && j > pos {
                assert(k < ovs.len() && lex_leq(tv, ovs[pos]));
                if pos < j - 1 {
                    assert(byte_leq()(ovs[pos], ovs[j - 1]));
                }
                if lex_lt(tv, ovs[pos]) && lex_lt(ovs[pos], ovs[j - 1]) {
                    lemma_lex_lt_trans(tv, ovs[pos], ovs[j - 1]);
                }
            }
            if i < pos && j > pos {
                assert(byte_leq()(ovs[i], ovs[j - 1]));
            }
        }
    }
}

/// Sorts a list of tags lexicographically; the result is a sorted
/// rearrangement of the input.
pub fn sort_tags(tags: &Vec<Vec<u8>>) -> (r: Vec<Vec<u8>>)
    ensures
        sorted_by(views_of(r@), byte_leq()),
        views_of(r@).to_multiset() == views_of(tags@).to_multiset(),
{
    broadcast use vstd::seq_lib::group_to_multiset_ensures;
    broadcast use vstd::multiset::group_multiset_axioms;

    let mut out: Vec<Vec<u8>> = Vec::new();
    let mut i: usize = 0;
    proof {
        assert(views_of(out@) =~= Seq::<Seq<u8>>::empty());
        assert(views_of(tags@).take(0) =~= Seq::<Seq<u8>>::empty());
    }
    while i < tags.len()
        invariant
            i <= tags.len(),
            sorted_by(views_of(out@), byte_leq()),
            views_of(out@).to_multiset() == views_of(tags@).take(i as int).to_multiset(),
        decreases tags.len() - i,
    {
        let t = copy_bytes(&tags[i]);
        let ghost tv = t@;
        proof {
            assert(views_of(tags@).take(i + 1) =~= views_of(tags@).take(i as int).push(tv));
            views_of(tags@).take(i as int).to_multiset_ensures();
            assert(views_of(tags@).take(i as int).push(tv).to_multiset() == views_of(
                tags@,
            ).take(i as int).to_multiset().insert(tv));
        }
        insert_tag_sorted(&mut out, t);
        i += 1;
    }
    proof {
        assert(views_of(tags@).take(tags@.len() as int) =~= views_of(tags@));
    }
    out
}

/// Inserts a record into a list sorted by `pkg_order`, keeping it sorted.
pub fn insert_pkg_sorted(out: &mut Vec<Package>, p: Package)
    requires
        sorted_by(pkg_views(old(out)@), pkg_order()),
    ensures
        sorted_by(pkg_views(final(out)@), pkg_order()),
        pkg_views(final(out)@).to_multiset() == pkg_views(old(out)@).to_multiset().insert(p@),
{
    broadcast use vstd::seq_lib::to_multiset_insert;

    let mut k: usize = 0;
    while k < out.len() && !pkg_leq_exec(&p, &out[k])
        invariant
            k <= out.len(),
            out@ == old(out)@,
            forall|j: int| 0 <= j < k ==> !pkg_leq(p@, #[trigger] pkg_views(out@)[j]),
        decreases out.len() - k,
    {
        k += 1;
    }
    let ghost ovs = pkg_views(out@);
    let ghost pv = p@;
    let ghost pos = k as int;
    out.insert(k, p);
    proof {
        ovs.insert_ensures(pos, pv);
        assert(pkg_views(out@) =~= ovs.insert(pos, pv));
        let nvs = pkg_views(out@);
        assert forall|i: int, j: int| 0 <= i < j < nvs.len() implies #[trigger] pkg_order()(
            nvs[i],
            nvs[j],
        ) by {
            if i < pos {
                assert(!pkg_leq(pv, ovs[i]));
                lemma_pkg_leq_connected(pv, ovs[i]);
            }
            if i == pos && j > pos {
                assert(k < ovs.len() && pkg_leq(pv, ovs[pos]));
                if pos < j - 1 {
                    assert(pkg_order()(ovs[pos], ovs[j - 1]));
                    lemma_pkg_leq_trans(pv, ovs[pos], ovs[j - 1]);
                }
            }
            if i < pos && j > pos {
                assert(pkg_order()(ovs[i], ovs[j - 1]));
            }
        }
    }
}

} // verus!
