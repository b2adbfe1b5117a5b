//! Byte-sequence primitives the manifest logic is built on: lexicographic
//! ordering, whitespace trimming, splitting on a separator and joining.

use vstd::prelude::*;

verus! {

/// ASCII whitespace: the bytes stripped from the ends of a manifest line.
pub open spec fn is_space(b: u8) -> bool {
    b == 32 || b == 9 || b == 10 || b == 13 || b == 11 || b == 12
}

pub fn is_space_exec(b: u8) -> (r: bool)
    ensures
        r == is_space(b),
{
    b == 32 || b == 9 || b == 10 || b == 13 || b == 11 || b == 12
}

/// Strict byte-wise lexicographic order on byte sequences.
pub open spec fn lex_lt(a: Seq<u8>, b: Seq<u8>) -> bool
    decreases a.len(),
{
    if b.len() == 0 {
        false
    } else if a.len() == 0 {
        true
    } else if a[0] != b[0] {
        a[0] < b[0]
    } else {
        lex_lt(a.skip(1), b.skip(1))
    }
}

/// Non-strict lexicographic order.
pub open spec fn lex_leq(a: Seq<u8>, b: Seq<u8>) -> bool {
    lex_lt(a, b) || a == b
}

pub proof fn lemma_lex_lt_irrefl(a: Seq<u8>)
    ensures
        !lex_lt(a, a),
    decreases a.len(),
{
    if a.len() > 0 {
        lemma_lex_lt_irrefl(a.skip(1));
    }
}

pub proof fn lemma_lex_lt_connected(a: Seq<u8>, b: Seq<u8>)
    ensures
        lex_lt(a, b) || lex_lt(b, a) || a == b,
    decreases a.len(),
{
    if a.len() == 0 && b.len() == 0 {
        assert(a =~= b);
    } else if a.len() > 0 && b.len() > 0 && a[0] == b[0] {
        lemma_lex_lt_connected(a.skip(1), b.skip(1));
        if a.skip(1) == b.skip(1) {
            assert(a.skip(1).len() == a.len() - 1);
            assert(b.skip(1).len() == b.len() - 1);
            assert(a.len() == b.len());
            assert forall|i: int| 0 <= i < a.len() implies a[i] == b[i] by {
                if i > 0 {
                    assert(a[i] == a.skip(1)[i - 1]);
                    assert(b[i] == b.skip(1)[i - 1]);
                }
            }
            assert(a =~= b);
        }
    }
}

pub proof fn lemma_lex_lt_trans(a: Seq<u8>, b: Seq<u8>, c: Seq<u8>)
    requires
        lex_lt(a, b),
        lex_lt(b, c),
    ensures
        lex_lt(a, c),
    decreases a.len(),
{
    if a.len() > 0 && b.len() > 0 && c.len() > 0 {
        if a[0] == b[0] && b[0] == c[0] {
            lemma_lex_lt_trans(a.skip(1), b.skip(1), c.skip(1));
        }
    }
}

pub proof fn lemma_lex_lt_asym(a: Seq<u8>, b: Seq<u8>)
    requires
        lex_lt(a, b),
    ensures
        !lex_lt(b, a),
{
    if lex_lt(b, a) {
        lemma_lex_lt_trans(a, b, a);
        lemma_lex_lt_irrefl(a);
    }
}

/// `lex_leq` as a first-class relation, for vstd's sorting machinery.
pub open spec fn byte_leq() -> spec_fn(Seq<u8>, Seq<u8>) -> bool {
    |a: Seq<u8>, b: Seq<u8>| lex_leq(a, b)
}

/// `lex_leq` is a total ordering, in the sense vstd's sorting lemmas expect.
pub proof fn lemma_lex_leq_total_ordering()
    ensures
        vstd::relations::total_ordering(byte_leq()),
{
    let leq = byte_leq();
    assert forall|a: Seq<u8>, b: Seq<u8>| #[trigger] leq(a, b) || #[trigger] leq(b, a) by {
        lemma_lex_lt_connected(a, b);
    }
    assert forall|a: Seq<u8>, b: Seq<u8>| #[trigger] leq(a, b) && #[trigger] leq(b, a) implies a == b by {
        if lex_lt(a, b) && lex_lt(b, a) {
            lemma_lex_lt_asym(a, b);
        }
    }
    assert forall|a: Seq<u8>, b: Seq<u8>, c: Seq<u8>|
        #[trigger] leq(a, b) && #[trigger] leq(b, c) implies leq(a, c) by {
        if lex_lt(a, b) && lex_lt(b, c) {
            lemma_lex_lt_trans(a, b, c);
        }
    }
}

/// Byte-vector equality, decided in executable code.
pub fn bytes_eq(a: &Vec<u8>, b: &Vec<u8>) -> (r: bool)
    ensures
        r == (a@ == b@),
{
    if a.len() != b.len() {
        return false;
    }
    let mut i: usize = 0;
    while i < a.len()
        invariant
            i <= a.len(),
            a.len() == b.len(),
            forall|k: int| 0 <= k < i ==> a@[k] == b@[k],
        decreases a.len() - i,
    {
        if a[i] != b[i] {
            return false;
        }
        i += 1;
    }
    proof {
        assert(a@ =~= b@);
    }
    true
}

pub fn lex_lt_exec(a: &Vec<u8>, b: &Vec<u8>) -> (r: bool)
    ensures
        r == lex_lt(a@, b@),
{
    let mut i: usize = 0;
    proof {
        assert(a@.skip(0) =~= a@);
        assert(b@.skip(0) =~= b@);
    }
    loop
        invariant
            i <= a.len(),
            i <= b.len(),
            lex_lt(a@, b@) == lex_lt(a@.skip(i as int), b@.skip(i as int)),
        decreases a.len() - i,
    {
        if i == b.len() {
            return false;
        }
        if i == a.len() {
            return true;
        }
        let x = a[i];
        let y = b[i];
        proof {
            assert(a@.skip(i as int)[0] == a@[i as int]);
            assert(b@.skip(i as int)[0] == b@[i as int]);
        }
        if x < y {
            return true;
        }
        if x > y {
            return false;
        }
        proof {
            assert(a@.skip(i as int).skip(1) =~= a@.skip(i + 1));
            assert(b@.skip(i as int).skip(1) =~= b@.skip(i + 1));
        }
        i += 1;
    }
}

pub fn lex_leq_exec(a: &Vec<u8>, b: &Vec<u8>) -> (r: bool)
    ensures
        r == lex_leq(a@, b@),
{
    if lex_lt_exec(a, b) {
        true
    } else {
        bytes_eq(a, b)
    }
}

/// A fresh copy of a byte vector.
pub fn copy_bytes(v: &Vec<u8>) -> (r: Vec<u8>)
    ensures
        r@ == v@,
{
    let mut r: Vec<u8> = Vec::new();
    let mut i: usize = 0;
    while i < v.len()
        invariant
            i <= v.len(),
            r@ =~= v@.take(i as int),
        decreases v.len() - i,
    {
        r.push(v[i]);
        i += 1;
    }
    proof {
        assert(v@.take(v.len() as int) =~= v@);
    }
    r
}

/// A copy of `v[a..b]`.
pub fn sub_bytes(v: &Vec<u8>, a: usize, b: usize) -> (r: Vec<u8>)
    requires
        a <= b <= v.len(),
    ensures
        r@ == v@.subrange(a as int, b as int),
{
    let mut r: Vec<u8> = Vec::new();
    let mut i: usize = a;
    while i < b
        invariant
            a <= i <= b <= v.len(),
            r@ =~= v@.subrange(a as int, i as int),
        decreases b - i,
    {
        r.push(v[i]);
        i += 1;
    }
    r
}

/// Appends a copy of `src` to `dst`.
pub fn append_bytes(dst: &mut Vec<u8>, src: &Vec<u8>)
    ensures
        final(dst)@ == old(dst)@ + src@,
{
    let mut i: usize = 0;
    while i < src.len()
        invariant
            i <= src.len(),
            dst@ =~= old(dst)@ + src@.take(i as int),
        decreases src.len() - i,
    {
        dst.push(src[i]);
        i += 1;
    }
    proof {
        assert(src@.take(src.len() as int) =~= src@);
    }
}

/// Splitting a byte sequence on a separator, keeping empty pieces, as
/// `str::split` does: the result always has at least one piece.
pub open spec fn split_on(s: Seq<u8>, sep: u8) -> Seq<Seq<u8>>
    decreases s.len(),
{
    if s.len() == 0 {
        seq![Seq::<u8>::empty()]
    } else if s[0] == sep {
        seq![Seq::<u8>::empty()] + split_on(s.skip(1), sep)
    } else {
        let rest = split_on(s.skip(1), sep);
        seq![seq![s[0]] + rest[0]] + rest.skip(1)
    }
}

pub proof fn lemma_split_on_len(s: Seq<u8>, sep: u8)
    ensures
        split_on(s, sep).len() >= 1,
    decreases s.len(),
{
    if s.len() > 0 {
        lemma_split_on_len(s.skip(1), sep);
    }
}

/// A sequence without the separator splits into just itself.
pub proof fn lemma_split_on_no_sep(s: Seq<u8>, sep: u8)
    requires
        forall|i: int| 0 <= i < s.len() ==> s[i] != sep,
    ensures
        split_on(s, sep) == seq![s],
    decreases s.len(),
{
    if s.len() == 0 {
        assert(split_on(s, sep) =~~= seq![s]);
    } else {
        assert(s[0] != sep);
        assert(forall|i: int| 0 <= i < s.skip(1).len() ==> s.skip(1)[i] == s[i + 1]);
        lemma_split_on_no_sep(s.skip(1), sep);
        lemma_split_on_len(s.skip(1), sep);
        let rest = split_on(s.skip(1), sep);
        assert(rest[0] == s.skip(1));
        assert(rest.skip(1) =~= Seq::<Seq<u8>>::empty());
        assert(seq![s[0]] + s.skip(1) =~= s);
        assert(split_on(s, sep) =~~= seq![s]);
    }
}

/// Splitting at the first separator occurrence, at index `k`.
pub proof fn lemma_split_on_sep_at(s: Seq<u8>, sep: u8, k: int)
    requires
        0 <= k < s.len(),
        s[k] == sep,
        forall|i: int| 0 <= i < k ==> s[i] != sep,
    ensures
        split_on(s, sep) == seq![s.take(k)] + split_on(s.skip(k + 1), sep),
    decreases k,
{
    if k == 0 {
        assert(s.take(0) =~= Seq::<u8>::empty());
        assert(split_on(s, sep) =~~= seq![s.take(0)] + split_on(s.skip(1), sep));
    } else {
        assert(forall|i: int| 0 <= i < k - 1 ==> s.skip(1)[i] == s[i + 1]);
        lemma_split_on_sep_at(s.skip(1), sep, k - 1);
        lemma_split_on_len(s.skip(1).skip(k), sep);
        let rest = split_on(s.skip(1), sep);
        assert(rest[0] == s.skip(1).take(k - 1));
        assert(rest.skip(1) == split_on(s.skip(1).skip(k), sep));
        assert(seq![s[0]] + s.skip(1).take(k - 1) =~= s.take(k));
        assert(s.skip(1).skip(k) =~= s.skip(k + 1));
        assert(split_on(s, sep) =~~= seq![s.take(k)] + split_on(s.skip(k + 1), sep));
    }
}

/// Splits a byte vector on a separator byte, keeping empty pieces.
pub fn split_bytes(s: &Vec<u8>, sep: u8) -> (r: Vec<Vec<u8>>)
    ensures
        r@.map_values(|t: Vec<u8>| t@) == split_on(s@, sep),
{
    let mut r: Vec<Vec<u8>> = Vec::new();
    let mut start: usize = 0;
    let mut i: usize = 0;
    proof {
        assert(s@.skip(0) =~= s@);
        assert(r@.map_values(|t: Vec<u8>| t@) =~= Seq::<Seq<u8>>::empty());
        assert(Seq::<Seq<u8>>::empty() + split_on(s@, sep) =~= split_on(s@, sep));
    }
    while i < s.len()
        invariant
            0 <= start <= i <= s.len(),
            forall|k: int| start <= k < i ==> s@[k] != sep,
            split_on(s@, sep) == r@.map_values(|t: Vec<u8>| t@) + split_on(
                s@.skip(start as int),
                sep,
            ),
        decreases s.len() - i,
    {
        if s[i] == sep {
            let piece = sub_bytes(s, start, i);
            proof {
                let suffix = s@.skip(start as int);
                assert(forall|k: int|
                    0 <= k < i - start ==> suffix[k] == s@[k + start] && suffix[k] != sep);
                lemma_split_on_sep_at(suffix, sep, i - start);
                assert(suffix.take(i - start) =~= s@.subrange(start as int, i as int));
                assert(suffix.skip(i - start + 1) =~= s@.skip(i + 1));
                assert(r@.push(piece).map_values(|t: Vec<u8>| t@) =~= r@.map_values(
                    |t: Vec<u8>| t@,
                ).push(piece@));
                assert(r@.map_values(|t: Vec<u8>| t@).push(suffix.take(i - start)) + split_on(
                    s@.skip(i + 1),
                    sep,
                ) =~= r@.map_values(|t: Vec<u8>| t@) + (seq![suffix.take(i - start)] + split_on(
                    s@.skip(i + 1),
                    sep,
                )));
            }
            r.push(piece);
            start = i + 1;
        }
        i += 1;
    }
    let piece = sub_bytes(s, start, s.len());
    proof {
        let suffix = s@.skip(start as int);
        assert(forall|k: int|
            0 <= k < suffix.len() ==> suffix[k] == s@[k + start] && suffix[k] != sep);
        lemma_split_on_no_sep(suffix, sep);
        assert(suffix =~= s@.subrange(start as int, s@.len() as int));
        assert(r@.push(piece).map_values(|t: Vec<u8>| t@) =~= r@.map_values(|t: Vec<u8>| t@).push(
            piece@,
        ));
        assert(r@.map_values(|t: Vec<u8>| t@).push(suffix) =~= r@.map_values(|t: Vec<u8>| t@)
            + seq![suffix]);
    }
    r.push(piece);
    r
}

/// No piece of a split contains the separator.
pub proof fn lemma_split_on_pieces_no_sep(s: Seq<u8>, sep: u8)
    ensures
        forall|i: int, k: int|
            0 <= i < split_on(s, sep).len() && 0 <= k < split_on(s, sep)[i].len()
                ==> split_on(s, sep)[i][k] != sep,
    decreases s.len(),
{
    if s.len() == 0 {
    } else if s[0] == sep {
        lemma_split_on_pieces_no_sep(s.skip(1), sep);
        let r = split_on(s, sep);
        let rest = split_on(s.skip(1), sep);
        assert forall|i: int, k: int| 0 <= i < r.len() && 0 <= k < r[i].len() implies r[i][k]
            != sep by {
            if i > 0 {
                assert(r[i] == rest[i - 1]);
            }
        }
    } else {
        lemma_split_on_pieces_no_sep(s.skip(1), sep);
        lemma_split_on_len(s.skip(1), sep);
        let r = split_on(s, sep);
        let rest = split_on(s.skip(1), sep);
        assert forall|i: int, k: int| 0 <= i < r.len() && 0 <= k < r[i].len() implies r[i][k]
            != sep by {
            if i == 0 {
                assert(r[0] == seq![s[0]] + rest[0]);
                if k > 0 {
                    assert(r[0][k] == rest[0][k - 1]);
                }
            } else {
                assert(r[i] == rest.skip(1)[i - 1]);
                assert(rest.skip(1)[i - 1] == rest[i]);
            }
        }
    }
}

/// A byte absent from the whole sequence is absent from every piece.
pub proof fn lemma_split_on_pieces_keep(s: Seq<u8>, sep: u8, b: u8)
    requires
        forall|j: int| 0 <= j < s.len() ==> s[j] != b,
    ensures
        forall|i: int, k: int|
            0 <= i < split_on(s, sep).len() && 0 <= k < split_on(s, sep)[i].len()
                ==> split_on(s, sep)[i][k] != b,
    decreases s.len(),
{
    if s.len() == 0 {
    } else {
        assert(forall|j: int| 0 <= j < s.skip(1).len() ==> s.skip(1)[j] == s[j + 1]);
        lemma_split_on_pieces_keep(s.skip(1), sep, b);
        let r = split_on(s, sep);
        let rest = split_on(s.skip(1), sep);
        if s[0] == sep {
            assert forall|i: int, k: int| 0 <= i < r.len() && 0 <= k < r[i].len() implies r[i][k]
                != b by {
                if i > 0 {
                    assert(r[i] == rest[i - 1]);
                }
            }
        } else {
            lemma_split_on_len(s.skip(1), sep);
            assert forall|i: int, k: int| 0 <= i < r.len() && 0 <= k < r[i].len() implies r[i][k]
                != b by {
                if i == 0 {
                    assert(r[0] == seq![s[0]] + rest[0]);
                    if k == 0 {
                        assert(r[0][0] == s[0]);
                    } else {
                        assert(r[0][k] == rest[0][k - 1]);
                    }
                } else {
                    assert(r[i] == rest.skip(1)[i - 1]);
                    assert(rest.skip(1)[i - 1] == rest[i]);
                }
            }
        }
    }
}

/// The first piece of a split starts with the first byte, when that byte is
/// not the separator.
pub proof fn lemma_split_on_first(s: Seq<u8>, sep: u8)
    requires
        s.len() > 0,
        s[0] != sep,
    ensures
        split_on(s, sep)[0].len() > 0,
        split_on(s, sep)[0][0] == s[0],
{
    lemma_split_on_len(s.skip(1), sep);
    let rest = split_on(s.skip(1), sep);
    assert(split_on(s, sep)[0] == seq![s[0]] + rest[0]);
    assert((seq![s[0]] + rest[0])[0] == s[0]);
}

/// `trim_front` is a suffix whose head, if any, is not whitespace.
pub proof fn lemma_trim_front_struct(s: Seq<u8>)
    ensures
        trim_front(s).len() <= s.len(),
        trim_front(s) == s.skip(s.len() - trim_front(s).len()),
        trim_front(s).len() > 0 ==> !is_space(trim_front(s)[0]),
    decreases s.len(),
{
    if s.len() > 0 && is_space(s[0]) {
        lemma_trim_front_struct(s.skip(1));
        let t = trim_front(s);
        assert(s.skip(1).skip(s.skip(1).len() - t.len()) =~= s.skip(s.len() - t.len()));
    } else {
        assert(s.skip(0) =~= s);
    }
}

/// `trim_back` is a prefix whose last byte, if any, is not whitespace.
pub proof fn lemma_trim_back_struct(s: Seq<u8>)
    ensures
        trim_back(s).len() <= s.len(),
        trim_back(s) == s.take(trim_back(s).len() as int),
        trim_back(s).len() > 0 ==> !is_space(trim_back(s)[trim_back(s).len() - 1]),
    decreases s.len(),
{
    if s.len() > 0 && is_space(s[s.len() - 1]) {
        lemma_trim_back_struct(s.take(s.len() - 1));
        let t = trim_back(s);
        assert(s.take(s.len() - 1).take(t.len() as int) =~= s.take(t.len() as int));
    } else {
        assert(s.take(s.len() as int) =~= s);
    }
}

/// What is left after removing leading whitespace.
pub open spec fn trim_front(s: Seq<u8>) -> Seq<u8>
    decreases s.len(),
{
    if s.len() > 0 && is_space(s[0]) {
        trim_front(s.skip(1))
    } else {
        s
    }
}

/// What is left after removing trailing whitespace.
pub open spec fn trim_back(s: Seq<u8>) -> Seq<u8>
    decreases s.len(),
{
    if s.len() > 0 && is_space(s[s.len() - 1]) {
        trim_back(s.take(s.len() - 1))
    } else {
        s
    }
}

/// What is left after removing whitespace from both ends.
pub open spec fn trim(s: Seq<u8>) -> Seq<u8> {
    trim_back(trim_front(s))
}

pub proof fn lemma_trim_front_skip(s: Seq<u8>, a: int)
    requires
        0 <= a <= s.len(),
        forall|i: int| 0 <= i < a ==> is_space(s[i]),
    ensures
        trim_front(s) == trim_front(s.skip(a)),
    decreases a,
{
    if a > 0 {
        assert(is_space(s[0]));
        assert(forall|i: int| 0 <= i < a - 1 ==> s.skip(1)[i] == s[i + 1]);
        lemma_trim_front_skip(s.skip(1), a - 1);
        assert(s.skip(1).skip(a - 1) =~= s.skip(a));
    } else {
        assert(s.skip(0) =~= s);
    }
}

pub proof fn lemma_trim_back_take(s: Seq<u8>, b: int)
    requires
        0 <= b <= s.len(),
        forall|i: int| b <= i < s.len() ==> is_space(s[i]),
    ensures
        trim_back(s) == trim_back(s.take(b)),
    decreases s.len() - b,
{
    if b < s.len() {
        assert(is_space(s[s.len() - 1]));
        lemma_trim_back_take(s.take(s.len() - 1), b);
        assert(s.take(s.len() - 1).take(b) =~= s.take(b));
    } else {
        assert(s.take(s.len() as int) =~= s);
    }
}

/// Trims ASCII whitespace from both ends, as `str::trim` does on ASCII text.
pub fn trim_bytes(v: &Vec<u8>) -> (r: Vec<u8>)
    ensures
        r@ == trim(v@),
{
    let mut a: usize = 0;
    while a < v.len() && is_space_exec(v[a])
        invariant
            a <= v.len(),
            forall|k: int| 0 <= k < a ==> is_space(v@[k]),
        decreases v.len() - a,
    {
        a += 1;
    }
    proof {
        lemma_trim_front_skip(v@, a as int);
    }
    if a == v.len() {
        proof {
            assert(v@.skip(a as int) =~= Seq::<u8>::empty());
        }
        return Vec::new();
    }
    let mut b: usize = v.len();
    while b > a + 1 && is_space_exec(v[b - 1])
        invariant
            a < b <= v.len(),
            forall|k: int| b <= k < v.len() ==> is_space(v@[k]),
        decreases b,
    {
        b -= 1;
    }
    proof {
        let f = v@.skip(a as int);
        assert(forall|k: int| 0 <= k < f.len() ==> f[k] == v@[k + a]);
        assert(trim_front(v@) == f);
        lemma_trim_back_take(f, b - a);
        assert(f.take(b - a) =~= v@.subrange(a as int, b as int));
    }
    sub_bytes(v, a, b)
}

/// The pieces joined with a single separator byte between them.
pub open spec fn join_with(ts: Seq<Seq<u8>>, sep: u8) -> Seq<u8>
    decreases ts.len(),
{
    if ts.len() == 0 {
        Seq::<u8>::empty()
    } else if ts.len() == 1 {
        ts[0]
    } else {
        ts[0] + seq![sep] + join_with(ts.skip(1), sep)
    }
}

pub proof fn lemma_join_with_push(ts: Seq<Seq<u8>>, t: Seq<u8>, sep: u8)
    ensures
        join_with(ts.push(t), sep) == if ts.len() == 0 {
            t
        } else {
            join_with(ts, sep) + seq![sep] + t
        },
    decreases ts.len(),
{
    if ts.len() == 0 {
        assert(ts.push(t)[0] == t);
    } else if ts.len() == 1 {
        assert(ts.push(t).skip(1) =~= seq![t]);
        assert(ts.push(t)[0] == ts[0]);
        assert(seq![t][0] == t);
        assert(join_with(seq![t], sep) == t);
        assert(join_with(ts.push(t), sep) == ts[0] + seq![sep] + t);
    } else {
        lemma_join_with_push(ts.skip(1), t, sep);
        assert(ts.push(t).skip(1) =~= ts.skip(1).push(t));
        assert(ts.push(t)[0] == ts[0]);
        assert(ts[0] + seq![sep] + (join_with(ts.skip(1), sep) + seq![sep] + t) =~= (ts[0]
            + seq![sep] + join_with(ts.skip(1), sep)) + seq![sep] + t);
    }
}

/// Joins byte-vector pieces with a separator byte.
pub fn join_bytes(ts: &Vec<Vec<u8>>, sep: u8) -> (r: Vec<u8>)
    ensures
        r@ == join_with(ts@.map_values(|t: Vec<u8>| t@), sep),
{
    let ghost tsv = ts@.map_values(|t: Vec<u8>| t@);
    let mut r: Vec<u8> = Vec::new();
    let mut i: usize = 0;
    while i < ts.len()
        invariant
            i <= ts.len(),
            tsv == ts@.map_values(|t: Vec<u8>| t@),
            r@ == join_with(tsv.take(i as int), sep),
        decreases ts.len() - i,
    {
        if i > 0 {
            r.push(sep);
        }
        append_bytes(&mut r, &ts[i]);
        proof {
            lemma_join_with_push(tsv.take(i as int), tsv[i as int], sep);
            assert(tsv.take(i as int).push(tsv[i as int]) =~= tsv.take(i + 1));
            if i == 0 {
                assert(r@ =~= tsv[0]);
            }
        }
        i += 1;
    }
    proof {
        assert(tsv.take(ts@.len() as int) =~= tsv);
    }
    r
}

/// Trimming changes nothing when neither end is whitespace.
pub proof fn lemma_trim_identity(s: Seq<u8>)
    requires
        s.len() > 0,
        !is_space(s[0]),
        !is_space(s[s.len() - 1]),
    ensures
        trim(s) == s,
{
    assert(trim_front(s) == s);
    assert(trim_back(s) == s);
}

/// Joining two non-empty piece lists concatenates their joins around one
/// separator.
pub proof fn lemma_join_with_concat(a: Seq<Seq<u8>>, b: Seq<Seq<u8>>, sep: u8)
    requires
        a.len() >= 1,
        b.len() >= 1,
    ensures
        join_with(a + b, sep) == join_with(a, sep) + seq![sep] + join_with(b, sep),
    decreases a.len(),
{
    assert((a + b)[0] == a[0]);
    assert((a + b).len() >= 2);
    if a.len() == 1 {
        assert((a + b).skip(1) =~= b);
        assert(join_with(a + b, sep) == a[0] + seq![sep] + join_with(b, sep));
        assert(join_with(a, sep) == a[0]);
    } else {
        lemma_join_with_concat(a.skip(1), b, sep);
        assert((a + b).skip(1) =~= a.skip(1) + b);
        assert(join_with(a + b, sep) == a[0] + seq![sep] + (join_with(a.skip(1), sep) + seq![sep]
            + join_with(b, sep)));
        assert(a[0] + seq![sep] + (join_with(a.skip(1), sep) + seq![sep] + join_with(b, sep)) =~= (
        a[0] + seq![sep] + join_with(a.skip(1), sep)) + seq![sep] + join_with(b, sep));
    }
}

/// `m` empty pieces joined give `m - 1` separator bytes.
pub proof fn lemma_join_empties(m: nat, sep: u8)
    requires
        m >= 1,
    ensures
        join_with(Seq::new(m, |i: int| Seq::<u8>::empty()), sep) == Seq::new(
            (m - 1) as nat,
            |i: int| sep,
        ),
    decreases m,
{
    let es = Seq::new(m, |i: int| Seq::<u8>::empty());
    if m == 1 {
        assert(join_with(es, sep) =~= Seq::new((m - 1) as nat, |i: int| sep));
    } else {
        lemma_join_empties((m - 1) as nat, sep);
        assert(es.skip(1) =~= Seq::new((m - 1) as nat, |i: int| Seq::<u8>::empty()));
        assert(join_with(es, sep) == es[0] + seq![sep] + join_with(es.skip(1), sep));
        assert(es[0] + seq![sep] + Seq::new((m - 2) as nat, |i: int| sep) =~= Seq::new(
            (m - 1) as nat,
            |i: int| sep,
        ));
    }
}

/// The last byte of a join is the last byte of the last piece.
pub proof fn lemma_join_with_last(ts: Seq<Seq<u8>>, sep: u8)
    requires
        ts.len() >= 1,
        ts[ts.len() - 1].len() > 0,
    ensures
        join_with(ts, sep).len() > 0,
        join_with(ts, sep)[join_with(ts, sep).len() - 1] == ts[ts.len() - 1][ts[ts.len() - 1].len()
            - 1],
    decreases ts.len(),
{
    if ts.len() == 1 {
    } else {
        assert(ts.skip(1)[ts.skip(1).len() - 1] == ts[ts.len() - 1]);
        lemma_join_with_last(ts.skip(1), sep);
        assert(join_with(ts, sep) == ts[0] + seq![sep] + join_with(ts.skip(1), sep));
    }
}

/// A byte distinct from the separator and absent from every piece is
/// absent from the join.
pub proof fn lemma_join_with_absent(ts: Seq<Seq<u8>>, sep: u8, b: u8)
    requires
        b != sep,
        forall|i: int, k: int| 0 <= i < ts.len() && 0 <= k < ts[i].len() ==> ts[i][k] != b,
    ensures
        forall|m: int| 0 <= m < join_with(ts, sep).len() ==> join_with(ts, sep)[m] != b,
    decreases ts.len(),
{
    if ts.len() <= 1 {
    } else {
        assert(forall|i: int, k: int|
            0 <= i < ts.skip(1).len() && 0 <= k < ts.skip(1)[i].len() ==> ts.skip(1)[i][k] == ts[i
                + 1][k]);
        lemma_join_with_absent(ts.skip(1), sep, b);
        let j = join_with(ts, sep);
        let k0 = ts[0].len() as int;
        assert(j == ts[0] + seq![sep] + join_with(ts.skip(1), sep));
        assert forall|m: int| 0 <= m < j.len() implies j[m] != b by {
            if m < k0 {
                assert(j[m] == ts[0][m]);
            } else if m == k0 {
                assert(j[m] == sep);
            } else {
                assert(j[m] == join_with(ts.skip(1), sep)[m - k0 - 1]);
            }
        }
    }
}

/// Joining then splitting on the separator recovers the pieces.
pub proof fn lemma_split_on_join(ts: Seq<Seq<u8>>, sep: u8)
    requires
        ts.len() >= 1,
        forall|i: int, k: int| 0 <= i < ts.len() && 0 <= k < ts[i].len() ==> ts[i][k] != sep,
    ensures
        split_on(join_with(ts, sep), sep) == ts,
    decreases ts.len(),
{
    if ts.len() == 1 {
        assert(forall|k: int| 0 <= k < ts[0].len() ==> ts[0][k] != sep);
        lemma_split_on_no_sep(ts[0], sep);
        assert(split_on(join_with(ts, sep), sep) =~= ts);
    } else {
        let j = join_with(ts, sep);
        let k0 = ts[0].len() as int;
        assert(j == ts[0] + seq![sep] + join_with(ts.skip(1), sep));
        assert((ts[0] + seq![sep])[k0] == sep);
        assert(j[k0] == sep);
        assert(forall|i: int| 0 <= i < k0 ==> j[i] == ts[0][i]);
        lemma_split_on_sep_at(j, sep, k0);
        assert(j.take(k0) =~= ts[0]);
        assert(j.skip(k0 + 1) =~= join_with(ts.skip(1), sep));
        assert(forall|i: int, k: int|
            0 <= i < ts.skip(1).len() && 0 <= k < ts.skip(1)[i].len() ==> ts.skip(1)[i][k] == ts[i
                + 1][k]);
        lemma_split_on_join(ts.skip(1), sep);
        assert(seq![ts[0]] + ts.skip(1) =~= ts);
    }
}

/// `n` space bytes.
pub open spec fn spaces(n: nat) -> Seq<u8> {
    Seq::new(n, |i: int| 32u8)
}

/// Appends `n` spaces to `dst`.
pub fn push_spaces(dst: &mut Vec<u8>, n: usize)
    ensures
        final(dst)@ == old(dst)@ + spaces(n as nat),
{
    let mut i: usize = 0;
    while i < n
        invariant
            i <= n,
            dst@ =~= old(dst)@ + spaces(i as nat),
        decreases n - i,
    {
        dst.push(32u8);
        proof {
            assert(old(dst)@ + spaces(i as nat) + seq![32u8] =~= old(dst)@ + spaces((i + 1) as nat));
        }
        i += 1;
    }
}

} // verus!
