//! Domain paths: a dotted name, taken as its UTF-8 bytes, splits at the dots
//! into an ordered sequence of labels, least-significant label first. DNS
//! compares names case-insensitively, so labels are folded to ASCII
//! lowercase. The empty (apex) name has an empty path; otherwise a name of
//! `k` dots has `k + 1` labels, some possibly empty.

use vstd::prelude::*;
use crate::trie::TreeSortable;

verus! {

broadcast use vstd::std_specs::vec::group_vec_axioms, vstd::seq::group_seq_axioms, vstd::seq_lib::group_seq_lib_default;

/// ASCII dot, the label separator.
pub const DOT: u8 = 46;

/// ASCII uppercase letters fold to lowercase; other bytes are unchanged.
pub open spec fn lower_byte(b: u8) -> u8 {
    if 65 <= b && b <= 90 {
        (b + 32) as u8
    } else {
        b
    }
}

/// The whole name, folded to ASCII lowercase.
pub open spec fn lower_bytes(s: Seq<u8>) -> Seq<u8> {
    s.map_values(|b: u8| lower_byte(b))
}

/// The index of the first dot in `s`, or `s.len()` when there is none.
pub open spec fn first_dot(s: Seq<u8>) -> int
    decreases s.len(),
{
    if s.len() == 0 {
        0
    } else if s[0] == DOT {
        0
    } else {
        1 + first_dot(s.drop_first())
    }
}

pub proof fn lemma_first_dot_bounds(s: Seq<u8>)
    ensures
        0 <= first_dot(s) <= s.len(),
        first_dot(s) < s.len() ==> s[first_dot(s)] == DOT,
        forall|i: int| 0 <= i < first_dot(s) ==> s[i] != DOT,
    decreases s.len(),
{
    if s.len() > 0 && s[0] != DOT {
        lemma_first_dot_bounds(s.drop_first());
        let d = first_dot(s.drop_first());
        assert forall|i: int| 0 <= i < first_dot(s) implies s[i] != DOT by {
            if i > 0 {
                assert(s[i] == s.drop_first()[i - 1]);
            }
        }
        if first_dot(s) < s.len() {
            assert(s[first_dot(s)] == s.drop_first()[d]);
        }
    }
}

/// A dot-free prefix up to `k`, with a dot (or the end) at `k`, pins the
/// first dot at `k`.
pub proof fn lemma_first_dot_at(s: Seq<u8>, k: int)
    requires
        0 <= k <= s.len(),
        forall|i: int| 0 <= i < k ==> s[i] != DOT,
        k < s.len() ==> s[k] == DOT,
    ensures
        first_dot(s) == k,
    decreases s.len(),
{
    if s.len() > 0 && k > 0 {
        lemma_first_dot_at(s.drop_first(), k - 1);
    }
}

/// The labels of a nonempty name: the bytes before the first dot, then the
/// labels of what follows it. A name without dots is one label; a trailing
/// dot yields a final empty label.
pub open spec fn split_labels(s: Seq<u8>) -> Seq<Seq<u8>>
    decreases s.len(),
    via split_labels_decreases
{
    let d = first_dot(s);
    if d == s.len() {
        seq![s]
    } else {
        seq![s.subrange(0, d)] + split_labels(s.subrange(d + 1, s.len() as int))
    }
}

#[via_fn]
proof fn split_labels_decreases(s: Seq<u8>) {
    lemma_first_dot_bounds(s);
}

/// The domain path of a name's bytes: no labels for the empty (apex) name,
/// otherwise its dot-separated labels, folded to ASCII lowercase.
pub open spec fn domain_path(s: Seq<u8>) -> Seq<Seq<u8>> {
    if s.len() == 0 {
        seq![]
    } else {
        split_labels(lower_bytes(s))
    }
}

/// Splitting after a dot-free run `[from, upto)` peels one label off.
proof fn lemma_split_at_dot(low: Seq<u8>, from: int, upto: int)
    requires
        0 <= from <= upto <= low.len(),
        forall|k: int| from <= k < upto ==> low[k] != DOT,
        upto < low.len() ==> low[upto] == DOT,
    ensures
        upto < low.len() ==> split_labels(low.skip(from)) =~= seq![low.subrange(from, upto)]
            + split_labels(low.skip(upto + 1)),
        upto == low.len() ==> split_labels(low.skip(from)) =~= seq![low.subrange(from, upto)],
{
    let t = low.skip(from);
    lemma_first_dot_at(t, upto - from);
    if upto < low.len() {
        assert(t.subrange(0, upto - from) =~= low.subrange(from, upto));
        assert(t.subrange(upto - from + 1, t.len() as int) =~= low.skip(upto + 1));
    } else {
        assert(t =~= low.subrange(from, upto));
    }
}

/// Computes the domain path of a name given as bytes.
pub fn bytes_path(s: &Vec<u8>) -> (r: Vec<Vec<u8>>)
    ensures
        r.deep_view() == domain_path(s@),
{
    let n = s.len();
    let mut r: Vec<Vec<u8>> = Vec::new();
    if n == 0 {
        proof {
            assert(r.deep_view() =~= domain_path(s@));
        }
        return r;
    }
    let mut low: Vec<u8> = Vec::new();
    let mut j: usize = 0;
    while j < n
        invariant
            j <= n,
            n == s@.len(),
            low@.len() == j,
            forall|i: int| 0 <= i < j ==> low@[i] == lower_byte(s@[i]),
        decreases n - j,
    {
        let b = s[j];
        if 65 <= b && b <= 90 {
            low.push(b + 32);
        } else {
            low.push(b);
        }
        j += 1;
    }
    proof {
        assert(low@ =~= lower_bytes(s@));
        assert(low@.skip(0) =~= low@);
        assert(r.deep_view() + split_labels(low@) =~= split_labels(low@));
    }
    let mut start: usize = 0;
    let mut i: usize = 0;
    while i < n
        invariant
            start <= i <= n,
            n == s@.len(),
            low@.len() == n,
            low@ == lower_bytes(s@),
            forall|k: int| start <= k < i ==> low@[k] != DOT,
            r.deep_view() + split_labels(low@.skip(start as int)) =~= split_labels(low@),
        decreases n - i,
    {
        if low[i] == DOT {
            let lab = vstd::slice::slice_to_vec(
                vstd::slice::slice_subrange(low.as_slice(), start, i),
            );
            proof {
                lemma_split_at_dot(low@, start as int, i as int);
                assert(lab.deep_view() =~= low@.subrange(start as int, i as int));
                assert(r.deep_view().push(lab.deep_view()) + split_labels(
                    low@.skip(i as int + 1),
                ) =~= split_labels(low@));
            }
            let ghost r_old = r.deep_view();
            r.push(lab);
            proof {
                assert(r.deep_view() =~= r_old.push(low@.subrange(start as int, i as int)));
            }
            start = i + 1;
        }
        i += 1;
    }
    let lab = vstd::slice::slice_to_vec(vstd::slice::slice_subrange(low.as_slice(), start, n));
    proof {
        lemma_split_at_dot(low@, start as int, n as int);
        assert(lab.deep_view() =~= low@.subrange(start as int, n as int));
        assert(r.deep_view().push(lab.deep_view()) + split_labels(low@.skip(n as int)) =~= r.deep_view().push(
            lab.deep_view(),
        ) + seq![low@.skip(n as int)]);
    }
    let ghost r_old = r.deep_view();
    r.push(lab);
    proof {
        assert(r.deep_view() =~= r_old.push(low@.subrange(start as int, n as int)));
        assert(r.deep_view() =~= split_labels(low@));
    }
    r
}

impl TreeSortable for String {
    /// The path of a dotted name held in a string: its UTF-8 bytes, split at
    /// the dots and folded to lowercase.
    open spec fn path_spec(&self) -> Seq<Seq<u8>> {
        domain_path(vstd::utf8::encode_utf8(self@))
    }

    fn get_path(&self) -> (r: Vec<Vec<u8>>)
        ensures
            r.deep_view() == self.path_spec(),
    {
        let bytes = self.as_str().as_bytes_vec();
        bytes_path(&bytes)
    }
}

} // verus!
